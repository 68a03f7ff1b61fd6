//! What a scan lists, against the list of every live id: a run of that list from its start, in the
//! direction asked for.

use crate::bytes;
use crate::part;
use crate::part::{PartView, RowView};
use crate::store::engine;
use crate::store::engine::StoreView;
use crate::store::engine_read;
use crate::store::read;
use crate::store::scan;
use crate::store::scan::{BatchView, ScanView};
use crate::store::scan_laws;
use vstd::prelude::*;

verus! {

// ---------------------------------------------------------------------------------------------
// Work that is left.
// ---------------------------------------------------------------------------------------------
/// Whether a scan has still to meet an id of its range.
spec fn pending(req: ScanView, after: Option<Seq<char>>, id: Seq<char>) -> bool {
    part::in_range(id, req.from, req.to) && scan::beyond(req.reverse, after, id)
}

/// How many of the first `n` rows a scan has still to meet.
spec fn rows_left(rows: Seq<RowView>, req: ScanView, after: Option<Seq<char>>, n: nat) -> nat
    decreases n,
{
    if n == 0 {
        0
    } else {
        rows_left(rows, req, after, (n - 1) as nat) + if pending(req, after, rows[n - 1].id) {
            1nat
        } else {
            0
        }
    }
}

/// How many rows of the parts from `p` on a scan has still to meet.
spec fn parts_left(parts: Seq<PartView>, req: ScanView, after: Option<Seq<char>>, p: int) -> nat
    decreases parts.len() - p,
{
    if p < 0 || p >= parts.len() {
        0
    } else {
        rows_left(parts[p].rows, req, after, parts[p].rows.len()) + parts_left(
            parts,
            req,
            after,
            p + 1,
        )
    }
}

/// How many of the first `n` overlay entries a scan has still to meet.
spec fn overlay_left(
    overlay: Seq<(Seq<char>, bool)>,
    req: ScanView,
    after: Option<Seq<char>>,
    n: nat,
) -> nat
    decreases n,
{
    if n == 0 {
        0
    } else {
        overlay_left(overlay, req, after, (n - 1) as nat) + if pending(
            req,
            after,
            overlay[n - 1].0,
        ) {
            1nat
        } else {
            0
        }
    }
}

/// How many rows and entries a scan has still to meet.
spec fn work_left(
    parts: Seq<PartView>,
    overlay: Seq<(Seq<char>, bool)>,
    req: ScanView,
    after: Option<Seq<char>>,
) -> nat {
    parts_left(parts, req, after, 0) + overlay_left(overlay, req, after, overlay.len())
}

/// How many parts from `p` on hold an id.
spec fn holders_from(parts: Seq<PartView>, id: Seq<char>, p: int) -> nat
    decreases parts.len() - p,
{
    if p < 0 || p >= parts.len() {
        0
    } else {
        holders_from(parts, id, p + 1) + if part::row_of(parts[p].rows, id) is Some {
            1nat
        } else {
            0
        }
    }
}

proof fn lemma_holders(parts: Seq<PartView>, id: Seq<char>, p: int)
    requires
        0 <= p <= parts.len(),
    ensures
        scan::holders(parts.take(p), id) + holders_from(parts, id, p) == scan::holders(parts, id),
    decreases parts.len() - p,
{
    if p == parts.len() {
        assert(parts.take(p) =~= parts);
    } else {
        lemma_holders(parts, id, p + 1);
        assert(parts.take(p + 1).drop_last() =~= parts.take(p));
        assert(parts.take(p + 1).last() == parts[p]);
    }
}

proof fn lemma_pending(req: ScanView, after: Option<Seq<char>>, id: Seq<char>, x: Seq<char>)
    requires
        pending(req, after, id),
    ensures
        pending(req, Some(id), x) ==> pending(req, after, x) && x != id,
{
    if pending(req, Some(id), x) {
        scan_laws::lemma_precedes(req.reverse, id, x, x);
        if after is Some {
            scan_laws::lemma_precedes(req.reverse, after->0, id, x);
        }
    }
}

proof fn lemma_rows_left(
    rows: Seq<RowView>,
    req: ScanView,
    after: Option<Seq<char>>,
    id: Seq<char>,
    n: nat,
)
    requires
        pending(req, after, id),
        n <= rows.len(),
    ensures
        rows_left(rows, req, Some(id), n) <= rows_left(rows, req, after, n),
        (exists|i: int| 0 <= i < n && (#[trigger] rows[i]).id == id) ==> rows_left(
            rows,
            req,
            Some(id),
            n,
        ) + 1 <= rows_left(rows, req, after, n),
    decreases n,
{
    if n > 0 {
        lemma_rows_left(rows, req, after, id, (n - 1) as nat);
        lemma_pending(req, after, id, rows[n - 1].id);
        if exists|i: int| 0 <= i < n && (#[trigger] rows[i]).id == id {
            let i = choose|i: int| 0 <= i < n && (#[trigger] rows[i]).id == id;
            if i < n - 1 {
                assert(rows[i].id == id);
            }
        }
    }
}

proof fn lemma_parts_left(
    parts: Seq<PartView>,
    req: ScanView,
    after: Option<Seq<char>>,
    id: Seq<char>,
    p: int,
)
    requires
        pending(req, after, id),
        0 <= p <= parts.len(),
    ensures
        parts_left(parts, req, Some(id), p) + holders_from(parts, id, p) <= parts_left(
            parts,
            req,
            after,
            p,
        ),
    decreases parts.len() - p,
{
    if p < parts.len() {
        lemma_parts_left(parts, req, after, id, p + 1);
        lemma_rows_left(parts[p].rows, req, after, id, parts[p].rows.len());
    }
}

proof fn lemma_overlay_left(
    overlay: Seq<(Seq<char>, bool)>,
    req: ScanView,
    after: Option<Seq<char>>,
    id: Seq<char>,
    n: nat,
)
    requires
        pending(req, after, id),
        n <= overlay.len(),
    ensures
        overlay_left(overlay, req, Some(id), n) <= overlay_left(overlay, req, after, n),
        (exists|i: int| 0 <= i < n && (#[trigger] overlay[i]).0 == id) ==> overlay_left(
            overlay,
            req,
            Some(id),
            n,
        ) + 1 <= overlay_left(overlay, req, after, n),
    decreases n,
{
    if n > 0 {
        lemma_overlay_left(overlay, req, after, id, (n - 1) as nat);
        lemma_pending(req, after, id, overlay[n - 1].0);
        if exists|i: int| 0 <= i < n && (#[trigger] overlay[i]).0 == id {
            let i = choose|i: int| 0 <= i < n && (#[trigger] overlay[i]).0 == id;
            if i < n - 1 {
                assert(overlay[i].0 == id);
            }
        }
    }
}

/// Resolving the next id leaves less work by its whole group.
proof fn lemma_work_left(
    parts: Seq<PartView>,
    overlay: Seq<(Seq<char>, bool)>,
    req: ScanView,
    after: Option<Seq<char>>,
    id: Seq<char>,
)
    requires
        scan::overlay_ok(overlay, req),
        scan::is_next(parts, overlay, req, after, id),
    ensures
        work_left(parts, overlay, req, Some(id)) + scan::group_entries(parts, overlay, id)
            <= work_left(parts, overlay, req, after),
        scan::group_entries(parts, overlay, id) >= 1,
{
    if scan::in_overlay(overlay, id) {
        let k = choose|k: int| 0 <= k < overlay.len() && (#[trigger] overlay[k]).0 == id;
        assert(part::in_range(overlay[k].0, req.from, req.to));
    }
    lemma_parts_left(parts, req, after, id, 0);
    lemma_overlay_left(overlay, req, after, id, overlay.len());
    lemma_holders(parts, id, 0);
    assert(scan::holders(parts.take(0), id) == 0);
    if !scan::in_overlay(overlay, id) {
        let p = choose|p: int|
            0 <= p < parts.len() && part::row_of((#[trigger] parts[p]).rows, id) is Some;
        lemma_held(parts, id, p, 0);
    }
}

proof fn lemma_held(parts: Seq<PartView>, id: Seq<char>, p: int, k: int)
    requires
        0 <= k <= p < parts.len(),
        part::row_of(parts[p].rows, id) is Some,
    ensures
        holders_from(parts, id, k) >= 1,
    decreases p - k,
{
    if k < p {
        lemma_held(parts, id, p, k + 1);
    }
}

proof fn lemma_rows_bound(rows: Seq<RowView>, req: ScanView, after: Option<Seq<char>>, n: nat)
    ensures
        rows_left(rows, req, after, n) <= n,
    decreases n,
{
    if n > 0 {
        lemma_rows_bound(rows, req, after, (n - 1) as nat);
    }
}

proof fn lemma_parts_bound(parts: Seq<PartView>, req: ScanView, after: Option<Seq<char>>, p: int)
    ensures
        parts_left(parts, req, after, p) <= read::rows_total(parts, p),
    decreases parts.len() - p,
{
    if 0 <= p < parts.len() {
        lemma_parts_bound(parts, req, after, p + 1);
        lemma_rows_bound(parts[p].rows, req, after, parts[p].rows.len());
    }
}

proof fn lemma_overlay_bound(
    overlay: Seq<(Seq<char>, bool)>,
    req: ScanView,
    after: Option<Seq<char>>,
    n: nat,
)
    ensures
        overlay_left(overlay, req, after, n) <= n,
    decreases n,
{
    if n > 0 {
        lemma_overlay_bound(overlay, req, after, (n - 1) as nat);
    }
}

/// Under a ceiling that leaves room for the work, a scan that has not met its limit goes on to the
/// end of its range.
proof fn lemma_resolve_ends(
    parts: Seq<PartView>,
    overlay: Seq<(Seq<char>, bool)>,
    req: ScanView,
    b: BatchView,
    steps: nat,
)
    requires
        scan::overlay_ok(overlay, req),
        !b.has_more,
        b.rows.len() <= req.limit,
        work_left(parts, overlay, req, b.resolved_through) <= steps,
        scan::used(b) + work_left(parts, overlay, req, b.resolved_through) <= req.max_entries,
    ensures
        ({
            let r = scan::resolve(parts, overlay, req, b, steps);
            &&& r.rows.len() <= req.limit
            &&& r.rows.len() < req.limit ==> !r.has_more
        }),
    decreases steps,
{
    match scan::next_id(parts, overlay, req, b.resolved_through) {
        None => {},
        Some(id) => {
            assert(scan::is_next(parts, overlay, req, b.resolved_through, id));
            lemma_work_left(parts, overlay, req, b.resolved_through, id);
            if b.rows.len() < req.limit {
                let more = scan::absorbed(parts, overlay, b, id);
                assert(scan::used(more) == scan::used(b) + scan::group_entries(parts, overlay, id));
                match scan::next_id(parts, overlay, req, more.resolved_through) {
                    None => {},
                    Some(other) => {
                        assert(scan::is_next(parts, overlay, req, more.resolved_through, other));
                        lemma_work_left(parts, overlay, req, more.resolved_through, other);
                    },
                }
                lemma_resolve_ends(parts, overlay, req, more, (steps - 1) as nat);
            }
        },
    }
}

// ---------------------------------------------------------------------------------------------
// Lists.
// ---------------------------------------------------------------------------------------------
/// The ids of a list that lie in a range.
pub open spec fn restricted(
    l: Seq<Seq<char>>,
    from: Option<Seq<char>>,
    to: Option<Seq<char>>,
) -> Seq<Seq<char>>
    decreases l.len(),
{
    if l.len() == 0 {
        Seq::empty()
    } else {
        let before = restricted(l.drop_last(), from, to);
        if part::in_range(l.last(), from, to) {
            before.push(l.last())
        } else {
            before
        }
    }
}

/// A list in the direction of a scan.
pub open spec fn directed(l: Seq<Seq<char>>, reverse: bool) -> Seq<Seq<char>> {
    if reverse {
        l.reverse()
    } else {
        l
    }
}

/// The first `n` elements of a list, or all of it.
pub open spec fn first(l: Seq<Seq<char>>, n: nat) -> Seq<Seq<char>> {
    if n < l.len() {
        l.take(n as int)
    } else {
        l
    }
}

/// A list in the order of a scan, each element once.
spec fn ordered(reverse: bool, l: Seq<Seq<char>>) -> bool {
    forall|i: int, j: int|
        0 <= i < j < l.len() ==> scan::precedes(reverse, #[trigger] l[i], #[trigger] l[j])
}

proof fn lemma_restricted(l: Seq<Seq<char>>, from: Option<Seq<char>>, to: Option<Seq<char>>)
    requires
        scan::ascending(l),
    ensures
        scan::ascending(restricted(l, from, to)),
        forall|x: Seq<char>| #[trigger]
            restricted(l, from, to).contains(x) <==> l.contains(x) && part::in_range(x, from, to),
    decreases l.len(),
{
    if l.len() > 0 {
        let short = l.drop_last();
        let before = restricted(short, from, to);
        let all = restricted(l, from, to);
        assert forall|i: int, j: int| 0 <= i < j < short.len() implies bytes::name_lt(
            #[trigger] short[i],
            #[trigger] short[j],
        ) by {
            assert(short[i] == l[i] && short[j] == l[j]);
        }
        lemma_restricted(short, from, to);
        assert forall|x: Seq<char>| #[trigger] all.contains(x) <==> l.contains(x) && part::in_range(
            x,
            from,
            to,
        ) by {
            if all.contains(x) {
                let i = choose|i: int| 0 <= i < all.len() && all[i] == x;
                if i < before.len() {
                    assert(before[i] == x);
                    assert(before.contains(x));
                    let k = choose|k: int| 0 <= k < short.len() && short[k] == x;
                    assert(l[k] == x);
                } else {
                    assert(l[l.len() - 1] == x);
                }
            }
            if l.contains(x) && part::in_range(x, from, to) {
                let k = choose|k: int| 0 <= k < l.len() && l[k] == x;
                if k < short.len() {
                    assert(short[k] == x);
                    assert(before.contains(x));
                    let i = choose|i: int| 0 <= i < before.len() && before[i] == x;
                    assert(all[i] == x);
                } else {
                    assert(all[all.len() - 1] == x);
                }
            }
        }
        assert forall|i: int, j: int| 0 <= i < j < all.len() implies bytes::name_lt(
            #[trigger] all[i],
            #[trigger] all[j],
        ) by {
            assert(all[i] == before[i]);
            assert(before.contains(all[i]));
            if j < before.len() {
                assert(all[j] == before[j]);
            } else {
                let k = choose|k: int| 0 <= k < short.len() && short[k] == all[i];
                assert(bytes::name_lt(l[k], l[l.len() - 1]));
            }
        }
    }
}

proof fn lemma_directed(l: Seq<Seq<char>>, reverse: bool)
    requires
        scan::ascending(l),
    ensures
        ordered(reverse, directed(l, reverse)),
        forall|x: Seq<char>| #[trigger] directed(l, reverse).contains(x) <==> l.contains(x),
{
    let d = directed(l, reverse);
    if reverse {
        assert forall|i: int, j: int| 0 <= i < j < d.len() implies scan::precedes(
            true,
            #[trigger] d[i],
            #[trigger] d[j],
        ) by {
            assert(d[i] == l[l.len() - 1 - i] && d[j] == l[l.len() - 1 - j]);
        }
        assert forall|x: Seq<char>| #[trigger] d.contains(x) <==> l.contains(x) by {
            if d.contains(x) {
                let i = choose|i: int| 0 <= i < d.len() && d[i] == x;
                assert(l[l.len() - 1 - i] == x);
            }
            if l.contains(x) {
                let i = choose|i: int| 0 <= i < l.len() && l[i] == x;
                assert(d[l.len() - 1 - i] == x);
            }
        }
    }
}

/// An ordered list that takes from another everything before each of its own elements is a run of
/// it from the start.
proof fn lemma_initial(reverse: bool, x: Seq<Seq<char>>, r: Seq<Seq<char>>, n: nat)
    requires
        ordered(reverse, x),
        ordered(reverse, r),
        n <= x.len(),
        forall|i: int| 0 <= i < x.len() ==> r.contains(#[trigger] x[i]),
        forall|y: Seq<char>, i: int|
            0 <= i < x.len() && #[trigger] r.contains(y) && scan::precedes(
                reverse,
                y,
                #[trigger] x[i],
            ) ==> x.contains(y),
    ensures
        n <= r.len(),
        forall|i: int| 0 <= i < n ==> #[trigger] x[i] == r[i],
    decreases n,
{
    if n > 0 {
        lemma_initial(reverse, x, r, (n - 1) as nat);
        let i = n - 1;
        assert(r.contains(x[i]));
        let p = choose|p: int| 0 <= p < r.len() && r[p] == x[i];
        scan_laws::lemma_precedes(reverse, x[i], x[i], x[i]);
        if p < i {
            assert(x[p] == r[p]);
            assert(scan::precedes(reverse, x[p], x[i]));
        } else if p > i {
            assert(scan::precedes(reverse, r[i], r[p]));
            assert(r.contains(r[i]));
            assert(x.contains(r[i]));
            let q = choose|q: int| 0 <= q < x.len() && x[q] == r[i];
            scan_laws::lemma_precedes(reverse, x[q], x[i], x[q]);
            if q < i {
                assert(x[q] == r[q]);
                assert(scan::precedes(reverse, r[q], r[i]));
                scan_laws::lemma_precedes(reverse, r[q], r[q], r[q]);
            } else if q > i {
                assert(scan::precedes(reverse, x[i], x[q]));
            }
        }
    }
}

// ---------------------------------------------------------------------------------------------
// The laws.
// ---------------------------------------------------------------------------------------------
/// A scan whose ceiling leaves room for every row lists the first ids, up to its limit, of the live
/// ids of its range, in its direction.
pub proof fn lemma_scan_lists(
    parts: Seq<PartView>,
    overlay: Seq<(Seq<char>, bool)>,
    req: ScanView,
    live: Seq<Seq<char>>,
)
    requires
        part::parts_sound(parts),
        scan::overlay_ok(overlay, req),
        read::rows_total(parts, 0) + overlay.len() <= req.max_entries,
        scan::ascending(live),
        forall|id: Seq<char>|
            part::in_range(id, req.from, req.to) ==> (#[trigger] live.contains(id)
                <==> scan_laws::live(parts, overlay, id)),
    ensures
        scan::ids_of(scan::scanned(parts, overlay, req).rows) == first(
            directed(restricted(live, req.from, req.to), req.reverse),
            req.limit,
        ),
{
    let rev = req.reverse;
    let batch = scan::scanned(parts, overlay, req);
    let x = scan::ids_of(batch.rows);
    let kept = restricted(live, req.from, req.to);
    let r = directed(kept, rev);
    lemma_restricted(live, req.from, req.to);
    lemma_directed(kept, rev);
    if req.limit == 0 {
        assert(x =~= first(r, 0));
    } else {
        scan_laws::lemma_scan_faithful(parts, overlay, req);
        lemma_parts_bound(parts, req, None, 0);
        lemma_overlay_bound(overlay, req, None, overlay.len());
        lemma_resolve_ends(
            parts,
            overlay,
            req,
            scan::empty_batch(),
            read::rows_total(parts, 0) + overlay.len(),
        );
        assert forall|id: Seq<char>| #[trigger] r.contains(id) <==> scan::met(
            parts,
            overlay,
            req,
            id,
        ) && scan_laws::live(parts, overlay, id) by {
            lemma_met(parts, overlay, req, id);
            assert(r.contains(id) <==> kept.contains(id));
            assert(kept.contains(id) <==> live.contains(id) && part::in_range(
                id,
                req.from,
                req.to,
            ));
        }
        assert(ordered(rev, x)) by {
            assert forall|i: int, j: int| 0 <= i < j < x.len() implies scan::precedes(
                rev,
                #[trigger] x[i],
                #[trigger] x[j],
            ) by {
                assert(x[i] == batch.rows[i].id && x[j] == batch.rows[j].id);
            }
        }
        assert forall|i: int| 0 <= i < x.len() implies r.contains(#[trigger] x[i]) by {
            assert(x[i] == batch.rows[i].id);
        }
        assert forall|y: Seq<char>, i: int|
            0 <= i < x.len() && #[trigger] r.contains(y) && scan::precedes(
                rev,
                y,
                #[trigger] x[i],
            ) implies x.contains(y) by {
            assert(x[i] == batch.rows[i].id);
            let through = batch.resolved_through->0;
            scan_laws::lemma_precedes(rev, through, y, x[i]);
            scan_laws::lemma_precedes(rev, through, x[i], y);
            assert(!scan::beyond(rev, batch.resolved_through, y));
            let k = choose|k: int| 0 <= k < batch.rows.len() && (#[trigger] batch.rows[k]).id == y;
            assert(x[k] == y);
        }
        lemma_initial(rev, x, r, x.len());
        assert(x =~= r.take(x.len() as int));
        if x.len() < req.limit && x.len() < r.len() {
            let y = r[x.len() as int];
            assert(r.contains(y));
            scan_laws::lemma_scan_complete(parts, overlay, req, y);
            let k = choose|k: int| 0 <= k < batch.rows.len() && (#[trigger] batch.rows[k]).id == y;
            assert(x[k] == y);
            assert(scan::precedes(rev, r[k], r[x.len() as int]));
            scan_laws::lemma_precedes(rev, y, y, y);
        }
        assert(x =~= first(r, req.limit));
    }
}

/// What a scan meets lies in its range, and it meets every live id of its range.
proof fn lemma_met(
    parts: Seq<PartView>,
    overlay: Seq<(Seq<char>, bool)>,
    req: ScanView,
    id: Seq<char>,
)
    requires
        scan::overlay_ok(overlay, req),
    ensures
        scan::met(parts, overlay, req, id) ==> part::in_range(id, req.from, req.to),
        part::in_range(id, req.from, req.to) && scan_laws::live(parts, overlay, id) ==> scan::met(
            parts,
            overlay,
            req,
            id,
        ),
{
    if scan::in_overlay(overlay, id) {
        let k = choose|k: int| 0 <= k < overlay.len() && (#[trigger] overlay[k]).0 == id;
        assert(part::in_range(overlay[k].0, req.from, req.to));
    } else if read::current(parts, id) is Some {
        read::lemma_newest(parts, id);
        let (p, row) = read::newest(parts, id)->0;
        assert(part::row_of(parts[p as int].rows, id) is Some);
        assert(scan::in_parts(parts, id));
    }
}

/// Ids scanned from a reader are the first ones, up to the limit, of its live ids in the range, in
/// the direction asked for.
pub proof fn lemma_read_scan_lists(
    parts: Seq<PartView>,
    from: Option<Seq<char>>,
    to: Option<Seq<char>>,
    limit: usize,
    reverse: bool,
    ids: Seq<Seq<char>>,
)
    requires
        part::parts_sound(parts),
        read::rows_total(parts, 0) <= usize::MAX,
        scan::ascending(ids),
        forall|id: Seq<char>| #[trigger]
            ids.contains(id) <==> read::current(parts, id) is Some,
    ensures
        scan::ids_of(
            scan::scanned(
                parts,
                Seq::empty(),
                scan::plain_scan(from, to, limit, reverse),
            ).rows,
        ) == first(directed(restricted(ids, from, to), reverse), limit as nat),
{
    let none = Seq::<(Seq<char>, bool)>::empty();
    lemma_scan_lists(parts, none, scan::plain_scan(from, to, limit, reverse), ids);
}

/// Ids scanned from a writer are the first ones, up to the limit, of the ids it shows in the range,
/// in the direction asked for.
pub proof fn lemma_store_scan_lists(
    s: StoreView,
    from: Option<Seq<char>>,
    to: Option<Seq<char>>,
    limit: usize,
    reverse: bool,
    ids: Seq<Seq<char>>,
)
    requires
        engine::store_ok(s),
        read::rows_total(s.parts, 0) + s.mem.len() <= usize::MAX,
        scan::ascending(ids),
        forall|id: Seq<char>| #[trigger]
            ids.contains(id) <==> engine_read::visible(s, id) is Some,
    ensures
        ({
            let req = scan::plain_scan(from, to, limit, reverse);
            scan::ids_of(
                scan::scanned(s.parts, engine_read::overlay_of(s.mem, req), req).rows,
            ) == first(directed(restricted(ids, from, to), reverse), limit as nat)
        }),
{
    let req = scan::plain_scan(from, to, limit, reverse);
    let overlay = engine_read::overlay_of(s.mem, req);
    engine_read::lemma_overlay(s.mem, req);
    assert forall|id: Seq<char>| part::in_range(id, req.from, req.to) implies (
    #[trigger] ids.contains(id) <==> scan_laws::live(s.parts, overlay, id)) by {
        engine_read::lemma_scan_sees_visible(s, req, id);
    }
    lemma_scan_lists(s.parts, overlay, req, ids);
}

/// Everything is listed: without bounds, and with a limit above the number of ids, a list of ids is
/// its own scan.
pub proof fn lemma_unbounded(ids: Seq<Seq<char>>, limit: nat)
    requires
        limit > ids.len(),
    ensures
        first(directed(restricted(ids, None, None), false), limit) == ids,
{
    lemma_unrestricted(ids);
}

proof fn lemma_unrestricted(l: Seq<Seq<char>>)
    ensures
        restricted(l, None, None) == l,
    decreases l.len(),
{
    if l.len() > 0 {
        lemma_unrestricted(l.drop_last());
        assert(l.drop_last().push(l.last()) =~= l);
    } else {
        assert(l =~= Seq::empty());
    }
}

/// There is one list of a set of ids in order.
pub proof fn lemma_one_list(a: Seq<Seq<char>>, b: Seq<Seq<char>>)
    requires
        scan::ascending(a),
        scan::ascending(b),
        forall|id: Seq<char>| #[trigger] a.contains(id) <==> b.contains(id),
    ensures
        a == b,
{
    assert forall|i: int| 0 <= i < a.len() implies b.contains(#[trigger] a[i]) by {
        assert(a.contains(a[i]));
    }
    assert forall|i: int| 0 <= i < b.len() implies a.contains(#[trigger] b[i]) by {
        assert(b.contains(b[i]));
    }
    lemma_initial(false, a, b, a.len());
    lemma_initial(false, b, a, b.len());
    assert(a =~= b);
}

/// Where every record shows as before, the store lists the same ids.
pub proof fn lemma_same_ids(
    s: StoreView,
    t: StoreView,
    before: Seq<Seq<char>>,
    after: Seq<Seq<char>>,
)
    requires
        forall|id: Seq<char>| #[trigger]
            engine_read::visible(t, id) == engine_read::visible(s, id),
        scan::ascending(before),
        forall|id: Seq<char>| #[trigger]
            before.contains(id) <==> engine_read::visible(s, id) is Some,
        scan::ascending(after),
        forall|id: Seq<char>| #[trigger]
            after.contains(id) <==> engine_read::visible(t, id) is Some,
    ensures
        after == before,
{
    assert forall|id: Seq<char>| #[trigger] after.contains(id) <==> before.contains(id) by {
        assert(engine_read::visible(t, id) == engine_read::visible(s, id));
        assert(before.contains(id) <==> engine_read::visible(s, id) is Some);
    }
    lemma_one_list(after, before);
}

} // verus!
