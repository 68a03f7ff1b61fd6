//! Laws of one page of a scan: how much it may hold, when there is more, and what it says of the rows
//! it looked at.

use crate::part;
use crate::part::PartView;
use crate::store::read;
use crate::store::scan;
use crate::store::scan::{BatchView, RowOrigin, ScanView};
use crate::store::scan_laws;
use crate::store::sum_laws;
use vstd::prelude::*;

verus! {

/// Whether a row of a part lies in the range of a scan and not beyond where it came to.
pub open spec fn looked_at(
    p: PartView,
    req: ScanView,
    through: Option<Seq<char>>,
    i: int,
) -> bool {
    part::in_range(p.rows[i].id, req.from, req.to) && !scan::beyond(
        req.reverse,
        through,
        p.rows[i].id,
    )
}

/// How many rows of the parts lie in the range of a scan and not beyond where it came to.
pub open spec fn rows_seen(
    parts: Seq<PartView>,
    req: ScanView,
    through: Option<Seq<char>>,
) -> nat {
    sum_laws::sum(
        parts.len(),
        |p: int|
            sum_laws::count(
                parts[p].rows.len(),
                |i: int| looked_at(parts[p], req, through, i),
            ),
    )
}

/// How many staged entries lie not beyond where a scan came to.
pub open spec fn entries_seen(
    overlay: Seq<(Seq<char>, bool)>,
    req: ScanView,
    through: Option<Seq<char>>,
) -> nat {
    sum_laws::count(
        overlay.len(),
        |i: int| !scan::beyond(req.reverse, through, overlay[i].0),
    )
}

/// How many rows of a page are committed.
pub open spec fn committed_rows(b: BatchView) -> nat {
    sum_laws::count(b.rows.len(), |i: int| b.rows[i].origin is Part)
}

proof fn lemma_holders(parts: Seq<PartView>, id: Seq<char>)
    ensures
        scan::holders(parts, id) == sum_laws::count(
            parts.len(),
            |p: int| part::row_of(parts[p].rows, id) is Some,
        ),
    decreases parts.len(),
{
    let n = parts.len();
    let meets = |p: int| part::row_of(parts[p].rows, id) is Some;
    if n > 0 {
        let front = parts.drop_last();
        lemma_holders(front, id);
        sum_laws::lemma_count((n - 1) as nat, meets);
        sum_laws::lemma_count_same(
            (n - 1) as nat,
            |p: int| part::row_of(front[p].rows, id) is Some,
            meets,
        );
    } else {
        sum_laws::lemma_count(0, meets);
    }
}

proof fn lemma_count_some(n: nat, meets: spec_fn(int) -> bool, k: int)
    requires
        0 <= k < n,
        meets(k),
    ensures
        sum_laws::count(n, meets) >= 1,
    decreases n,
{
    sum_laws::lemma_count((n - 1) as nat, meets);
    if k < n - 1 {
        lemma_count_some((n - 1) as nat, meets, k);
    }
}

/// A count of places, where one more place came to meet the condition.
proof fn lemma_count_one_more(
    n: nat,
    a: spec_fn(int) -> bool,
    b: spec_fn(int) -> bool,
    k: int,
)
    requires
        0 <= k < n ==> !a(k) && b(k),
        forall|i: int| 0 <= i < n && i != k ==> #[trigger] a(i) == b(i),
    ensures
        sum_laws::count(n, b) == sum_laws::count(n, a) + if 0 <= k < n {
            1nat
        } else {
            0
        },
    decreases n,
{
    if n > 0 {
        let m = (n - 1) as nat;
        sum_laws::lemma_count(m, a);
        sum_laws::lemma_count(m, b);
        if n - 1 != k {
            assert(a(n - 1) == b(n - 1));
        }
        lemma_count_one_more(m, a, b, k);
    } else {
        sum_laws::lemma_count(0, a);
        sum_laws::lemma_count(0, b);
    }
}

/// Where a scan comes to when it resolves the next id: that id, and all it had come to before.
proof fn lemma_next(
    parts: Seq<PartView>,
    overlay: Seq<(Seq<char>, bool)>,
    req: ScanView,
    after: Option<Seq<char>>,
    id: Seq<char>,
    x: Seq<char>,
)
    requires
        scan::is_next(parts, overlay, req, after, id),
        scan::met(parts, overlay, req, x),
    ensures
        !scan::beyond(req.reverse, Some(id), x) <==> !scan::beyond(req.reverse, after, x) || x == id,
        scan::beyond(req.reverse, after, id),
{
    scan_laws::lemma_precedes(req.reverse, id, x, id);
    scan_laws::lemma_precedes(req.reverse, id, id, id);
    if after is Some {
        scan_laws::lemma_precedes(req.reverse, after->0, id, x);
        scan_laws::lemma_precedes(req.reverse, after->0, id, id);
    }
}

proof fn lemma_part_seen(
    parts: Seq<PartView>,
    overlay: Seq<(Seq<char>, bool)>,
    req: ScanView,
    after: Option<Seq<char>>,
    id: Seq<char>,
    p: int,
)
    requires
        part::parts_sound(parts),
        scan::is_next(parts, overlay, req, after, id),
        part::in_range(id, req.from, req.to),
        0 <= p < parts.len(),
    ensures
        ({
            let rows = parts[p].rows;
            sum_laws::count(rows.len(), |i: int| looked_at(parts[p], req, Some(id), i))
                == sum_laws::count(rows.len(), |i: int| looked_at(parts[p], req, after, i)) + if part::row_of(
                rows,
                id,
            ) is Some {
                1nat
            } else {
                0
            }
        }),
{
    let rows = parts[p].rows;
    let a = |i: int| looked_at(parts[p], req, after, i);
    let b = |i: int| looked_at(parts[p], req, Some(id), i);
    assert(part::part_sound(parts[p]));
    let k = match part::row_of(rows, id) {
        Some(k) => k as int,
        None => -1,
    };
    assert forall|i: int| 0 <= i < rows.len() && i != k implies #[trigger] a(i) == b(i) by {
        let x = rows[i].id;
        assert(x != id) by {
            if x == id {
                part::lemma_row_of(rows, id, i);
            }
        }
        if part::in_range(x, req.from, req.to) {
            assert(part::row_of(rows, x) is Some);
            assert(scan::in_parts(parts, x));
            lemma_next(parts, overlay, req, after, id, x);
        }
    }
    if k >= 0 {
        assert(rows[k].id == id);
        lemma_next(parts, overlay, req, after, id, id);
    }
    lemma_count_one_more(rows.len(), a, b, k);
}

proof fn lemma_sum_more(
    n: nat,
    a: spec_fn(int) -> nat,
    b: spec_fn(int) -> nat,
    meets: spec_fn(int) -> bool,
)
    requires
        forall|p: int|
            0 <= p < n ==> #[trigger] b(p) == a(p) + if meets(p) {
                1nat
            } else {
                0
            },
    ensures
        sum_laws::sum(n, b) == sum_laws::sum(n, a) + sum_laws::count(n, meets),
    decreases n,
{
    if n > 0 {
        let m = (n - 1) as nat;
        sum_laws::lemma_sum(m, a);
        sum_laws::lemma_sum(m, b);
        sum_laws::lemma_count(m, meets);
        lemma_sum_more(m, a, b, meets);
        assert(b(n - 1) == a(n - 1) + if meets(n - 1) {
            1nat
        } else {
            0
        });
    } else {
        sum_laws::lemma_sum(0, a);
        sum_laws::lemma_sum(0, b);
        sum_laws::lemma_count(0, meets);
    }
}

proof fn lemma_rows_seen(
    parts: Seq<PartView>,
    overlay: Seq<(Seq<char>, bool)>,
    req: ScanView,
    after: Option<Seq<char>>,
    id: Seq<char>,
)
    requires
        part::parts_sound(parts),
        scan::is_next(parts, overlay, req, after, id),
        part::in_range(id, req.from, req.to),
    ensures
        rows_seen(parts, req, Some(id)) == rows_seen(parts, req, after) + scan::holders(parts, id),
{
    let a = |p: int|
        sum_laws::count(parts[p].rows.len(), |i: int| looked_at(parts[p], req, after, i));
    let b = |p: int|
        sum_laws::count(parts[p].rows.len(), |i: int| looked_at(parts[p], req, Some(id), i));
    let meets = |p: int| part::row_of(parts[p].rows, id) is Some;
    assert forall|p: int| 0 <= p < parts.len() implies #[trigger] b(p) == a(p) + if meets(p) {
        1nat
    } else {
        0
    } by {
        lemma_part_seen(parts, overlay, req, after, id, p);
    }
    lemma_sum_more(parts.len(), a, b, meets);
    lemma_holders(parts, id);
}

proof fn lemma_entries_seen(
    parts: Seq<PartView>,
    overlay: Seq<(Seq<char>, bool)>,
    req: ScanView,
    after: Option<Seq<char>>,
    id: Seq<char>,
)
    requires
        scan::overlay_ok(overlay, req),
        scan::is_next(parts, overlay, req, after, id),
    ensures
        entries_seen(overlay, req, Some(id)) == entries_seen(overlay, req, after)
            + if scan::in_overlay(overlay, id) {
            1nat
        } else {
            0
        },
{
    let a = |i: int| !scan::beyond(req.reverse, after, overlay[i].0);
    let b = |i: int| !scan::beyond(req.reverse, Some(id), overlay[i].0);
    let k = if scan::in_overlay(overlay, id) {
        choose|k: int| 0 <= k < overlay.len() && (#[trigger] overlay[k]).0 == id
    } else {
        -1
    };
    assert forall|i: int| 0 <= i < overlay.len() && i != k implies #[trigger] a(i) == b(i) by {
        let x = overlay[i].0;
        assert(scan::in_overlay(overlay, x));
        lemma_next(parts, overlay, req, after, id, x);
        if x == id {
            scan_laws::lemma_precedes(req.reverse, id, id, id);
            if i < k {
                assert(scan::precedes(req.reverse, overlay[i].0, overlay[k].0));
            } else {
                assert(scan::precedes(req.reverse, overlay[k].0, overlay[i].0));
            }
        }
    }
    if k >= 0 {
        assert(overlay[k].0 == id);
        lemma_next(parts, overlay, req, after, id, id);
    }
    lemma_count_one_more(overlay.len(), a, b, k);
}

/// What holds of a page while it grows.
spec fn adds_up(
    parts: Seq<PartView>,
    overlay: Seq<(Seq<char>, bool)>,
    req: ScanView,
    b: BatchView,
) -> bool {
    &&& b.physical_rows == rows_seen(parts, req, b.resolved_through)
    &&& b.memtable_entries == entries_seen(overlay, req, b.resolved_through)
    &&& b.physical_rows == b.superseded_rows + b.tombstones + committed_rows(b)
    &&& b.rows.len() <= req.limit
}

proof fn lemma_push_row(b: BatchView, r: scan::RowRefView)
    ensures
        ({
            let more = BatchView { rows: b.rows.push(r), ..b };
            committed_rows(more) == committed_rows(b) + if r.origin is Part {
                1nat
            } else {
                0
            }
        }),
{
    let more = b.rows.push(r);
    let n = b.rows.len();
    sum_laws::lemma_count(n, |i: int| more[i].origin is Part);
    sum_laws::lemma_count_same(
        n,
        |i: int| more[i].origin is Part,
        |i: int| b.rows[i].origin is Part,
    );
}

proof fn lemma_absorbed(
    parts: Seq<PartView>,
    overlay: Seq<(Seq<char>, bool)>,
    req: ScanView,
    b: BatchView,
    id: Seq<char>,
)
    requires
        part::parts_sound(parts),
        scan::overlay_ok(overlay, req),
        adds_up(parts, overlay, req, b),
        b.rows.len() < req.limit,
        scan::is_next(parts, overlay, req, b.resolved_through, id),
    ensures
        adds_up(parts, overlay, req, scan::absorbed(parts, overlay, b, id)),
        scan::used(scan::absorbed(parts, overlay, b, id)) == scan::used(b) + scan::group_entries(
            parts,
            overlay,
            id,
        ),
{
    let more = scan::absorbed(parts, overlay, b, id);
    if scan::in_overlay(overlay, id) {
        let k = choose|k: int| 0 <= k < overlay.len() && (#[trigger] overlay[k]).0 == id;
        assert(part::in_range(overlay[k].0, req.from, req.to));
    }
    lemma_rows_seen(parts, overlay, req, b.resolved_through, id);
    lemma_entries_seen(parts, overlay, req, b.resolved_through, id);
    lemma_holders(parts, id);
    read::lemma_newest(parts, id);
    if scan::in_overlay(overlay, id) {
        lemma_push_row(b, scan::RowRefView { id, origin: RowOrigin::Memtable });
    } else {
        let q = choose|q: int|
            0 <= q < parts.len() && part::row_of((#[trigger] parts[q]).rows, id) is Some;
        let meets = |p: int| part::row_of(parts[p].rows, id) is Some;
        lemma_count_some(parts.len(), meets, q);
        let (p, row) = read::newest(parts, id)->0;
        lemma_push_row(
            b,
            scan::RowRefView {
                id,
                origin: RowOrigin::Part { part: p as usize, row: row as usize },
            },
        );
    }
    assert(committed_rows(more) == committed_rows(BatchView { rows: more.rows, ..b }));
}

/// Whether a page stands where its ceiling stops it: it has looked at as much as it may, or the next
/// group is more than is left.
pub open spec fn stopped(
    parts: Seq<PartView>,
    overlay: Seq<(Seq<char>, bool)>,
    req: ScanView,
    r: BatchView,
) -> bool {
    ||| r.physical_rows + r.memtable_entries >= req.max_entries
    ||| exists|id: Seq<char>| #[trigger]
        scan::is_next(parts, overlay, req, r.resolved_through, id) && r.physical_rows
            + r.memtable_entries + scan::group_entries(parts, overlay, id) > req.max_entries
}

proof fn lemma_resolved(
    parts: Seq<PartView>,
    overlay: Seq<(Seq<char>, bool)>,
    req: ScanView,
    b: BatchView,
    steps: nat,
)
    requires
        part::parts_sound(parts),
        scan::overlay_ok(overlay, req),
        adds_up(parts, overlay, req, b),
        !b.has_more,
        !b.budget_exhausted,
        scan::used(b) > 0 ==> scan::used(b) < req.max_entries || scan::next_id(
            parts,
            overlay,
            req,
            b.resolved_through,
        ) is None,
    ensures
        ({
            let r = scan::resolve(parts, overlay, req, b, steps);
            &&& adds_up(parts, overlay, req, r)
            &&& r.has_more <==> scan::next_id(parts, overlay, req, r.resolved_through) is Some
            &&& r.budget_exhausted ==> r.has_more
            &&& r.has_more && !r.budget_exhausted && r.rows.len() < req.limit ==> scan::used(r)
                >= scan::used(b) + steps
            &&& scan::used(b) > 0 && scan::used(b) <= req.max_entries ==> scan::used(r)
                <= req.max_entries
            &&& r.budget_exhausted ==> stopped(parts, overlay, req, r)
        }),
    decreases steps,
{
    match scan::next_id(parts, overlay, req, b.resolved_through) {
        None => {
            assert(committed_rows(scan::finished(parts, overlay, req, b)) == committed_rows(b));
        },
        Some(id) => {
            assert(scan::is_next(parts, overlay, req, b.resolved_through, id));
            if b.rows.len() >= req.limit || steps == 0 {
                assert(committed_rows(scan::finished(parts, overlay, req, b)) == committed_rows(
                    b,
                ));
            } else if scan::oversized(parts, overlay, req, b, id) {
                assert(committed_rows(scan::exhausted(b)) == committed_rows(b));
            } else {
                let more = scan::absorbed(parts, overlay, b, id);
                lemma_absorbed(parts, overlay, req, b, id);
                lemma_group(parts, overlay, req, b.resolved_through, id);
                if scan::next_id(parts, overlay, req, more.resolved_through) is Some && scan::used(
                    more,
                ) >= req.max_entries {
                    assert(committed_rows(scan::exhausted(more)) == committed_rows(more));
                } else {
                    lemma_resolved(parts, overlay, req, more, (steps - 1) as nat);
                }
            }
        },
    }
}

proof fn lemma_group(
    parts: Seq<PartView>,
    overlay: Seq<(Seq<char>, bool)>,
    req: ScanView,
    after: Option<Seq<char>>,
    id: Seq<char>,
)
    requires
        scan::is_next(parts, overlay, req, after, id),
    ensures
        scan::group_entries(parts, overlay, id) >= 1,
{
    lemma_holders(parts, id);
    if !scan::in_overlay(overlay, id) {
        let q = choose|q: int|
            0 <= q < parts.len() && part::row_of((#[trigger] parts[q]).rows, id) is Some;
        lemma_count_some(parts.len(), |p: int| part::row_of(parts[p].rows, id) is Some, q);
    }
}

/// A page holds no more rows than its limit. There is more exactly where the scan has still to meet
/// an id beyond where the page came to. What it looked at are the rows and the staged entries of the
/// range up to there; each row it looked at is superseded, a tombstone, or on the page. It stops short
/// only where it is full, or where its ceiling stops it.
pub proof fn lemma_page(
    parts: Seq<PartView>,
    overlay: Seq<(Seq<char>, bool)>,
    req: ScanView,
)
    requires
        part::parts_sound(parts),
        scan::overlay_ok(overlay, req),
        req.limit > 0,
    ensures
        ({
            let r = scan::scanned(parts, overlay, req);
            &&& r.rows.len() <= req.limit
            &&& r.physical_rows == rows_seen(parts, req, r.resolved_through)
            &&& r.memtable_entries == entries_seen(overlay, req, r.resolved_through)
            &&& r.physical_rows == r.superseded_rows + r.tombstones + committed_rows(r)
            &&& r.has_more <==> exists|id: Seq<char>|
                scan::is_next(parts, overlay, req, r.resolved_through, id)
            &&& r.budget_exhausted ==> r.has_more && stopped(parts, overlay, req, r)
            &&& r.has_more && !r.budget_exhausted ==> r.rows.len() == req.limit
        }),
{
    let start = scan::empty_batch();
    let steps = read::rows_total(parts, 0) + overlay.len();
    lemma_nothing_seen(parts, overlay, req);
    sum_laws::lemma_count(0, |i: int| start.rows[i].origin is Part);
    lemma_resolved(parts, overlay, req, start, steps);
    let r = scan::scanned(parts, overlay, req);
    if r.has_more {
        let id = scan::next_id(parts, overlay, req, r.resolved_through)->0;
        assert(scan::is_next(parts, overlay, req, r.resolved_through, id));
        if scan::in_overlay(overlay, id) {
            let k = choose|k: int| 0 <= k < overlay.len() && (#[trigger] overlay[k]).0 == id;
            assert(part::in_range(overlay[k].0, req.from, req.to));
        }
        lemma_rows_seen(parts, overlay, req, r.resolved_through, id);
        lemma_entries_seen(parts, overlay, req, r.resolved_through, id);
        lemma_group(parts, overlay, req, r.resolved_through, id);
        lemma_seen_bound(parts, overlay, req, Some(id));
    }
}

proof fn lemma_seen_bound(
    parts: Seq<PartView>,
    overlay: Seq<(Seq<char>, bool)>,
    req: ScanView,
    through: Option<Seq<char>>,
)
    ensures
        rows_seen(parts, req, through) <= read::rows_total(parts, 0),
        entries_seen(overlay, req, through) <= overlay.len(),
{
    let each = |p: int|
        sum_laws::count(parts[p].rows.len(), |i: int| looked_at(parts[p], req, through, i));
    assert forall|p: int| 0 <= p < parts.len() implies #[trigger] each(p)
        <= parts[p].rows.len() by {
        sum_laws::lemma_count(
            parts[p].rows.len(),
            |i: int| looked_at(parts[p], req, through, i),
        );
    }
    lemma_rows_bound(parts, each, parts.len());
    assert(read::rows_total(parts, parts.len() as int) == 0);
    sum_laws::lemma_count(
        overlay.len(),
        |i: int| !scan::beyond(req.reverse, through, overlay[i].0),
    );
}

proof fn lemma_rows_bound(parts: Seq<PartView>, each: spec_fn(int) -> nat, n: nat)
    requires
        n <= parts.len(),
        forall|p: int| 0 <= p < parts.len() ==> #[trigger] each(p) <= parts[p].rows.len(),
    ensures
        sum_laws::sum(n, each) + read::rows_total(parts, n as int) <= read::rows_total(parts, 0),
    decreases n,
{
    if n > 0 {
        let m = (n - 1) as nat;
        lemma_rows_bound(parts, each, m);
        sum_laws::lemma_sum(m, each);
        assert(each(n - 1) <= parts[n - 1].rows.len());
    } else {
        sum_laws::lemma_sum(0, each);
    }
}

/// A page without rows to hold looks at nothing.
pub proof fn lemma_no_page(
    parts: Seq<PartView>,
    overlay: Seq<(Seq<char>, bool)>,
    req: ScanView,
)
    requires
        req.limit == 0,
    ensures
        ({
            let r = scan::scanned(parts, overlay, req);
            &&& r.rows.len() == 0
            &&& r.physical_rows == 0
            &&& r.memtable_entries == 0
            &&& !r.has_more
            &&& !r.budget_exhausted
            &&& r.resolved_through is None
        }),
{
}

/// A page stays within its ceiling: where the first group may not be let through whole, it looks at
/// no more rows and entries than the ceiling says; and where it may, a page that looks at more holds
/// that group alone, and one that stops short of the range has come to some id, so that the next page
/// goes on from there.
pub proof fn lemma_page_ceiling(
    parts: Seq<PartView>,
    overlay: Seq<(Seq<char>, bool)>,
    req: ScanView,
)
    requires
        part::parts_sound(parts),
        scan::overlay_ok(overlay, req),
        req.limit > 0,
    ensures
        ({
            let r = scan::scanned(parts, overlay, req);
            &&& !req.allow_oversized ==> r.physical_rows + r.memtable_entries <= req.max_entries
            &&& r.physical_rows + r.memtable_entries > req.max_entries ==> exists|id: Seq<char>|
                #[trigger] scan::is_next(parts, overlay, req, None, id) && r.resolved_through
                    == Some(id)
            &&& req.allow_oversized && r.has_more ==> r.resolved_through is Some
        }),
{
    let start = scan::empty_batch();
    let steps = read::rows_total(parts, 0) + overlay.len();
    lemma_nothing_seen(parts, overlay, req);
    sum_laws::lemma_count(0, |i: int| start.rows[i].origin is Part);
    match scan::next_id(parts, overlay, req, start.resolved_through) {
        None => {},
        Some(id) => {
            assert(scan::is_next(parts, overlay, req, start.resolved_through, id));
            lemma_met_counts(parts, overlay, req, id);
            if !scan::oversized(parts, overlay, req, start, id) {
                let more = scan::absorbed(parts, overlay, start, id);
                lemma_absorbed(parts, overlay, req, start, id);
                lemma_group(parts, overlay, req, start.resolved_through, id);
                if !(scan::next_id(parts, overlay, req, more.resolved_through) is Some
                    && scan::used(more) >= req.max_entries) {
                    lemma_resolved(parts, overlay, req, more, (steps - 1) as nat);
                    lemma_comes_further(parts, overlay, req, more, (steps - 1) as nat);
                }
            }
        },
    }
}

proof fn lemma_comes_further(
    parts: Seq<PartView>,
    overlay: Seq<(Seq<char>, bool)>,
    req: ScanView,
    b: BatchView,
    steps: nat,
)
    requires
        b.resolved_through is Some,
    ensures
        scan::resolve(parts, overlay, req, b, steps).resolved_through is Some,
    decreases steps,
{
    if let Some(id) = scan::next_id(parts, overlay, req, b.resolved_through) {
        if b.rows.len() < req.limit && steps > 0 && !scan::oversized(parts, overlay, req, b, id) {
            lemma_comes_further(
                parts,
                overlay,
                req,
                scan::absorbed(parts, overlay, b, id),
                (steps - 1) as nat,
            );
        }
    }
}

proof fn lemma_met_counts(
    parts: Seq<PartView>,
    overlay: Seq<(Seq<char>, bool)>,
    req: ScanView,
    id: Seq<char>,
)
    requires
        scan::met(parts, overlay, req, id),
    ensures
        read::rows_total(parts, 0) + overlay.len() >= 1,
{
    if scan::in_overlay(overlay, id) {
        let k = choose|k: int| 0 <= k < overlay.len() && (#[trigger] overlay[k]).0 == id;
    } else {
        let q = choose|q: int|
            0 <= q < parts.len() && part::row_of((#[trigger] parts[q]).rows, id) is Some;
        lemma_some_row(parts, q, 0);
    }
}

proof fn lemma_some_row(parts: Seq<PartView>, q: int, from: int)
    requires
        0 <= from <= q < parts.len(),
        parts[q].rows.len() > 0,
    ensures
        read::rows_total(parts, from) >= 1,
    decreases q - from,
{
    if from < q {
        lemma_some_row(parts, q, from + 1);
    }
}

proof fn lemma_nothing_seen(
    parts: Seq<PartView>,
    overlay: Seq<(Seq<char>, bool)>,
    req: ScanView,
)
    ensures
        rows_seen(parts, req, None) == 0,
        entries_seen(overlay, req, None) == 0,
{
    let each = |p: int|
        sum_laws::count(parts[p].rows.len(), |i: int| looked_at(parts[p], req, None, i));
    assert forall|p: int| 0 <= p < parts.len() implies #[trigger] each(p) == 0 by {
        lemma_none_met(parts[p].rows.len(), |i: int| looked_at(parts[p], req, None, i));
    }
    lemma_zero_sum(parts.len(), each);
    lemma_none_met(overlay.len(), |i: int| !scan::beyond(req.reverse, None, overlay[i].0));
}

proof fn lemma_none_met(n: nat, meets: spec_fn(int) -> bool)
    requires
        forall|i: int| 0 <= i < n ==> !#[trigger] meets(i),
    ensures
        sum_laws::count(n, meets) == 0,
    decreases n,
{
    if n > 0 {
        sum_laws::lemma_count((n - 1) as nat, meets);
        lemma_none_met((n - 1) as nat, meets);
    } else {
        sum_laws::lemma_count(0, meets);
    }
}

proof fn lemma_zero_sum(n: nat, each: spec_fn(int) -> nat)
    requires
        forall|i: int| 0 <= i < n ==> #[trigger] each(i) == 0,
    ensures
        sum_laws::sum(n, each) == 0,
    decreases n,
{
    if n > 0 {
        sum_laws::lemma_sum((n - 1) as nat, each);
        lemma_zero_sum((n - 1) as nat, each);
        assert(each(n - 1) == 0);
    } else {
        sum_laws::lemma_sum(0, each);
    }
}

} // verus!
