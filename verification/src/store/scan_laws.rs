//! What a scan lists: the live ids of its range, in order, each once, none left out up to the
//! point it resolved.

use crate::bytes;
use crate::part;
use crate::part::{PartView, RowView};
use crate::store::read;
use crate::store::scan;
use crate::store::scan::{BatchView, RowOrigin, RowRefView, ScanView};
use vstd::prelude::*;

verus! {

/// Whether an id is live under an overlay and the parts below it.
pub open spec fn live(parts: Seq<PartView>, overlay: Seq<(Seq<char>, bool)>, id: Seq<char>) -> bool {
    if scan::in_overlay(overlay, id) {
        scan::overlay_live(overlay, id)
    } else {
        read::current(parts, id) is Some
    }
}

/// Where a live id's row is.
pub open spec fn origin_of(
    parts: Seq<PartView>,
    overlay: Seq<(Seq<char>, bool)>,
    id: Seq<char>,
) -> RowOrigin {
    if scan::in_overlay(overlay, id) {
        RowOrigin::Memtable
    } else {
        let (p, row) = read::newest(parts, id)->0;
        RowOrigin::Part { part: p as usize, row: row as usize }
    }
}

/// A batch lists exactly the live ids among those it resolved, in order.
pub open spec fn faithful(
    parts: Seq<PartView>,
    overlay: Seq<(Seq<char>, bool)>,
    req: ScanView,
    b: BatchView,
) -> bool {
    &&& forall|i: int, j: int|
        0 <= i < j < b.rows.len() ==> scan::precedes(
            req.reverse,
            (#[trigger] b.rows[i]).id,
            (#[trigger] b.rows[j]).id,
        )
    &&& forall|i: int|
        0 <= i < b.rows.len() ==> {
            let r = #[trigger] b.rows[i];
            &&& scan::met(parts, overlay, req, r.id)
            &&& live(parts, overlay, r.id)
            &&& r.origin == origin_of(parts, overlay, r.id)
            &&& b.resolved_through is Some
            &&& !scan::precedes(req.reverse, b.resolved_through->0, r.id)
        }
    &&& forall|id: Seq<char>|
        #[trigger] scan::met(parts, overlay, req, id) && live(parts, overlay, id)
            && !scan::beyond(req.reverse, b.resolved_through, id) ==> exists|i: int|
            0 <= i < b.rows.len() && (#[trigger] b.rows[i]).id == id
}

pub proof fn lemma_precedes(reverse: bool, a: Seq<char>, b: Seq<char>, c: Seq<char>)
    ensures
        !scan::precedes(reverse, a, a),
        scan::precedes(reverse, a, b) && scan::precedes(reverse, b, c) ==> scan::precedes(
            reverse,
            a,
            c,
        ),
        scan::precedes(reverse, a, b) ==> !scan::precedes(reverse, b, a),
        a == b || scan::precedes(reverse, a, b) || scan::precedes(reverse, b, a),
{
    bytes::lemma_name_order(a, b, c);
    bytes::lemma_name_order(b, a, c);
    bytes::lemma_name_order(c, b, a);
}

proof fn lemma_absorb_faithful(
    parts: Seq<PartView>,
    overlay: Seq<(Seq<char>, bool)>,
    req: ScanView,
    b: BatchView,
    id: Seq<char>,
)
    requires
        faithful(parts, overlay, req, b),
        scan::is_next(parts, overlay, req, b.resolved_through, id),
    ensures
        faithful(parts, overlay, req, scan::absorbed(parts, overlay, b, id)),
{
    let rev = req.reverse;
    let after = b.resolved_through;
    let m = scan::absorbed(parts, overlay, b, id);
    read::lemma_newest(parts, id);
    if !scan::in_overlay(overlay, id) {
        assert(scan::in_parts(parts, id));
        let p = choose|p: int|
            0 <= p < parts.len() && part::row_of((#[trigger] parts[p]).rows, id) is Some;
        assert(part::row_of(parts[p].rows, id) is Some);
    }
    assert(m.resolved_through == Some(id));
    let grown = live(parts, overlay, id);
    assert(grown ==> m.rows == b.rows.push(
        RowRefView { id, origin: origin_of(parts, overlay, id) },
    ));
    assert(!grown ==> m.rows == b.rows);
    assert forall|i: int| 0 <= i < b.rows.len() implies scan::precedes(
        rev,
        (#[trigger] b.rows[i]).id,
        id,
    ) by {
        lemma_precedes(rev, after->0, b.rows[i].id, id);
        lemma_precedes(rev, b.rows[i].id, after->0, id);
    }
    assert forall|i: int| 0 <= i < m.rows.len() implies ({
        let r = #[trigger] m.rows[i];
        &&& scan::met(parts, overlay, req, r.id)
        &&& live(parts, overlay, r.id)
        &&& r.origin == origin_of(parts, overlay, r.id)
        &&& !scan::precedes(rev, id, r.id)
    }) by {
        if i < b.rows.len() {
            assert(m.rows[i] == b.rows[i]);
            lemma_precedes(rev, b.rows[i].id, id, id);
        } else {
            lemma_precedes(rev, id, id, id);
        }
    }
    assert forall|i: int, j: int| 0 <= i < j < m.rows.len() implies scan::precedes(
        rev,
        (#[trigger] m.rows[i]).id,
        (#[trigger] m.rows[j]).id,
    ) by {
        assert(m.rows[i] == b.rows[i]);
        if j < b.rows.len() {
            assert(m.rows[j] == b.rows[j]);
        }
    }
    assert forall|other: Seq<char>|
        #[trigger] scan::met(parts, overlay, req, other) && live(parts, overlay, other)
            && !scan::beyond(rev, Some(id), other) implies exists|i: int|
        0 <= i < m.rows.len() && (#[trigger] m.rows[i]).id == other by {
        lemma_precedes(rev, id, other, id);
        if other == id {
            assert(m.rows[b.rows.len() as int].id == other);
        } else {
            assert(!scan::beyond(rev, after, other));
            let i = choose|i: int| 0 <= i < b.rows.len() && (#[trigger] b.rows[i]).id == other;
            assert(m.rows[i] == b.rows[i]);
        }
    }
}

proof fn lemma_resolve_faithful(
    parts: Seq<PartView>,
    overlay: Seq<(Seq<char>, bool)>,
    req: ScanView,
    b: BatchView,
    steps: nat,
)
    requires
        faithful(parts, overlay, req, b),
    ensures
        faithful(parts, overlay, req, scan::resolve(parts, overlay, req, b, steps)),
    decreases steps,
{
    match scan::next_id(parts, overlay, req, b.resolved_through) {
        None => {},
        Some(id) => {
            assert(scan::is_next(parts, overlay, req, b.resolved_through, id));
            if b.rows.len() < req.limit && steps > 0 && !scan::oversized(
                parts,
                overlay,
                req,
                b,
                id,
            ) {
                lemma_absorb_faithful(parts, overlay, req, b, id);
                let more = scan::absorbed(parts, overlay, b, id);
                lemma_resolve_faithful(parts, overlay, req, more, (steps - 1) as nat);
            }
        },
    }
}

/// A scan lists live ids only, each with the row that decides it, in the order asked for, and of
/// the ids up to the last one it resolved it leaves out none.
pub proof fn lemma_scan_faithful(
    parts: Seq<PartView>,
    overlay: Seq<(Seq<char>, bool)>,
    req: ScanView,
)
    requires
        req.limit > 0,
    ensures
        faithful(parts, overlay, req, scan::scanned(parts, overlay, req)),
{
    assert(faithful(parts, overlay, req, scan::empty_batch()));
    lemma_resolve_faithful(
        parts,
        overlay,
        req,
        scan::empty_batch(),
        read::rows_total(parts, 0) + overlay.len(),
    );
}

// ---------------------------------------------------------------------------------------------
// A scan that reports no more has met every id.
// ---------------------------------------------------------------------------------------------
/// The first row of a run that a scan has still to meet.
proof fn lemma_least_in_rows(
    rows: Seq<RowView>,
    req: ScanView,
    after: Option<Seq<char>>,
    n: nat,
) -> (r: Option<int>)
    requires
        n <= rows.len(),
    ensures
        match r {
            Some(k) => {
                &&& 0 <= k < n
                &&& part::in_range(rows[k].id, req.from, req.to)
                &&& scan::beyond(req.reverse, after, rows[k].id)
                &&& forall|i: int|
                    0 <= i < n && part::in_range((#[trigger] rows[i]).id, req.from, req.to)
                        && scan::beyond(req.reverse, after, rows[i].id) ==> rows[i].id
                        == rows[k].id || scan::precedes(req.reverse, rows[k].id, rows[i].id)
            },
            None => forall|i: int|
                0 <= i < n ==> !(part::in_range((#[trigger] rows[i]).id, req.from, req.to)
                    && scan::beyond(req.reverse, after, rows[i].id)),
        },
    decreases n,
{
    if n == 0 {
        None
    } else {
        let before = lemma_least_in_rows(rows, req, after, (n - 1) as nat);
        let last = rows[n - 1].id;
        if !(part::in_range(last, req.from, req.to) && scan::beyond(req.reverse, after, last)) {
            before
        } else {
            match before {
                None => Some(n - 1),
                Some(k) => {
                    lemma_precedes(req.reverse, last, rows[k].id, last);
                    if scan::precedes(req.reverse, last, rows[k].id) {
                        assert forall|i: int|
                            0 <= i < n && part::in_range((#[trigger] rows[i]).id, req.from, req.to)
                                && scan::beyond(req.reverse, after, rows[i].id) implies rows[i].id
                            == last || scan::precedes(req.reverse, last, rows[i].id) by {
                            if i < n - 1 {
                                lemma_precedes(req.reverse, last, rows[k].id, rows[i].id);
                            }
                        }
                        Some(n - 1)
                    } else {
                        Some(k)
                    }
                },
            }
        }
    }
}

/// The first id over some parts that a scan has still to meet.
proof fn lemma_least_in_parts(
    parts: Seq<PartView>,
    req: ScanView,
    after: Option<Seq<char>>,
    n: nat,
) -> (r: Option<Seq<char>>)
    requires
        n <= parts.len(),
        part::parts_sound(parts),
    ensures
        match r {
            Some(m) => {
                &&& part::in_range(m, req.from, req.to)
                &&& scan::beyond(req.reverse, after, m)
                &&& exists|p: int|
                    0 <= p < n && part::row_of((#[trigger] parts[p]).rows, m) is Some
                &&& forall|p: int, i: int|
                    0 <= p < n && 0 <= i < parts[p].rows.len() && part::in_range(
                        (#[trigger] parts[p].rows[i]).id,
                        req.from,
                        req.to,
                    ) && scan::beyond(req.reverse, after, parts[p].rows[i].id)
                        ==> parts[p].rows[i].id == m || scan::precedes(
                        req.reverse,
                        m,
                        parts[p].rows[i].id,
                    )
            },
            None => forall|p: int, i: int|
                0 <= p < n && 0 <= i < parts[p].rows.len() ==> !(part::in_range(
                    (#[trigger] parts[p].rows[i]).id,
                    req.from,
                    req.to,
                ) && scan::beyond(req.reverse, after, parts[p].rows[i].id)),
        },
    decreases n,
{
    if n == 0 {
        None
    } else {
        let before = lemma_least_in_parts(parts, req, after, (n - 1) as nat);
        let rows = parts[n - 1].rows;
        let here = lemma_least_in_rows(rows, req, after, rows.len());
        match here {
            None => before,
            Some(k) => {
                let id = rows[k].id;
                assert(part::part_sound(parts[n - 1]));
                part::lemma_row_of(rows, id, k);
                let keep = before is Some && !scan::precedes(req.reverse, id, before->0);
                let m = if keep {
                    before->0
                } else {
                    id
                };
                assert forall|p: int, i: int|
                    0 <= p < n && 0 <= i < parts[p].rows.len() && part::in_range(
                        (#[trigger] parts[p].rows[i]).id,
                        req.from,
                        req.to,
                    ) && scan::beyond(req.reverse, after, parts[p].rows[i].id) implies parts[p].rows[i].id
                    == m || scan::precedes(req.reverse, m, parts[p].rows[i].id) by {
                    let other = parts[p].rows[i].id;
                    if before is Some {
                        lemma_precedes(req.reverse, id, before->0, other);
                        lemma_precedes(req.reverse, before->0, id, other);
                    }
                }
                if keep {
                    let p = choose|p: int|
                        0 <= p < n - 1 && part::row_of((#[trigger] parts[p]).rows, m) is Some;
                    assert(0 <= p < n);
                } else {
                    assert(part::row_of(parts[n - 1].rows, m) is Some);
                }
                Some(m)
            },
        }
    }
}

/// Where a scan has still to meet an id, there is a first one.
proof fn lemma_next_exists(
    parts: Seq<PartView>,
    overlay: Seq<(Seq<char>, bool)>,
    req: ScanView,
    after: Option<Seq<char>>,
    id: Seq<char>,
)
    requires
        part::parts_sound(parts),
        scan::overlay_ok(overlay, req),
        scan::met(parts, overlay, req, id),
        scan::beyond(req.reverse, after, id),
    ensures
        scan::next_id(parts, overlay, req, after) is Some,
{
    let rev = req.reverse;
    let in_parts = lemma_least_in_parts(parts, req, after, parts.len());
    let in_over = lemma_least_in_rows(
        Seq::new(overlay.len(), |i: int| RowView { id: overlay[i].0, record: None }),
        req,
        after,
        overlay.len(),
    );
    let shadow = Seq::new(overlay.len(), |i: int| RowView { id: overlay[i].0, record: None });
    assert forall|k: int| 0 <= k < overlay.len() implies shadow[k].id == overlay[k].0 by {}
    assert forall|other: Seq<char>|
        #[trigger] scan::met(parts, overlay, req, other) && scan::beyond(rev, after, other) implies (
    in_over is Some && (other == overlay[in_over->0].0 || scan::precedes(
        rev,
        overlay[in_over->0].0,
        other,
    ))) || (in_parts is Some && (other == in_parts->0 || scan::precedes(
        rev,
        in_parts->0,
        other,
    ))) by {
        if scan::in_overlay(overlay, other) {
            let k = choose|k: int| 0 <= k < overlay.len() && (#[trigger] overlay[k]).0 == other;
            assert(shadow[k].id == other);
            assert(part::in_range(overlay[k].0, req.from, req.to));
        } else {
            let p = choose|p: int|
                0 <= p < parts.len() && part::row_of((#[trigger] parts[p]).rows, other) is Some;
            let row = part::row_of(parts[p].rows, other)->0 as int;
            assert(parts[p].rows[row].id == other);
        }
    }
    assert(scan::met(parts, overlay, req, id));
    let pick = if in_over is None {
        in_parts->0
    } else if in_parts is None {
        overlay[in_over->0].0
    } else if scan::precedes(rev, in_parts->0, overlay[in_over->0].0) {
        in_parts->0
    } else {
        overlay[in_over->0].0
    };
    assert(scan::met(parts, overlay, req, pick)) by {
        if in_over is Some && pick == overlay[in_over->0].0 {
            assert(scan::in_overlay(overlay, pick));
        } else {
            assert(scan::in_parts(parts, pick));
        }
    }
    assert forall|other: Seq<char>|
        #[trigger] scan::met(parts, overlay, req, other) && scan::beyond(
            rev,
            after,
            other,
        ) implies other == pick || scan::precedes(rev, pick, other) by {
        if in_over is Some && in_parts is Some {
            let a = overlay[in_over->0].0;
            let b = in_parts->0;
            lemma_precedes(rev, a, b, other);
            lemma_precedes(rev, b, a, other);
        }
    }
    if in_over is Some {
        assert(shadow[in_over->0].id == overlay[in_over->0].0);
    }
    assert(scan::is_next(parts, overlay, req, after, pick));
}

proof fn lemma_resolve_more(
    parts: Seq<PartView>,
    overlay: Seq<(Seq<char>, bool)>,
    req: ScanView,
    b: BatchView,
    steps: nat,
)
    ensures
        ({
            let r = scan::resolve(parts, overlay, req, b, steps);
            !r.has_more ==> scan::next_id(parts, overlay, req, r.resolved_through) is None
        }),
    decreases steps,
{
    match scan::next_id(parts, overlay, req, b.resolved_through) {
        None => {},
        Some(id) => {
            if b.rows.len() < req.limit && steps > 0 && !scan::oversized(
                parts,
                overlay,
                req,
                b,
                id,
            ) {
                let more = scan::absorbed(parts, overlay, b, id);
                lemma_resolve_more(parts, overlay, req, more, (steps - 1) as nat);
            }
        },
    }
}

/// A scan that reports no more lists every live id of its range.
pub proof fn lemma_scan_complete(
    parts: Seq<PartView>,
    overlay: Seq<(Seq<char>, bool)>,
    req: ScanView,
    id: Seq<char>,
)
    requires
        req.limit > 0,
        part::parts_sound(parts),
        scan::overlay_ok(overlay, req),
        !scan::scanned(parts, overlay, req).has_more,
        scan::met(parts, overlay, req, id),
        live(parts, overlay, id),
    ensures
        exists|i: int|
            0 <= i < scan::scanned(parts, overlay, req).rows.len() && (#[trigger] scan::scanned(
                parts,
                overlay,
                req,
            ).rows[i]).id == id,
{
    let r = scan::scanned(parts, overlay, req);
    lemma_scan_faithful(parts, overlay, req);
    lemma_resolve_more(
        parts,
        overlay,
        req,
        scan::empty_batch(),
        read::rows_total(parts, 0) + overlay.len(),
    );
    if scan::beyond(req.reverse, r.resolved_through, id) {
        lemma_next_exists(parts, overlay, req, r.resolved_through, id);
    }
}

} // verus!
