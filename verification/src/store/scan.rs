//! Range scans: a merge of sorted parts and a newer overlay, one id at a time.
//!
//! Ids are sorted, so a range is a contiguous run in every part. The merge resolves each id as one
//! atomic group of all the rows that carry it, and stops at a limit of live rows or at a ceiling on
//! the rows it may look at.

use crate::bytes;
use crate::part;
use crate::part::{Part, PartView};
use crate::store::read;
use crate::store::scan_laws;
use vstd::prelude::*;

verus! {

/// Where a live row was found.
#[derive(Clone, Copy, Debug, PartialEq, Eq, Structural)]
pub enum RowOrigin {
    Part { part: usize, row: usize },
    Memtable,
}

/// A live row resolved by the range merge.
#[derive(Debug, PartialEq, Eq)]
pub struct RowRef {
    pub id: String,
    pub origin: RowOrigin,
}

/// View of a [`RowRef`].
pub struct RowRefView {
    pub id: Seq<char>,
    pub origin: RowOrigin,
}

impl View for RowRef {
    type V = RowRefView;

    open spec fn view(&self) -> RowRefView {
        RowRefView { id: self.id@, origin: self.origin }
    }
}

/// Views of resolved rows.
pub open spec fn row_refs_view(rows: Seq<RowRef>) -> Seq<RowRefView> {
    Seq::new(rows.len(), |i: int| rows[i]@)
}

/// Rows one scan call resolved, and the work it took.
#[derive(Debug, PartialEq, Eq)]
pub struct RowBatch {
    pub rows: Vec<RowRef>,
    /// Part rows in the resolved groups.
    pub physical_rows: usize,
    /// Rows hidden by the one that decided their group.
    pub superseded_rows: usize,
    /// Groups a tombstone decided.
    pub tombstones: usize,
    /// Overlay entries in the resolved groups.
    pub memtable_entries: usize,
    /// The last group resolved.
    pub resolved_through: Option<String>,
    /// An id lies beyond it.
    pub has_more: bool,
    /// The ceiling stopped the scan.
    pub budget_exhausted: bool,
}

/// View of a [`RowBatch`].
pub struct BatchView {
    pub rows: Seq<RowRefView>,
    pub physical_rows: nat,
    pub superseded_rows: nat,
    pub tombstones: nat,
    pub memtable_entries: nat,
    pub resolved_through: Option<Seq<char>>,
    pub has_more: bool,
    pub budget_exhausted: bool,
}

impl View for RowBatch {
    type V = BatchView;

    open spec fn view(&self) -> BatchView {
        BatchView {
            rows: row_refs_view(self.rows@),
            physical_rows: self.physical_rows as nat,
            superseded_rows: self.superseded_rows as nat,
            tombstones: self.tombstones as nat,
            memtable_entries: self.memtable_entries as nat,
            resolved_through: match self.resolved_through {
                Some(s) => Some(s@),
                None => None,
            },
            has_more: self.has_more,
            budget_exhausted: self.budget_exhausted,
        }
    }
}

/// The batch before anything is resolved.
pub open spec fn empty_batch() -> BatchView {
    BatchView {
        rows: Seq::empty(),
        physical_rows: 0,
        superseded_rows: 0,
        tombstones: 0,
        memtable_entries: 0,
        resolved_through: None,
        has_more: false,
        budget_exhausted: false,
    }
}

/// What a scan asks for.
#[derive(Clone, Copy, Debug)]
pub struct RowScan<'a> {
    pub from: Option<&'a str>,
    pub to: Option<&'a str>,
    pub limit: usize,
    pub reverse: bool,
    pub max_resolution_entries: usize,
    pub allow_oversized_group: bool,
}

/// View of a [`RowScan`].
pub struct ScanView {
    pub from: Option<Seq<char>>,
    pub to: Option<Seq<char>>,
    pub limit: nat,
    pub reverse: bool,
    pub max_entries: nat,
    pub allow_oversized: bool,
}

impl<'a> RowScan<'a> {
    pub open spec fn view(&self) -> ScanView {
        ScanView {
            from: part::bound_view(self.from),
            to: part::bound_view(self.to),
            limit: self.limit as nat,
            reverse: self.reverse,
            max_entries: self.max_resolution_entries as nat,
            allow_oversized: self.allow_oversized_group,
        }
    }
}

/// Overlay entries: an id, and whether it is a record rather than a deletion.
pub open spec fn overlay_view(overlay: Seq<(&str, bool)>) -> Seq<(Seq<char>, bool)> {
    Seq::new(overlay.len(), |i: int| (overlay[i].0@, overlay[i].1))
}

/// The order of a scan.
pub open spec fn precedes(reverse: bool, a: Seq<char>, b: Seq<char>) -> bool {
    if reverse {
        bytes::name_lt(b, a)
    } else {
        bytes::name_lt(a, b)
    }
}

/// Whether an id lies beyond the last one resolved.
pub open spec fn beyond(reverse: bool, after: Option<Seq<char>>, id: Seq<char>) -> bool {
    after is Some ==> precedes(reverse, after->0, id)
}

/// Whether some part holds an id.
pub open spec fn in_parts(parts: Seq<PartView>, id: Seq<char>) -> bool {
    exists|p: int| 0 <= p < parts.len() && part::row_of((#[trigger] parts[p]).rows, id) is Some
}

/// Whether the overlay holds an id.
pub open spec fn in_overlay(overlay: Seq<(Seq<char>, bool)>, id: Seq<char>) -> bool {
    exists|k: int| 0 <= k < overlay.len() && (#[trigger] overlay[k]).0 == id
}

/// Whether a scan meets an id.
pub open spec fn met(
    parts: Seq<PartView>,
    overlay: Seq<(Seq<char>, bool)>,
    req: ScanView,
    id: Seq<char>,
) -> bool {
    ||| part::in_range(id, req.from, req.to) && in_parts(parts, id)
    ||| in_overlay(overlay, id)
}

/// The first id a scan meets beyond another.
pub open spec fn is_next(
    parts: Seq<PartView>,
    overlay: Seq<(Seq<char>, bool)>,
    req: ScanView,
    after: Option<Seq<char>>,
    id: Seq<char>,
) -> bool {
    &&& met(parts, overlay, req, id)
    &&& beyond(req.reverse, after, id)
    &&& forall|other: Seq<char>|
        #[trigger] met(parts, overlay, req, other) && beyond(req.reverse, after, other) ==> other
            == id || precedes(req.reverse, id, other)
}

/// The first id a scan meets beyond another, if there is one.
pub open spec fn next_id(
    parts: Seq<PartView>,
    overlay: Seq<(Seq<char>, bool)>,
    req: ScanView,
    after: Option<Seq<char>>,
) -> Option<Seq<char>> {
    if exists|id: Seq<char>| is_next(parts, overlay, req, after, id) {
        Some(choose|id: Seq<char>| is_next(parts, overlay, req, after, id))
    } else {
        None
    }
}

/// How many parts hold an id.
pub open spec fn holders(parts: Seq<PartView>, id: Seq<char>) -> nat
    decreases parts.len(),
{
    if parts.len() == 0 {
        0
    } else {
        holders(parts.drop_last(), id) + if part::row_of(parts.last().rows, id) is Some {
            1nat
        } else {
            0
        }
    }
}

/// Whether the overlay's entry for an id is a record.
pub open spec fn overlay_live(overlay: Seq<(Seq<char>, bool)>, id: Seq<char>) -> bool {
    exists|k: int| 0 <= k < overlay.len() && (#[trigger] overlay[k]).0 == id && overlay[k].1
}

/// How many rows and overlay entries an id's group has.
pub open spec fn group_entries(
    parts: Seq<PartView>,
    overlay: Seq<(Seq<char>, bool)>,
    id: Seq<char>,
) -> nat {
    holders(parts, id) + if in_overlay(overlay, id) {
        1nat
    } else {
        0
    }
}

/// Rows and entries a batch has looked at.
pub open spec fn used(b: BatchView) -> nat {
    b.physical_rows + b.memtable_entries
}

/// A batch with one more group resolved: the overlay decides where it has the id, else the newest
/// part.
pub open spec fn absorbed(
    parts: Seq<PartView>,
    overlay: Seq<(Seq<char>, bool)>,
    b: BatchView,
    id: Seq<char>,
) -> BatchView {
    let n = holders(parts, id);
    let (p, row) = read::newest(parts, id)->0;
    if in_overlay(overlay, id) {
        BatchView {
            rows: if overlay_live(overlay, id) {
                b.rows.push(RowRefView { id, origin: RowOrigin::Memtable })
            } else {
                b.rows
            },
            physical_rows: b.physical_rows + n,
            superseded_rows: b.superseded_rows + n,
            memtable_entries: b.memtable_entries + 1,
            resolved_through: Some(id),
            ..b
        }
    } else if parts[p as int].rows[row as int].record is Some {
        BatchView {
            rows: b.rows.push(
                RowRefView {
                    id,
                    origin: RowOrigin::Part { part: p as usize, row: row as usize },
                },
            ),
            physical_rows: b.physical_rows + n,
            superseded_rows: (b.superseded_rows + n - 1) as nat,
            resolved_through: Some(id),
            ..b
        }
    } else {
        BatchView {
            tombstones: b.tombstones + 1,
            physical_rows: b.physical_rows + n,
            superseded_rows: (b.superseded_rows + n - 1) as nat,
            resolved_through: Some(id),
            ..b
        }
    }
}

/// A batch that stopped because ids ran out or the limit was met.
pub open spec fn finished(
    parts: Seq<PartView>,
    overlay: Seq<(Seq<char>, bool)>,
    req: ScanView,
    b: BatchView,
) -> BatchView {
    BatchView { has_more: next_id(parts, overlay, req, b.resolved_through) is Some, ..b }
}

/// A batch the ceiling stopped.
pub open spec fn exhausted(b: BatchView) -> BatchView {
    BatchView { has_more: true, budget_exhausted: true, ..b }
}

/// Whether a group does not fit under the ceiling. The first group may be let through whole.
pub open spec fn oversized(
    parts: Seq<PartView>,
    overlay: Seq<(Seq<char>, bool)>,
    req: ScanView,
    b: BatchView,
    id: Seq<char>,
) -> bool {
    &&& used(b) + group_entries(parts, overlay, id) > req.max_entries
    &&& used(b) > 0 || !req.allow_oversized
}

/// What a scan resolves from a batch on, in at most `steps` groups.
pub open spec fn resolve(
    parts: Seq<PartView>,
    overlay: Seq<(Seq<char>, bool)>,
    req: ScanView,
    b: BatchView,
    steps: nat,
) -> BatchView
    decreases steps,
{
    match next_id(parts, overlay, req, b.resolved_through) {
        None => finished(parts, overlay, req, b),
        Some(id) => if b.rows.len() >= req.limit || steps == 0 {
            finished(parts, overlay, req, b)
        } else if oversized(parts, overlay, req, b, id) {
            exhausted(b)
        } else {
            let more = absorbed(parts, overlay, b, id);
            if next_id(parts, overlay, req, more.resolved_through) is Some && used(more)
                >= req.max_entries {
                exhausted(more)
            } else {
                resolve(parts, overlay, req, more, (steps - 1) as nat)
            }
        },
    }
}

/// What a scan returns.
pub open spec fn scanned(
    parts: Seq<PartView>,
    overlay: Seq<(Seq<char>, bool)>,
    req: ScanView,
) -> BatchView {
    if req.limit == 0 {
        empty_batch()
    } else {
        resolve(
            parts,
            overlay,
            req,
            empty_batch(),
            read::rows_total(parts, 0) + overlay.len(),
        )
    }
}

/// The overlay lists ids in the scan's order, inside its range.
pub open spec fn overlay_ok(overlay: Seq<(Seq<char>, bool)>, req: ScanView) -> bool {
    &&& forall|i: int, j: int|
        0 <= i < j < overlay.len() ==> precedes(
            req.reverse,
            (#[trigger] overlay[i]).0,
            (#[trigger] overlay[j]).0,
        )
    &&& forall|i: int|
        0 <= i < overlay.len() ==> part::in_range((#[trigger] overlay[i]).0, req.from, req.to)
}

// ---------------------------------------------------------------------------------------------
// The merge.
// ---------------------------------------------------------------------------------------------
proof fn lemma_precedes(reverse: bool, a: Seq<char>, b: Seq<char>, c: Seq<char>)
    ensures
        !precedes(reverse, a, a),
        precedes(reverse, a, b) && precedes(reverse, b, c) ==> precedes(reverse, a, c),
        precedes(reverse, a, b) ==> !precedes(reverse, b, a),
        a == b || precedes(reverse, a, b) || precedes(reverse, b, a),
{
    bytes::lemma_name_order(a, b, c);
    bytes::lemma_name_order(b, a, c);
    bytes::lemma_name_order(c, b, a);
}

/// There is one next id at most.
proof fn lemma_next_unique(
    parts: Seq<PartView>,
    overlay: Seq<(Seq<char>, bool)>,
    req: ScanView,
    after: Option<Seq<char>>,
    id: Seq<char>,
)
    requires
        is_next(parts, overlay, req, after, id),
    ensures
        next_id(parts, overlay, req, after) == Some(id),
{
    let other = next_id(parts, overlay, req, after)->0;
    assert(is_next(parts, overlay, req, after, other));
    lemma_precedes(req.reverse, id, other, id);
}

/// A window of rows holds exactly the part's rows that a scan has still to meet.
pub open spec fn window_ok(
    p: PartView,
    req: ScanView,
    after: Option<Seq<char>>,
    w: (usize, usize),
) -> bool {
    &&& w.0 <= w.1 <= p.rows.len()
    &&& forall|i: int|
        0 <= i < p.rows.len() ==> (w.0 <= i < w.1 <==> part::in_range(
            #[trigger] p.rows[i].id,
            req.from,
            req.to,
        ) && beyond(req.reverse, after, p.rows[i].id))
}

/// Every part's window is right.
pub open spec fn windows_ok(
    parts: Seq<PartView>,
    req: ScanView,
    after: Option<Seq<char>>,
    ws: Seq<(usize, usize)>,
) -> bool {
    &&& ws.len() == parts.len()
    &&& forall|p: int|
        0 <= p < parts.len() ==> window_ok(parts[p], req, after, #[trigger] ws[p])
}

/// Rows left in the windows.
pub open spec fn left(ws: Seq<(usize, usize)>) -> int
    decreases ws.len(),
{
    if ws.len() == 0 {
        0
    } else {
        left(ws.drop_last()) + (ws.last().1 - ws.last().0)
    }
}

proof fn lemma_left_update(ws: Seq<(usize, usize)>, k: int, w: (usize, usize))
    requires
        0 <= k < ws.len(),
    ensures
        left(ws.update(k, w)) == left(ws) - (ws[k].1 - ws[k].0) + (w.1 - w.0),
    decreases ws.len(),
{
    let us = ws.update(k, w);
    if k == ws.len() - 1 {
        assert(us.drop_last() =~= ws.drop_last());
    } else {
        assert(us.drop_last() =~= ws.drop_last().update(k, w));
        lemma_left_update(ws.drop_last(), k, w);
    }
}

proof fn lemma_left_nonnegative(ws: Seq<(usize, usize)>)
    requires
        forall|i: int| 0 <= i < ws.len() ==> (#[trigger] ws[i]).0 <= ws[i].1,
    ensures
        left(ws) >= 0,
        forall|i: int| 0 <= i < ws.len() ==> (#[trigger] ws[i]).1 - ws[i].0 <= left(ws),
    decreases ws.len(),
{
    if ws.len() > 0 {
        let before = ws.drop_last();
        assert forall|i: int| 0 <= i < before.len() implies (#[trigger] before[i]).0
            <= before[i].1 by {
            assert(before[i] == ws[i]);
        }
        lemma_left_nonnegative(before);
        assert forall|i: int| 0 <= i < ws.len() implies (#[trigger] ws[i]).1 - ws[i].0 <= left(
            ws,
        ) by {
            if i < ws.len() - 1 {
                assert(before[i] == ws[i]);
            }
        }
    }
}

/// The row a window gives next.
pub open spec fn head(w: (usize, usize), reverse: bool) -> int {
    if reverse {
        w.1 - 1
    } else {
        w.0 as int
    }
}

/// The least id over the window heads and the overlay's next entry is the next id, and each part
/// holds it exactly where its head is it.
proof fn lemma_heads(
    parts: Seq<PartView>,
    overlay: Seq<(Seq<char>, bool)>,
    req: ScanView,
    after: Option<Seq<char>>,
    ws: Seq<(usize, usize)>,
    oi: int,
    best: Seq<char>,
)
    requires
        part::parts_sound(parts),
        overlay_ok(overlay, req),
        windows_ok(parts, req, after, ws),
        0 <= oi <= overlay.len(),
        forall|k: int|
            0 <= k < overlay.len() ==> (oi <= k <==> beyond(
                req.reverse,
                after,
                (#[trigger] overlay[k]).0,
            )),
        forall|p: int|
            0 <= p < ws.len() && (#[trigger] ws[p]).0 < ws[p].1 ==> parts[p].rows[head(
                ws[p],
                req.reverse,
            )].id == best || precedes(
                req.reverse,
                best,
                parts[p].rows[head(ws[p], req.reverse)].id,
            ),
        oi < overlay.len() ==> overlay[oi].0 == best || precedes(
            req.reverse,
            best,
            overlay[oi].0,
        ),
        (oi < overlay.len() && overlay[oi].0 == best) || exists|p: int|
            0 <= p < ws.len() && (#[trigger] ws[p]).0 < ws[p].1 && parts[p].rows[head(
                ws[p],
                req.reverse,
            )].id == best,
    ensures
        is_next(parts, overlay, req, after, best),
        next_id(parts, overlay, req, after) == Some(best),
        part::in_range(best, req.from, req.to),
        forall|p: int|
            0 <= p < parts.len() ==> (part::row_of((#[trigger] parts[p]).rows, best) is Some <==> (
            ws[p].0 < ws[p].1 && parts[p].rows[head(ws[p], req.reverse)].id == best)),
        forall|p: int|
            0 <= p < parts.len() && part::row_of((#[trigger] parts[p]).rows, best) is Some
                ==> part::row_of(parts[p].rows, best) == Some(head(ws[p], req.reverse) as nat),
        in_overlay(overlay, best) <==> oi < overlay.len() && overlay[oi].0 == best,
{
    let rev = req.reverse;
    assert(met(parts, overlay, req, best) && beyond(rev, after, best) && part::in_range(
        best,
        req.from,
        req.to,
    )) by {
        if oi < overlay.len() && overlay[oi].0 == best {
            assert(in_overlay(overlay, best));
        } else {
            let p = choose|p: int|
                0 <= p < ws.len() && (#[trigger] ws[p]).0 < ws[p].1 && parts[p].rows[head(
                    ws[p],
                    rev,
                )].id == best;
            let row = head(ws[p], rev);
            assert(window_ok(parts[p], req, after, ws[p]));
            assert(part::part_sound(parts[p]));
            part::lemma_row_of(parts[p].rows, best, row);
            assert(part::in_range(parts[p].rows[row].id, req.from, req.to));
            assert(in_parts(parts, best));
        }
    }
    assert forall|other: Seq<char>| #[trigger]
        met(parts, overlay, req, other) && beyond(rev, after, other) implies other == best
        || precedes(rev, best, other) by {
        if in_overlay(overlay, other) {
            let k = choose|k: int| 0 <= k < overlay.len() && (#[trigger] overlay[k]).0 == other;
            assert(oi <= k);
            if oi < k {
                assert(precedes(rev, overlay[oi].0, overlay[k].0));
                lemma_precedes(rev, best, overlay[oi].0, other);
            }
        } else {
            let p = choose|p: int|
                0 <= p < parts.len() && part::row_of((#[trigger] parts[p]).rows, other) is Some;
            lemma_window_head(parts, req, after, ws, p, other);
            let row = head(ws[p], rev);
            lemma_precedes(rev, best, parts[p].rows[row].id, other);
        }
    }
    lemma_next_unique(parts, overlay, req, after, best);
    assert forall|p: int| 0 <= p < parts.len() && part::row_of(
        (#[trigger] parts[p]).rows,
        best,
    ) is Some implies ws[p].0 < ws[p].1 && parts[p].rows[head(ws[p], rev)].id == best
        && part::row_of(parts[p].rows, best) == Some(head(ws[p], rev) as nat) by {
        lemma_window_head(parts, req, after, ws, p, best);
        let row = head(ws[p], rev);
        lemma_precedes(rev, best, parts[p].rows[row].id, best);
        assert(part::part_sound(parts[p]));
        part::lemma_row_of(parts[p].rows, best, row);
    }
    assert forall|p: int| 0 <= p < parts.len() && (#[trigger] ws[p]).0 < ws[p].1 && parts[p].rows[head(
        ws[p],
        rev,
    )].id == best implies part::row_of(parts[p].rows, best) is Some by {
        assert(window_ok(parts[p], req, after, ws[p]));
        assert(part::part_sound(parts[p]));
        part::lemma_row_of(parts[p].rows, best, head(ws[p], rev));
    }
    if in_overlay(overlay, best) {
        let k = choose|k: int| 0 <= k < overlay.len() && (#[trigger] overlay[k]).0 == best;
        assert(oi <= k);
        if oi < k {
            assert(precedes(rev, overlay[oi].0, overlay[k].0));
            lemma_precedes(rev, best, overlay[oi].0, best);
        }
    }
}

/// An id a part has still to give is not before its window's head.
proof fn lemma_window_head(
    parts: Seq<PartView>,
    req: ScanView,
    after: Option<Seq<char>>,
    ws: Seq<(usize, usize)>,
    p: int,
    id: Seq<char>,
)
    requires
        part::parts_sound(parts),
        windows_ok(parts, req, after, ws),
        0 <= p < parts.len(),
        part::row_of(parts[p].rows, id) is Some,
        part::in_range(id, req.from, req.to),
        beyond(req.reverse, after, id),
    ensures
        ws[p].0 < ws[p].1,
        parts[p].rows[head(ws[p], req.reverse)].id == id || precedes(
            req.reverse,
            parts[p].rows[head(ws[p], req.reverse)].id,
            id,
        ),
{
    let row = part::row_of(parts[p].rows, id)->0 as int;
    assert(window_ok(parts[p], req, after, ws[p]));
    assert(parts[p].rows[row].id == id);
    assert(ws[p].0 <= row < ws[p].1);
    let h = head(ws[p], req.reverse);
    assert(part::part_sound(parts[p]));
    if h != row {
        if req.reverse {
            assert(bytes::name_lt(parts[p].rows[row].id, parts[p].rows[h].id));
        } else {
            assert(bytes::name_lt(parts[p].rows[h].id, parts[p].rows[row].id));
        }
    }
}

/// The window after its head is taken.
pub open spec fn tail_window(w: (usize, usize), reverse: bool) -> (usize, usize) {
    if reverse {
        (w.0, (w.1 - 1) as usize)
    } else {
        ((w.0 + 1) as usize, w.1)
    }
}

/// Taking the head from the windows that have it, and no other, makes the windows right for what
/// lies beyond.
proof fn lemma_window_advance(
    p: PartView,
    req: ScanView,
    after: Option<Seq<char>>,
    w: (usize, usize),
    best: Seq<char>,
)
    requires
        part::part_sound(p),
        window_ok(p, req, after, w),
        beyond(req.reverse, after, best),
        w.0 < w.1 ==> p.rows[head(w, req.reverse)].id == best || precedes(
            req.reverse,
            best,
            p.rows[head(w, req.reverse)].id,
        ),
    ensures
        w.0 < w.1 && p.rows[head(w, req.reverse)].id == best ==> window_ok(
            p,
            req,
            Some(best),
            tail_window(w, req.reverse),
        ),
        !(w.0 < w.1 && p.rows[head(w, req.reverse)].id == best) ==> window_ok(
            p,
            req,
            Some(best),
            w,
        ),
{
    let rev = req.reverse;
    let h = head(w, rev);
    assert forall|i: int| 0 <= i < p.rows.len() implies ((w.0 <= i < w.1 && p.rows[i].id != best)
        <==> part::in_range(#[trigger] p.rows[i].id, req.from, req.to) && beyond(
        rev,
        Some(best),
        p.rows[i].id,
    )) by {
        let id = p.rows[i].id;
        lemma_precedes(rev, best, id, best);
        if after is Some {
            lemma_precedes(rev, after->0, best, id);
        }
        if w.0 <= i < w.1 {
            if i != h {
                if rev {
                    assert(bytes::name_lt(p.rows[i].id, p.rows[h].id));
                } else {
                    assert(bytes::name_lt(p.rows[h].id, p.rows[i].id));
                }
                lemma_precedes(rev, best, p.rows[h].id, id);
            }
        }
    }
    if w.0 < w.1 && p.rows[h].id == best {
        assert forall|i: int| w.0 <= i < w.1 implies (p.rows[i].id == best <==> i == h) by {
            lemma_precedes(rev, best, best, best);
            if i < h {
                assert(bytes::name_lt(p.rows[i].id, p.rows[h].id));
            } else if i > h {
                assert(bytes::name_lt(p.rows[h].id, p.rows[i].id));
            }
            bytes::lemma_name_order(best, best, best);
        }
    } else {
        assert forall|i: int| w.0 <= i < w.1 implies p.rows[i].id != best by {
            lemma_precedes(rev, best, p.rows[h].id, p.rows[i].id);
            if i < h {
                assert(bytes::name_lt(p.rows[i].id, p.rows[h].id));
            } else if i > h {
                assert(bytes::name_lt(p.rows[h].id, p.rows[i].id));
            }
            lemma_precedes(rev, p.rows[h].id, p.rows[i].id, best);
            lemma_precedes(rev, best, best, best);
        }
    }
}

/// The id at a window's head.
fn head_id<'a>(p: &'a Part, w: (usize, usize), reverse: bool) -> (r: Option<&'a str>)
    requires
        w.0 <= w.1 <= p@.rows.len(),
    ensures
        match r {
            Some(id) => w.0 < w.1 && id@ == p@.rows[head(w, reverse)].id,
            None => w.0 >= w.1,
        },
{
    if w.0 < w.1 {
        let row: usize = if reverse {
            w.1 - 1
        } else {
            w.0
        };
        assert(p@.rows[row as int] == p.rows@[row as int]@);
        Some(p.rows[row].id.as_str())
    } else {
        None
    }
}

fn comes_before(reverse: bool, a: &str, b: &str) -> (r: bool)
    ensures
        r == precedes(reverse, a@, b@),
{
    if reverse {
        bytes::str_lt(b, a)
    } else {
        bytes::str_lt(a, b)
    }
}

/// The first id over the window heads and the overlay's next entry.
fn pick_best<'a>(
    parts: &'a Vec<Part>,
    ws: &Vec<(usize, usize)>,
    overlay: &Vec<(&'a str, bool)>,
    oi: usize,
    reverse: bool,
) -> (r: Option<&'a str>)
    requires
        ws@.len() == parts@.len(),
        forall|p: int|
            0 <= p < ws@.len() ==> (#[trigger] ws@[p]).0 <= ws@[p].1 <= part::parts_view(
                parts@,
            )[p].rows.len(),
        oi <= overlay@.len(),
    ensures
        ({
            let all = part::parts_view(parts@);
            let ov = overlay_view(overlay@);
            match r {
                Some(best) => {
                    &&& forall|p: int|
                        0 <= p < ws@.len() && (#[trigger] ws@[p]).0 < ws@[p].1
                            ==> all[p].rows[head(ws@[p], reverse)].id == best@ || precedes(
                            reverse,
                            best@,
                            all[p].rows[head(ws@[p], reverse)].id,
                        )
                    &&& oi < ov.len() ==> ov[oi as int].0 == best@ || precedes(
                        reverse,
                        best@,
                        ov[oi as int].0,
                    )
                    &&& (oi < ov.len() && ov[oi as int].0 == best@) || exists|p: int|
                        0 <= p < ws@.len() && (#[trigger] ws@[p]).0 < ws@[p].1
                            && all[p].rows[head(ws@[p], reverse)].id == best@
                },
                None => oi >= ov.len() && forall|p: int|
                    0 <= p < ws@.len() ==> (#[trigger] ws@[p]).0 >= ws@[p].1,
            }
        }),
{
    let ghost all = part::parts_view(parts@);
    let ghost ov = overlay_view(overlay@);
    let mut best: Option<&'a str> = None;
    if oi < overlay.len() {
        assert(ov[oi as int] == (overlay@[oi as int].0@, overlay@[oi as int].1));
        best = Some(overlay[oi].0);
    }
    let mut p: usize = 0;
    while p < parts.len()
        invariant
            all == part::parts_view(parts@),
            ov == overlay_view(overlay@),
            ws@.len() == parts@.len(),
            oi <= overlay@.len(),
            p <= parts@.len(),
            forall|k: int|
                0 <= k < ws@.len() ==> (#[trigger] ws@[k]).0 <= ws@[k].1 <= all[k].rows.len(),
            match best {
                Some(b) => {
                    &&& forall|k: int|
                        0 <= k < p && (#[trigger] ws@[k]).0 < ws@[k].1 ==> all[k].rows[head(
                            ws@[k],
                            reverse,
                        )].id == b@ || precedes(
                            reverse,
                            b@,
                            all[k].rows[head(ws@[k], reverse)].id,
                        )
                    &&& oi < ov.len() ==> ov[oi as int].0 == b@ || precedes(
                        reverse,
                        b@,
                        ov[oi as int].0,
                    )
                    &&& (oi < ov.len() && ov[oi as int].0 == b@) || exists|k: int|
                        0 <= k < p && (#[trigger] ws@[k]).0 < ws@[k].1 && all[k].rows[head(
                            ws@[k],
                            reverse,
                        )].id == b@
                },
                None => oi >= ov.len() && forall|k: int|
                    0 <= k < p ==> (#[trigger] ws@[k]).0 >= ws@[k].1,
            },
        decreases parts.len() - p,
    {
        let w = ws[p];
        assert(all[p as int] == parts@[p as int]@);
        assert(ws@[p as int].0 <= ws@[p as int].1 <= all[p as int].rows.len());
        if let Some(id) = head_id(&parts[p], w, reverse) {
            let take = match best {
                Some(b) => comes_before(reverse, id, b),
                None => true,
            };
            if take {
                proof {
                    if best is Some {
                        let b = best->0;
                        assert forall|k: int|
                            0 <= k < p + 1 && (#[trigger] ws@[k]).0 < ws@[k].1 implies all[k].rows[head(
                            ws@[k],
                            reverse,
                        )].id == id@ || precedes(
                            reverse,
                            id@,
                            all[k].rows[head(ws@[k], reverse)].id,
                        ) by {
                            lemma_precedes(
                                reverse,
                                id@,
                                b@,
                                all[k].rows[head(ws@[k], reverse)].id,
                            );
                        }
                        if oi < ov.len() {
                            lemma_precedes(reverse, id@, b@, ov[oi as int].0);
                        }
                    }
                }
                best = Some(id);
            } else {
                proof {
                    lemma_precedes(reverse, id@, best->0@, id@);
                }
            }
        }
        p = p + 1;
    }
    best
}

/// How many parts have an id at their window's head, and the newest of them.
fn count_group(parts: &Vec<Part>, ws: &Vec<(usize, usize)>, best: &str, reverse: bool) -> (r: (
    usize,
    usize,
))
    requires
        ws@.len() == parts@.len(),
        forall|p: int|
            0 <= p < ws@.len() ==> (#[trigger] ws@[p]).0 <= ws@[p].1 <= part::parts_view(
                parts@,
            )[p].rows.len(),
        forall|p: int|
            0 <= p < parts@.len() ==> (part::row_of(
                (#[trigger] part::parts_view(parts@)[p]).rows,
                best@,
            ) is Some <==> (ws@[p].0 < ws@[p].1 && part::parts_view(parts@)[p].rows[head(
                ws@[p],
                reverse,
            )].id == best@)),
        forall|p: int|
            0 <= p < parts@.len() && part::row_of(
                (#[trigger] part::parts_view(parts@)[p]).rows,
                best@,
            ) is Some ==> part::row_of(part::parts_view(parts@)[p].rows, best@) == Some(
                head(ws@[p], reverse) as nat,
            ),
    ensures
        r.0 == holders(part::parts_view(parts@), best@),
        r.0 <= parts@.len(),
        r.0 > 0 ==> r.1 < parts@.len() && ws@[r.1 as int].0 < ws@[r.1 as int].1 && read::newest(
            part::parts_view(parts@),
            best@,
        ) == Some((r.1 as nat, head(ws@[r.1 as int], reverse) as nat)),
        r.0 == 0 ==> read::newest(part::parts_view(parts@), best@) is None,
{
    let ghost all = part::parts_view(parts@);
    let mut n: usize = 0;
    let mut newest: usize = 0;
    let mut p: usize = 0;
    assert(all.take(0) =~= Seq::<PartView>::empty());
    while p < parts.len()
        invariant
            all == part::parts_view(parts@),
            ws@.len() == parts@.len(),
            p <= parts@.len(),
            n <= p,
            forall|k: int|
                0 <= k < ws@.len() ==> (#[trigger] ws@[k]).0 <= ws@[k].1 <= all[k].rows.len(),
            forall|k: int|
                0 <= k < all.len() ==> (part::row_of((#[trigger] all[k]).rows, best@) is Some <==> (
                ws@[k].0 < ws@[k].1 && all[k].rows[head(ws@[k], reverse)].id == best@)),
            forall|k: int|
                0 <= k < all.len() && part::row_of((#[trigger] all[k]).rows, best@) is Some
                    ==> part::row_of(all[k].rows, best@) == Some(head(ws@[k], reverse) as nat),
            n == holders(all.take(p as int), best@),
            n > 0 ==> newest < p && ws@[newest as int].0 < ws@[newest as int].1 && read::newest(
                all.take(p as int),
                best@,
            ) == Some((newest as nat, head(ws@[newest as int], reverse) as nat)),
            n == 0 ==> read::newest(all.take(p as int), best@) is None,
        decreases parts.len() - p,
    {
        proof {
            assert(all[p as int] == parts@[p as int]@);
            assert(all.take(p + 1).drop_last() =~= all.take(p as int));
            assert(all.take(p + 1).last() == all[p as int]);
            assert(ws@[p as int].0 <= ws@[p as int].1);
        }
        if let Some(id) = head_id(&parts[p], ws[p], reverse) {
            if bytes::str_eq(id, best) {
                n = n + 1;
                newest = p;
            }
        }
        p = p + 1;
    }
    assert(all.take(p as int) =~= all);
    (n, newest)
}

/// Take an id from the heads that have it.
fn advance(
    parts: &Vec<Part>,
    ws: &mut Vec<(usize, usize)>,
    best: &str,
    req: RowScan<'_>,
    Ghost(after): Ghost<Option<Seq<char>>>,
)
    requires
        part::parts_sound(part::parts_view(parts@)),
        windows_ok(part::parts_view(parts@), req@, after, old(ws)@),
        beyond(req.reverse, after, best@),
        forall|p: int|
            0 <= p < old(ws)@.len() && (#[trigger] old(ws)@[p]).0 < old(ws)@[p].1
                ==> part::parts_view(parts@)[p].rows[head(old(ws)@[p], req.reverse)].id == best@
                || precedes(
                req.reverse,
                best@,
                part::parts_view(parts@)[p].rows[head(old(ws)@[p], req.reverse)].id,
            ),
        forall|p: int|
            0 <= p < parts@.len() ==> (part::row_of(
                (#[trigger] part::parts_view(parts@)[p]).rows,
                best@,
            ) is Some <==> (old(ws)@[p].0 < old(ws)@[p].1 && part::parts_view(
                parts@,
            )[p].rows[head(old(ws)@[p], req.reverse)].id == best@)),
    ensures
        windows_ok(part::parts_view(parts@), req@, Some(best@), final(ws)@),
        left(final(ws)@) == left(old(ws)@) - holders(part::parts_view(parts@), best@),
{
    let ghost all = part::parts_view(parts@);
    let ghost before = ws@;
    let mut p: usize = 0;
    assert(all.take(0) =~= Seq::<PartView>::empty());
    while p < parts.len()
        invariant
            all == part::parts_view(parts@),
            part::parts_sound(all),
            windows_ok(all, req@, after, before),
            beyond(req.reverse, after, best@),
            ws@.len() == parts@.len(),
            before.len() == ws@.len(),
            p <= parts@.len(),
            forall|k: int|
                0 <= k < before.len() && (#[trigger] before[k]).0 < before[k].1
                    ==> all[k].rows[head(before[k], req.reverse)].id == best@ || precedes(
                    req.reverse,
                    best@,
                    all[k].rows[head(before[k], req.reverse)].id,
                ),
            forall|k: int|
                0 <= k < all.len() ==> (part::row_of((#[trigger] all[k]).rows, best@) is Some <==> (
                before[k].0 < before[k].1 && all[k].rows[head(before[k], req.reverse)].id
                    == best@)),
            forall|k: int|
                0 <= k < p ==> window_ok(all[k], req@, Some(best@), #[trigger] ws@[k]),
            forall|k: int| p <= k < ws@.len() ==> #[trigger] ws@[k] == before[k],
            left(ws@) == left(before) - holders(all.take(p as int), best@),
        decreases parts.len() - p,
    {
        let w = ws[p];
        proof {
            assert(all[p as int] == parts@[p as int]@);
            assert(w == before[p as int]);
            assert(window_ok(all[p as int], req@, after, w));
            assert(part::part_sound(all[p as int]));
            assert(all.take(p + 1).drop_last() =~= all.take(p as int));
            assert(all.take(p + 1).last() == all[p as int]);
            lemma_window_advance(all[p as int], req@, after, w, best@);
        }
        if let Some(id) = head_id(&parts[p], w, req.reverse) {
            if bytes::str_eq(id, best) {
                let next: (usize, usize) = if req.reverse {
                    (w.0, w.1 - 1)
                } else {
                    (w.0 + 1, w.1)
                };
                proof {
                    lemma_left_update(ws@, p as int, next);
                }
                ws.set(p, next);
            }
        }
        p = p + 1;
    }
    assert(all.take(p as int) =~= all);
}

/// With nothing left there is no next id.
proof fn lemma_no_next(
    parts: Seq<PartView>,
    overlay: Seq<(Seq<char>, bool)>,
    req: ScanView,
    after: Option<Seq<char>>,
    ws: Seq<(usize, usize)>,
    oi: int,
)
    requires
        part::parts_sound(parts),
        windows_ok(parts, req, after, ws),
        oi == overlay.len(),
        forall|k: int|
            0 <= k < overlay.len() ==> (oi <= k <==> beyond(
                req.reverse,
                after,
                (#[trigger] overlay[k]).0,
            )),
        forall|p: int| 0 <= p < ws.len() ==> (#[trigger] ws[p]).0 >= ws[p].1,
    ensures
        next_id(parts, overlay, req, after) is None,
{
    if exists|id: Seq<char>| is_next(parts, overlay, req, after, id) {
        let id = choose|id: Seq<char>| is_next(parts, overlay, req, after, id);
        if in_overlay(overlay, id) {
            let k = choose|k: int| 0 <= k < overlay.len() && (#[trigger] overlay[k]).0 == id;
            assert(!beyond(req.reverse, after, overlay[k].0));
        } else {
            let p = choose|p: int|
                0 <= p < parts.len() && part::row_of((#[trigger] parts[p]).rows, id) is Some;
            lemma_window_head(parts, req, after, ws, p, id);
        }
    }
}

fn start_windows(parts: &Vec<Part>, req: RowScan<'_>) -> (r: Vec<(usize, usize)>)
    requires
        part::parts_sound(part::parts_view(parts@)),
    ensures
        windows_ok(part::parts_view(parts@), req@, None, r@),
        left(r@) <= read::rows_total(part::parts_view(parts@), 0),
{
    let ghost all = part::parts_view(parts@);
    let mut ws: Vec<(usize, usize)> = Vec::new();
    while ws.len() < parts.len()
        invariant
            all == part::parts_view(parts@),
            part::parts_sound(all),
            ws@.len() <= parts@.len(),
            forall|p: int| 0 <= p < ws@.len() ==> window_ok(all[p], req@, None, #[trigger] ws@[p]),
            left(ws@) + read::rows_total(all, ws@.len() as int) <= read::rows_total(all, 0),
        decreases parts.len() - ws.len(),
    {
        let p: usize = ws.len();
        let ghost before = ws@;
        assert(all[p as int] == parts@[p as int]@);
        assert(part::part_sound(all[p as int]));
        let w = parts[p].rows_in_range(req.from, req.to);
        ws.push(w);
        proof {
            assert(ws@.drop_last() =~= before);
            assert(window_ok(all[p as int], req@, None, w));
            assert forall|k: int| 0 <= k < ws@.len() implies window_ok(
                all[k],
                req@,
                None,
                #[trigger] ws@[k],
            ) by {
                if k < before.len() {
                    assert(ws@[k] == before[k]);
                }
            }
        }
    }
    ws
}

/// The state of a merge agrees with what it has resolved.
pub open spec fn merging(
    all: Seq<PartView>,
    ov: Seq<(Seq<char>, bool)>,
    req: ScanView,
    b: BatchView,
    ws: Seq<(usize, usize)>,
    oi: int,
) -> bool {
    &&& windows_ok(all, req, b.resolved_through, ws)
    &&& 0 <= oi <= ov.len()
    &&& forall|k: int|
        0 <= k < ov.len() ==> (oi <= k <==> beyond(
            req.reverse,
            b.resolved_through,
            (#[trigger] ov[k]).0,
        ))
    &&& b.memtable_entries == oi
    &&& b.physical_rows + left(ws) <= read::rows_total(all, 0)
    &&& b.superseded_rows <= b.physical_rows
    &&& b.tombstones <= b.physical_rows
    &&& b.rows.len() <= used(b)
    &&& !b.has_more
    &&& !b.budget_exhausted
}

/// Live rows of a range, in id order or reversed, up to a limit of rows and a ceiling of work.
#[verifier::rlimit(60)]
pub fn scan_rows<'a>(
    parts: &'a Vec<Part>,
    overlay: &Vec<(&'a str, bool)>,
    request: RowScan<'_>,
) -> (r: RowBatch)
    requires
        part::parts_sound(part::parts_view(parts@)),
        overlay_ok(overlay_view(overlay@), request@),
        read::rows_total(part::parts_view(parts@), 0) + overlay@.len() <= usize::MAX,
    ensures
        r@ == scanned(part::parts_view(parts@), overlay_view(overlay@), request@),
        request.limit == usize::MAX && request.max_resolution_entries == usize::MAX ==> !r.has_more,
{
    let ghost all = part::parts_view(parts@);
    let ghost ov = overlay_view(overlay@);
    let ghost req = request@;
    let mut batch = RowBatch {
        rows: Vec::new(),
        physical_rows: 0,
        superseded_rows: 0,
        tombstones: 0,
        memtable_entries: 0,
        resolved_through: None,
        has_more: false,
        budget_exhausted: false,
    };
    assert(batch@.rows =~= empty_batch().rows);
    if request.limit == 0 {
        return batch;
    }
    let mut ws = start_windows(parts, request);
    let mut oi: usize = 0;
    let ghost mut steps: nat = read::rows_total(all, 0) + ov.len();
    proof {
        lemma_left_nonnegative(ws@);
    }
    loop
        invariant
            all == part::parts_view(parts@),
            ov == overlay_view(overlay@),
            req == request@,
            part::parts_sound(all),
            overlay_ok(ov, req),
            read::rows_total(all, 0) + overlay@.len() <= usize::MAX,
            request.limit > 0,
            merging(all, ov, req, batch@, ws@, oi as int),
            left(ws@) + (ov.len() - oi) <= steps,
            scanned(all, ov, req) == resolve(all, ov, req, batch@, steps),
        decreases steps,
    {
        proof {
            assert forall|p: int| 0 <= p < ws@.len() implies (#[trigger] ws@[p]).0 <= ws@[p].1
                <= all[p].rows.len() by {
                assert(window_ok(all[p], req, batch@.resolved_through, ws@[p]));
            }
            lemma_left_nonnegative(ws@);
        }
        let best = match pick_best(parts, &ws, overlay, oi, request.reverse) {
            Some(best) => best,
            None => {
                proof {
                    lemma_no_next(all, ov, req, batch@.resolved_through, ws@, oi as int);
                }
                return batch;
            },
        };
        let ghost after = batch@.resolved_through;
        proof {
            lemma_heads(all, ov, req, after, ws@, oi as int, best@);
        }
        proof {
            lemma_holders_left(all, ws@, req, after, best@);
            lemma_group_nonempty(all, ov, req, best@);
        }
        if batch.rows.len() >= request.limit {
            batch.has_more = true;
            return batch;
        }
        let (n, newest) = count_group(parts, &ws, best, request.reverse);
        let overlay_matches = oi < overlay.len() && bytes::str_eq(overlay[oi].0, best);
        proof {
            if oi < overlay@.len() {
                assert(ov[oi as int] == (overlay@[oi as int].0@, overlay@[oi as int].1));
            }
            assert(overlay_matches == in_overlay(ov, best@));
            assert(steps > 0);
        }
        let entries: usize = if overlay_matches {
            n + 1
        } else {
            n
        };
        let used_before: usize = batch.physical_rows + batch.memtable_entries;
        let room: usize = if request.max_resolution_entries >= used_before {
            request.max_resolution_entries - used_before
        } else {
            0
        };
        assert(entries == group_entries(all, ov, best@));
        if entries > room && (used_before > 0 || !request.allow_oversized_group) {
            assert(oversized(all, ov, req, batch@, best@));
            batch.has_more = true;
            batch.budget_exhausted = true;
            return batch;
        }
        assert(!oversized(all, ov, req, batch@, best@));
        let ghost old_batch = batch@;
        let ghost old_rows = batch.rows@;
        batch.physical_rows = batch.physical_rows + n;
        if overlay_matches {
            batch.memtable_entries = batch.memtable_entries + 1;
            batch.superseded_rows = batch.superseded_rows + n;
            let live = overlay[oi].1;
            proof {
                lemma_overlay_live(ov, req, oi as int, best@);
            }
            if live {
                batch.rows.push(RowRef { id: best.to_owned(), origin: RowOrigin::Memtable });
                assert(row_refs_view(batch.rows@) =~= row_refs_view(old_rows).push(
                    RowRefView { id: best@, origin: RowOrigin::Memtable },
                ));
            }
        } else {
            batch.superseded_rows = batch.superseded_rows + (n - 1);
            let w = ws[newest];
            let row: usize = if request.reverse {
                w.1 - 1
            } else {
                w.0
            };
            assert(all[newest as int] == parts@[newest as int]@);
            if !parts[newest].is_tombstone(row) {
                batch.rows.push(
                    RowRef {
                        id: best.to_owned(),
                        origin: RowOrigin::Part { part: newest, row },
                    },
                );
                assert(row_refs_view(batch.rows@) =~= row_refs_view(old_rows).push(
                    RowRefView {
                        id: best@,
                        origin: RowOrigin::Part { part: newest, row },
                    },
                ));
            } else {
                batch.tombstones = batch.tombstones + 1;
            }
        }
        advance(parts, &mut ws, best, request, Ghost(after));
        if overlay_matches {
            oi = oi + 1;
        }
        batch.resolved_through = Some(best.to_owned());
        proof {
            assert(batch@ == absorbed(all, ov, old_batch, best@));
            lemma_overlay_advance(ov, req, after, best@, oi as int, overlay_matches);
            assert(merging(all, ov, req, batch@, ws@, oi as int));
            assert forall|p: int| 0 <= p < ws@.len() implies (#[trigger] ws@[p]).0 <= ws@[p].1
                <= all[p].rows.len() by {
                assert(window_ok(all[p], req, batch@.resolved_through, ws@[p]));
            }
            lemma_left_nonnegative(ws@);
        }
        let used_after: usize = batch.physical_rows + batch.memtable_entries;
        let more = pick_best(parts, &ws, overlay, oi, request.reverse);
        proof {
            match more {
                Some(id) => {
                    lemma_heads(all, ov, req, batch@.resolved_through, ws@, oi as int, id@);
                    lemma_holders_left(all, ws@, req, batch@.resolved_through, id@);
                    lemma_group_nonempty(all, ov, req, id@);
                },
                None => {
                    lemma_no_next(all, ov, req, batch@.resolved_through, ws@, oi as int);
                },
            }
        }
        if more.is_some() && used_after >= request.max_resolution_entries {
            batch.has_more = true;
            batch.budget_exhausted = true;
            return batch;
        }
        proof {
            steps = (steps - 1) as nat;
        }
    }
}

/// The heads that have an id are rows still left.
proof fn lemma_holders_left(
    all: Seq<PartView>,
    ws: Seq<(usize, usize)>,
    req: ScanView,
    after: Option<Seq<char>>,
    best: Seq<char>,
)
    requires
        windows_ok(all, req, after, ws),
        forall|p: int|
            0 <= p < all.len() ==> (part::row_of((#[trigger] all[p]).rows, best) is Some
                ==> ws[p].0 < ws[p].1),
    ensures
        holders(all, best) <= left(ws),
    decreases all.len(),
{
    if all.len() > 0 {
        let a = all.drop_last();
        let w = ws.drop_last();
        assert forall|p: int| 0 <= p < a.len() implies window_ok(a[p], req, after, #[trigger] w[p]) by {
            assert(window_ok(all[p], req, after, ws[p]));
        }
        assert forall|p: int| 0 <= p < a.len() && part::row_of(
            (#[trigger] a[p]).rows,
            best,
        ) is Some implies w[p].0 < w[p].1 by {
            assert(a[p] == all[p]);
        }
        lemma_holders_left(a, w, req, after, best);
        let last = all.len() - 1;
        assert(all[last] == all.last() && ws[last] == ws.last());
        assert(window_ok(all[last], req, after, ws[last]));
    }
}

proof fn lemma_holders_positive(all: Seq<PartView>, p: int, id: Seq<char>)
    requires
        0 <= p < all.len(),
        part::row_of(all[p].rows, id) is Some,
    ensures
        holders(all, id) > 0,
    decreases all.len(),
{
    if p < all.len() - 1 {
        assert(all.drop_last()[p] == all[p]);
        lemma_holders_positive(all.drop_last(), p, id);
    }
}

/// An id that is met has a group.
proof fn lemma_group_nonempty(
    all: Seq<PartView>,
    ov: Seq<(Seq<char>, bool)>,
    req: ScanView,
    id: Seq<char>,
)
    requires
        met(all, ov, req, id),
    ensures
        group_entries(all, ov, id) > 0,
        !in_overlay(ov, id) ==> holders(all, id) > 0,
{
    if !in_overlay(ov, id) {
        let p = choose|p: int|
            0 <= p < all.len() && part::row_of((#[trigger] all[p]).rows, id) is Some;
        lemma_holders_positive(all, p, id);
    }
}

/// The overlay's entry for an id is the one at its position.
proof fn lemma_overlay_live(
    ov: Seq<(Seq<char>, bool)>,
    req: ScanView,
    oi: int,
    best: Seq<char>,
)
    requires
        overlay_ok(ov, req),
        0 <= oi < ov.len(),
        ov[oi].0 == best,
    ensures
        overlay_live(ov, best) == ov[oi].1,
{
    if overlay_live(ov, best) {
        let k = choose|k: int| 0 <= k < ov.len() && (#[trigger] ov[k]).0 == best && ov[k].1;
        lemma_precedes(req.reverse, best, best, best);
        if k < oi {
            assert(precedes(req.reverse, ov[k].0, ov[oi].0));
        } else if oi < k {
            assert(precedes(req.reverse, ov[oi].0, ov[k].0));
        }
    }
}

/// Past a resolved id the overlay's position is right again.
proof fn lemma_overlay_advance(
    ov: Seq<(Seq<char>, bool)>,
    req: ScanView,
    after: Option<Seq<char>>,
    best: Seq<char>,
    oi: int,
    matched: bool,
)
    requires
        overlay_ok(ov, req),
        beyond(req.reverse, after, best),
        ({
            let o = if matched {
                oi - 1
            } else {
                oi
            };
            &&& 0 <= o <= ov.len()
            &&& matched ==> o < ov.len() && ov[o].0 == best
            &&& !matched && o < ov.len() ==> ov[o].0 != best
            &&& o < ov.len() ==> ov[o].0 == best || precedes(req.reverse, best, ov[o].0)
            &&& forall|k: int|
                0 <= k < ov.len() ==> (o <= k <==> beyond(
                    req.reverse,
                    after,
                    (#[trigger] ov[k]).0,
                ))
        }),
    ensures
        forall|k: int|
            0 <= k < ov.len() ==> (oi <= k <==> beyond(
                req.reverse,
                Some(best),
                (#[trigger] ov[k]).0,
            )),
{
    let rev = req.reverse;
    let o = if matched {
        oi - 1
    } else {
        oi
    };
    assert forall|k: int| 0 <= k < ov.len() implies (oi <= k <==> beyond(
        rev,
        Some(best),
        (#[trigger] ov[k]).0,
    )) by {
        let id = ov[k].0;
        lemma_precedes(rev, best, id, best);
        if after is Some {
            lemma_precedes(rev, after->0, best, id);
        }
        if o < k {
            assert(precedes(rev, ov[o].0, ov[k].0));
            lemma_precedes(rev, best, ov[o].0, id);
        }
    }
}

/// The ids of resolved rows.
pub open spec fn ids_of(rows: Seq<RowRefView>) -> Seq<Seq<char>> {
    Seq::new(rows.len(), |i: int| rows[i].id)
}

/// Views of texts.
pub open spec fn texts_view(s: Seq<String>) -> Seq<Seq<char>> {
    Seq::new(s.len(), |i: int| s[i]@)
}

pub(crate) fn take_ids(rows: &Vec<RowRef>) -> (r: Vec<String>)
    ensures
        texts_view(r@) == ids_of(row_refs_view(rows@)),
{
    let mut out: Vec<String> = Vec::new();
    let mut i: usize = 0;
    while i < rows.len()
        invariant
            i <= rows@.len(),
            out@.len() == i,
            forall|k: int| 0 <= k < i ==> (#[trigger] out@[k])@ == rows@[k].id@,
        decreases rows.len() - i,
    {
        out.push(rows[i].id.clone());
        i = i + 1;
    }
    assert(texts_view(out@) =~= ids_of(row_refs_view(rows@)));
    out
}

/// What an id scan of committed parts asks for.
pub open spec fn plain_scan(
    from: Option<Seq<char>>,
    to: Option<Seq<char>>,
    limit: usize,
    reverse: bool,
) -> ScanView {
    ScanView {
        from,
        to,
        limit: limit as nat,
        reverse,
        max_entries: usize::MAX as nat,
        allow_oversized: true,
    }
}

/// Live ids of a half-open range, in id order or reversed, up to a limit.
pub fn scan_ids(
    parts: &Vec<Part>,
    from: Option<&str>,
    to: Option<&str>,
    limit: usize,
    reverse: bool,
) -> (r: Vec<String>)
    requires
        part::parts_sound(part::parts_view(parts@)),
        read::rows_total(part::parts_view(parts@), 0) <= usize::MAX,
    ensures
        texts_view(r@) == ids_of(
            scanned(
                part::parts_view(parts@),
                Seq::empty(),
                plain_scan(part::bound_view(from), part::bound_view(to), limit, reverse),
            ).rows,
        ),
{
    let overlay: Vec<(&str, bool)> = Vec::new();
    assert(overlay_view(overlay@) =~= Seq::<(Seq<char>, bool)>::empty());
    let batch = scan_rows(
        parts,
        &overlay,
        RowScan {
            from,
            to,
            limit,
            reverse,
            max_resolution_entries: usize::MAX,
            allow_oversized_group: true,
        },
    );
    take_ids(&batch.rows)
}

/// Sorted texts without repetition.
pub open spec fn ascending(s: Seq<Seq<char>>) -> bool {
    forall|i: int, j: int|
        0 <= i < j < s.len() ==> bytes::name_lt(#[trigger] s[i], #[trigger] s[j])
}

/// Every live committed id, sorted.
pub fn ids(parts: &Vec<Part>) -> (r: Vec<String>)
    requires
        part::parts_sound(part::parts_view(parts@)),
        read::rows_total(part::parts_view(parts@), 0) <= usize::MAX,
    ensures
        ascending(texts_view(r@)),
        forall|id: Seq<char>|
            #[trigger] texts_view(r@).contains(id) <==> read::current(
                part::parts_view(parts@),
                id,
            ) is Some,
{
    let ghost all = part::parts_view(parts@);
    let ghost none = Seq::<(Seq<char>, bool)>::empty();
    let overlay: Vec<(&str, bool)> = Vec::new();
    assert(overlay_view(overlay@) =~= none);
    let request = RowScan {
        from: None,
        to: None,
        limit: usize::MAX,
        reverse: false,
        max_resolution_entries: usize::MAX,
        allow_oversized_group: true,
    };
    let batch = scan_rows(parts, &overlay, request);
    let r = take_ids(&batch.rows);
    proof {
        let req = request@;
        let rows = batch@.rows;
        scan_laws::lemma_scan_faithful(all, none, req);
        let out = texts_view(r@);
        assert forall|i: int, j: int| 0 <= i < j < out.len() implies bytes::name_lt(
            #[trigger] out[i],
            #[trigger] out[j],
        ) by {
            assert(out[i] == rows[i].id && out[j] == rows[j].id);
        }
        assert forall|id: Seq<char>| #[trigger] out.contains(id) <==> read::current(
            all,
            id,
        ) is Some by {
            read::lemma_newest(all, id);
            if out.contains(id) {
                let i = choose|i: int| 0 <= i < out.len() && out[i] == id;
                assert(rows[i].id == id);
                assert(scan_laws::live(all, none, rows[i].id));
            }
            if read::current(all, id) is Some {
                let (p, row) = read::newest(all, id)->0;
                assert(part::row_of(all[p as int].rows, id) is Some);
                assert(in_parts(all, id));
                assert(met(all, none, req, id));
                scan_laws::lemma_scan_complete(all, none, req, id);
                let i = choose|i: int| 0 <= i < rows.len() && (#[trigger] rows[i]).id == id;
                assert(out[i] == id);
            }
        }
    }
    r
}

// ---------------------------------------------------------------------------------------------
// Scope and pruning.
// ---------------------------------------------------------------------------------------------
/// How much of the parts a range reaches, before versions are resolved.
#[derive(Clone, Copy, Debug, PartialEq, Eq, Structural)]
pub struct ScanPhysicalScope {
    pub immutable_parts_considered: usize,
    pub immutable_parts_with_rows: usize,
    pub immutable_rows_in_bounds: usize,
}

/// How many of the first `n` rows lie in a range.
pub open spec fn in_bounds(
    rows: Seq<part::RowView>,
    from: Option<Seq<char>>,
    to: Option<Seq<char>>,
    n: nat,
) -> nat
    decreases n,
{
    if n == 0 {
        0
    } else {
        in_bounds(rows, from, to, (n - 1) as nat) + if part::in_range(
            rows[n - 1].id,
            from,
            to,
        ) {
            1nat
        } else {
            0
        }
    }
}

/// How many rows of the first `n` parts lie in a range.
pub open spec fn rows_in_bounds(
    parts: Seq<PartView>,
    from: Option<Seq<char>>,
    to: Option<Seq<char>>,
    n: nat,
) -> nat
    decreases n,
{
    if n == 0 {
        0
    } else {
        rows_in_bounds(parts, from, to, (n - 1) as nat) + in_bounds(
            parts[n - 1].rows,
            from,
            to,
            parts[n - 1].rows.len(),
        )
    }
}

/// How many of the first `n` parts have a row in a range.
pub open spec fn parts_in_bounds(
    parts: Seq<PartView>,
    from: Option<Seq<char>>,
    to: Option<Seq<char>>,
    n: nat,
) -> nat
    decreases n,
{
    if n == 0 {
        0
    } else {
        parts_in_bounds(parts, from, to, (n - 1) as nat) + if in_bounds(
            parts[n - 1].rows,
            from,
            to,
            parts[n - 1].rows.len(),
        ) > 0 {
            1nat
        } else {
            0
        }
    }
}

proof fn lemma_window_count(
    rows: Seq<part::RowView>,
    from: Option<Seq<char>>,
    to: Option<Seq<char>>,
    lo: int,
    hi: int,
    n: nat,
)
    requires
        0 <= lo <= hi,
        n <= rows.len(),
        forall|i: int|
            0 <= i < rows.len() ==> (lo <= i < hi <==> part::in_range(
                #[trigger] rows[i].id,
                from,
                to,
            )),
    ensures
        in_bounds(rows, from, to, n) == if n <= lo {
            0
        } else if n <= hi {
            n - lo
        } else {
            hi - lo
        },
    decreases n,
{
    if n > 0 {
        lemma_window_count(rows, from, to, lo, hi, (n - 1) as nat);
        assert(lo <= n - 1 < hi <==> part::in_range(rows[n - 1].id, from, to));
    }
}

/// The rows and parts a range reaches; `None` where the row count does not fit.
pub fn scan_physical_scope(parts: &Vec<Part>, from: Option<&str>, to: Option<&str>) -> (r: Option<
    ScanPhysicalScope,
>)
    requires
        part::parts_sound(part::parts_view(parts@)),
    ensures
        ({
            let all = part::parts_view(parts@);
            let (f, t) = (part::bound_view(from), part::bound_view(to));
            match r {
                Some(s) => {
                    &&& s.immutable_parts_considered == all.len()
                    &&& s.immutable_parts_with_rows == parts_in_bounds(all, f, t, all.len())
                    &&& s.immutable_rows_in_bounds == rows_in_bounds(all, f, t, all.len())
                },
                None => rows_in_bounds(all, f, t, all.len()) > usize::MAX,
            }
        }),
{
    let ghost all = part::parts_view(parts@);
    let ghost f = part::bound_view(from);
    let ghost t = part::bound_view(to);
    let mut with_rows: usize = 0;
    let mut rows: usize = 0;
    let mut p: usize = 0;
    while p < parts.len()
        invariant
            all == part::parts_view(parts@),
            part::parts_sound(all),
            f == part::bound_view(from),
            t == part::bound_view(to),
            p <= parts@.len(),
            with_rows <= p,
            with_rows == parts_in_bounds(all, f, t, p as nat),
            rows == rows_in_bounds(all, f, t, p as nat),
        decreases parts.len() - p,
    {
        assert(all[p as int] == parts@[p as int]@);
        assert(part::part_sound(all[p as int]));
        let (lo, hi) = parts[p].rows_in_range(from, to);
        proof {
            lemma_window_count(
                all[p as int].rows,
                f,
                t,
                lo as int,
                hi as int,
                all[p as int].rows.len(),
            );
        }
        if hi > lo {
            with_rows = with_rows + 1;
        }
        rows =
        match rows.checked_add(hi - lo) {
            Some(n) => n,
            None => {
                proof {
                    lemma_rows_in_bounds_monotone(all, f, t, (p + 1) as nat, all.len());
                }
                return None;
            },
        };
        p = p + 1;
    }
    Some(
        ScanPhysicalScope {
            immutable_parts_considered: parts.len(),
            immutable_parts_with_rows: with_rows,
            immutable_rows_in_bounds: rows,
        },
    )
}

proof fn lemma_rows_in_bounds_monotone(
    parts: Seq<PartView>,
    from: Option<Seq<char>>,
    to: Option<Seq<char>>,
    k: nat,
    n: nat,
)
    requires
        k <= n,
    ensures
        rows_in_bounds(parts, from, to, k) <= rows_in_bounds(parts, from, to, n),
    decreases n,
{
    if k < n {
        lemma_rows_in_bounds_monotone(parts, from, to, k, (n - 1) as nat);
    }
}

/// One condition of a scan, as far as a whole part can speak to it.
#[derive(Clone, Copy, Debug)]
pub enum PartPredicate<'a> {
    /// A comparison; the part's own statistics said whether some row may meet it.
    Attr { may_match: bool },
    /// An attribute is present, or absent.
    AttrExists { name: &'a str, present: bool },
    /// A content value is present, or absent.
    ContentExists { name: &'a str, present: bool },
    /// Anything a part cannot rule out as a whole.
    Id,
}

/// Whether some record of a part has an attribute.
pub open spec fn has_attr(p: PartView, name: Seq<char>) -> bool {
    exists|i: int, k: int|
        0 <= i < p.rows.len() && p.rows[i].record is Some && 0 <= k
            < p.rows[i].record->0.attrs.len() && (#[trigger] p.rows[i].record->0.attrs[k]).0 == name
}

/// Whether some record of a part has a content value.
pub open spec fn has_content(p: PartView, name: Seq<char>) -> bool {
    exists|i: int, k: int|
        0 <= i < p.rows.len() && p.rows[i].record is Some && 0 <= k
            < p.rows[i].record->0.contents.len() && (
        #[trigger] p.rows[i].record->0.contents[k]).name == name
}

/// Whether a part may hold a row that meets a condition.
pub open spec fn may_match(p: PartView, c: PartPredicate) -> bool {
    match c {
        PartPredicate::Attr { may_match } => may_match,
        PartPredicate::AttrExists { name, present } => present ==> has_attr(p, name@),
        PartPredicate::ContentExists { name, present } => present ==> has_content(p, name@),
        PartPredicate::Id => true,
    }
}

fn row_has_attr(record: &crate::types::Record, name: &str) -> (r: bool)
    ensures
        r == exists|k: int| 0 <= k < record@.attrs.len() && (#[trigger] record@.attrs[k]).0 == name@,
{
    let mut k: usize = 0;
    while k < record.attrs.len()
        invariant
            k <= record.attrs@.len(),
            forall|j: int| 0 <= j < k ==> (#[trigger] record@.attrs[j]).0 != name@,
        decreases record.attrs.len() - k,
    {
        assert(record@.attrs[k as int].0 == record.attrs@[k as int].0@);
        if bytes::str_eq(record.attrs[k].0.as_str(), name) {
            return true;
        }
        k = k + 1;
    }
    false
}

fn row_has_content(record: &crate::types::Record, name: &str) -> (r: bool)
    ensures
        r == exists|k: int|
            0 <= k < record@.contents.len() && (#[trigger] record@.contents[k]).name == name@,
{
    let mut k: usize = 0;
    while k < record.contents.len()
        invariant
            k <= record.contents@.len(),
            forall|j: int| 0 <= j < k ==> (#[trigger] record@.contents[j]).name != name@,
        decreases record.contents.len() - k,
    {
        assert(record@.contents[k as int] == record.contents@[k as int]@);
        if bytes::str_eq(record.contents[k].name.as_str(), name) {
            return true;
        }
        k = k + 1;
    }
    false
}

impl Part {
    /// Whether some record has an attribute.
    pub fn has_attribute_name(&self, name: &str) -> (r: bool)
        ensures
            r == has_attr(self@, name@),
    {
        let ghost p = self@;
        let mut i: usize = 0;
        while i < self.rows.len()
            invariant
                p == self@,
                i <= self.rows@.len(),
                forall|j: int, k: int|
                    0 <= j < i && p.rows[j].record is Some && 0 <= k < p.rows[j].record->0.attrs.len()
                        ==> (#[trigger] p.rows[j].record->0.attrs[k]).0 != name@,
            decreases self.rows.len() - i,
        {
            assert(p.rows[i as int] == self.rows@[i as int]@);
            if let Some(record) = &self.rows[i].record {
                if row_has_attr(record, name) {
                    let ghost k = choose|k: int|
                        0 <= k < record@.attrs.len() && (#[trigger] record@.attrs[k]).0 == name@;
                    assert(p.rows[i as int].record->0.attrs[k].0 == name@);
                    return true;
                }
            }
            i = i + 1;
        }
        false
    }

    /// Whether some record has a content value.
    pub fn has_content_name(&self, name: &str) -> (r: bool)
        ensures
            r == has_content(self@, name@),
    {
        let ghost p = self@;
        let mut i: usize = 0;
        while i < self.rows.len()
            invariant
                p == self@,
                i <= self.rows@.len(),
                forall|j: int, k: int|
                    0 <= j < i && p.rows[j].record is Some && 0 <= k < p.rows[j].record->0.contents.len()
                        ==> (#[trigger] p.rows[j].record->0.contents[k]).name != name@,
            decreases self.rows.len() - i,
        {
            assert(p.rows[i as int] == self.rows@[i as int]@);
            if let Some(record) = &self.rows[i].record {
                if row_has_content(record, name) {
                    let ghost k = choose|k: int|
                        0 <= k < record@.contents.len() && (
                        #[trigger] record@.contents[k]).name == name@;
                    assert(p.rows[i as int].record->0.contents[k].name == name@);
                    return true;
                }
            }
            i = i + 1;
        }
        false
    }
}

/// Whether a part may hold a row that meets every condition.
pub fn part_may_match(p: &Part, predicates: &Vec<PartPredicate<'_>>) -> (r: bool)
    ensures
        r == forall|i: int| 0 <= i < predicates@.len() ==> may_match(p@, #[trigger] predicates@[i]),
{
    let mut i: usize = 0;
    while i < predicates.len()
        invariant
            i <= predicates@.len(),
            forall|k: int| 0 <= k < i ==> may_match(p@, #[trigger] predicates@[k]),
        decreases predicates.len() - i,
    {
        let possible = match predicates[i] {
            PartPredicate::Attr { may_match } => may_match,
            PartPredicate::AttrExists { name, present } => !present || p.has_attribute_name(name),
            PartPredicate::ContentExists { name, present } => !present || p.has_content_name(name),
            PartPredicate::Id => true,
        };
        assert(possible == may_match(p@, predicates@[i as int]));
        if !possible {
            return false;
        }
        i = i + 1;
    }
    true
}

} // verus!
