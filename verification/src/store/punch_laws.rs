//! Laws of punching: exactly the blocks that nothing shown reaches are given up, exactly those
//! outside the active segment are handed out, and the counts add up.

use crate::fold;
use crate::fold::{FoldView, Loc};
use crate::part;
use crate::part::PartView;
use crate::store::engine::StoreView;
use crate::store::liveness;
use crate::store::punch;
use crate::store::read;
use crate::store::read::Verdict;
use crate::store::sum_laws;
use crate::types::{ContentView, OpView};
use vstd::prelude::*;

verus! {

// ---------------------------------------------------------------------------------------------
// What is deallocated.
// ---------------------------------------------------------------------------------------------
proof fn lemma_outside_segment(segments: Seq<u32>, dead: Seq<u32>, active: u32, n: nat)
    requires
        n <= dead.len(),
    ensures
        punch::outside_segment(segments, dead, active, n) == dead.take(n as int).filter(
            |id: u32| segments[id as int] != active,
        ),
    decreases n,
{
    reveal(Seq::filter);
    if n > 0 {
        lemma_outside_segment(segments, dead, active, (n - 1) as nat);
        assert(dead.take(n as int).drop_last() =~= dead.take(n - 1));
        assert(dead.take(n as int).last() == dead[n - 1]);
    } else {
        assert(dead.take(0) =~= Seq::<u32>::empty());
    }
}

/// A dead block is handed out exactly where its segment is not the active one, in the order of the
/// list; as many are handed out as were examined, but for those in the active segment.
pub proof fn lemma_targets(segments: Seq<u32>, dead: Seq<u32>, active: u32)
    ensures
        ({
            let targets = punch::outside_segment(segments, dead, active, dead.len());
            &&& targets == dead.filter(|id: u32| segments[id as int] != active)
            &&& forall|id: u32| #[trigger]
                targets.contains(id) <==> dead.contains(id) && segments[id as int] != active
            &&& targets.len() + sum_laws::count(
                dead.len(),
                |i: int| segments[dead[i] as int] == active,
            ) == dead.len()
            &&& (forall|i: int|
                0 <= i < dead.len() ==> segments[#[trigger] dead[i] as int] != active)
                ==> targets == dead
        }),
{
    let keep = |id: u32| segments[id as int] != active;
    let targets = punch::outside_segment(segments, dead, active, dead.len());
    lemma_outside_segment(segments, dead, active, dead.len());
    assert(dead.take(dead.len() as int) =~= dead);
    sum_laws::lemma_filter_counts(dead, keep);
    assert forall|id: u32| #[trigger] targets.contains(id) <==> dead.contains(id)
        && segments[id as int] != active by {
        assert(dead.filter(keep).contains(id) <==> dead.contains(id) && keep(id));
    }
    sum_laws::lemma_count_same(
        dead.len(),
        |i: int| !keep(dead[i]),
        |i: int| segments[dead[i] as int] == active,
    );
    if forall|i: int| 0 <= i < dead.len() ==> segments[#[trigger] dead[i] as int] != active {
        lemma_all_kept(segments, dead, active, dead.len());
    }
}

proof fn lemma_all_kept(segments: Seq<u32>, dead: Seq<u32>, active: u32, n: nat)
    requires
        n <= dead.len(),
        forall|i: int| 0 <= i < dead.len() ==> segments[#[trigger] dead[i] as int] != active,
    ensures
        punch::outside_segment(segments, dead, active, n) =~= dead.take(n as int),
    decreases n,
{
    if n > 0 {
        lemma_all_kept(segments, dead, active, (n - 1) as nat);
        assert(segments[dead[n - 1] as int] != active);
        assert(dead.take(n - 1).push(dead[n - 1]) =~= dead.take(n as int));
    }
    if n == dead.len() {
        assert(dead.take(n as int) =~= dead);
    }
}

// ---------------------------------------------------------------------------------------------
// What is live.
// ---------------------------------------------------------------------------------------------
/// Whether step `k` of content `c` of a row names a piece that the part's dictionary puts at a
/// location.
pub open spec fn names_loc(p: PartView, row: int, c: int, k: int, loc: Loc) -> bool {
    &&& 0 <= row < p.rows.len()
    &&& p.rows[row].record is Some
    &&& 0 <= c < p.rows[row].record->0.contents.len()
    &&& 0 <= k < p.rows[row].record->0.contents[c].ops.len()
    &&& (p.rows[row].record->0.contents[c].ops[k] matches OpView::Piece { hash, len: _ }
        && part::find_loc(p.pieces, hash) == Some(loc))
}

/// Whether the record shown for some id reaches a location.
pub open spec fn reached(parts: Seq<PartView>, loc: Loc) -> bool {
    exists|id: Seq<char>, c: int, k: int| #[trigger] reaches(parts, id, c, k, loc)
}

/// Whether a step of the record shown for an id reaches a location.
pub open spec fn reaches(parts: Seq<PartView>, id: Seq<char>, c: int, k: int, loc: Loc) -> bool {
    match read::located(parts, id) {
        Some((p, row)) => p < parts.len() && names_loc(parts[p as int], row as int, c, k, loc),
        None => false,
    }
}

/// Whether one of the first `n` steps of a program reaches a location.
pub open spec fn program_from(dict: Seq<(Seq<u8>, Loc)>, ops: Seq<OpView>, n: nat, loc: Loc) -> bool {
    exists|k: int|
        0 <= k < n && (#[trigger] ops[k] matches OpView::Piece { hash, len: _ } && part::find_loc(
            dict,
            hash,
        ) == Some(loc))
}

proof fn lemma_with_unique(acc: Seq<Loc>, x: Loc)
    requires
        acc.no_duplicates(),
    ensures
        liveness::with_loc(acc, x).no_duplicates(),
        forall|loc: Loc| #[trigger]
            liveness::with_loc(acc, x).contains(loc) ==> acc.contains(loc) || loc == x,
{
    let out = liveness::with_loc(acc, x);
    if !acc.contains(x) {
        assert forall|loc: Loc| #[trigger] out.contains(loc) implies acc.contains(loc)
            || loc == x by {
            let i = choose|i: int| 0 <= i < out.len() && out[i] == loc;
            if i < acc.len() {
                assert(acc[i] == loc);
            }
        }
    }
}

proof fn lemma_program_from(dict: Seq<(Seq<u8>, Loc)>, ops: Seq<OpView>, n: nat, acc: Seq<Loc>)
    requires
        n <= ops.len(),
        acc.no_duplicates(),
    ensures
        liveness::program_locs(dict, ops, n, acc).no_duplicates(),
        forall|loc: Loc| #[trigger]
            liveness::program_locs(dict, ops, n, acc).contains(loc) ==> acc.contains(loc)
                || program_from(dict, ops, n, loc),
    decreases n,
{
    if n > 0 {
        lemma_program_from(dict, ops, (n - 1) as nat, acc);
        let before = liveness::program_locs(dict, ops, (n - 1) as nat, acc);
        let out = liveness::program_locs(dict, ops, n, acc);
        if let OpView::Piece { hash, len: _ } = ops[n - 1] {
            if let Some(loc) = part::find_loc(dict, hash) {
                lemma_with_unique(before, loc);
            }
        }
        assert forall|loc: Loc| #[trigger] out.contains(loc) implies acc.contains(loc)
            || program_from(dict, ops, n, loc) by {
            if before.contains(loc) && program_from(dict, ops, (n - 1) as nat, loc) {
                let k = choose|k: int|
                    0 <= k < n - 1 && (#[trigger] ops[k] matches OpView::Piece { hash, len: _ }
                        && part::find_loc(dict, hash) == Some(loc));
                assert(ops[k] is Piece);
            }
            if !before.contains(loc) {
                assert(ops[n - 1] is Piece);
            }
        }
    }
}

/// Whether one of the first `n` contents reaches a location.
pub open spec fn contents_from(
    dict: Seq<(Seq<u8>, Loc)>,
    contents: Seq<ContentView>,
    n: nat,
    loc: Loc,
) -> bool {
    exists|c: int|
        0 <= c < n && program_from(
            dict,
            (#[trigger] contents[c]).ops,
            contents[c].ops.len(),
            loc,
        )
}

pub proof fn lemma_contents_from(
    dict: Seq<(Seq<u8>, Loc)>,
    contents: Seq<ContentView>,
    n: nat,
    acc: Seq<Loc>,
)
    requires
        n <= contents.len(),
        acc.no_duplicates(),
    ensures
        liveness::contents_locs(dict, contents, n, acc).no_duplicates(),
        forall|loc: Loc| #[trigger]
            liveness::contents_locs(dict, contents, n, acc).contains(loc) ==> acc.contains(loc)
                || contents_from(dict, contents, n, loc),
    decreases n,
{
    if n > 0 {
        lemma_contents_from(dict, contents, (n - 1) as nat, acc);
        let before = liveness::contents_locs(dict, contents, (n - 1) as nat, acc);
        let out = liveness::contents_locs(dict, contents, n, acc);
        let ops = contents[n - 1].ops;
        lemma_program_from(dict, ops, ops.len(), before);
        assert forall|loc: Loc| #[trigger] out.contains(loc) implies acc.contains(loc)
            || contents_from(dict, contents, n, loc) by {
            if before.contains(loc) && contents_from(dict, contents, (n - 1) as nat, loc) {
                let c = choose|c: int|
                    0 <= c < n - 1 && program_from(
                        dict,
                        (#[trigger] contents[c]).ops,
                        contents[c].ops.len(),
                        loc,
                    );
                assert(program_from(dict, contents[c].ops, contents[c].ops.len(), loc));
            }
            if program_from(dict, ops, ops.len(), loc) {
                assert(program_from(dict, contents[n - 1].ops, contents[n - 1].ops.len(), loc));
            }
        }
    }
}

proof fn lemma_rows_from(parts: Seq<PartView>, p: int, n: nat, acc: Seq<Loc>)
    requires
        part::parts_sound(parts),
        0 <= p < parts.len(),
        n <= parts[p].rows.len(),
        acc.no_duplicates(),
    ensures
        liveness::rows_locs(parts, p, n, acc).no_duplicates(),
        forall|loc: Loc| #[trigger]
            liveness::rows_locs(parts, p, n, acc).contains(loc) ==> acc.contains(loc) || reached(
                parts,
                loc,
            ),
    decreases n,
{
    if n > 0 {
        lemma_rows_from(parts, p, (n - 1) as nat, acc);
        let before = liveness::rows_locs(parts, p, (n - 1) as nat, acc);
        let out = liveness::rows_locs(parts, p, n, acc);
        if read::verdict(parts, p, n - 1) == Verdict::Live {
            let dict = parts[p].pieces;
            let contents = parts[p].rows[n - 1].record->0.contents;
            let id = parts[p].rows[n - 1].id;
            lemma_contents_from(dict, contents, contents.len(), before);
            read::lemma_live_is_located(parts, p, n - 1);
            assert forall|loc: Loc| #[trigger] out.contains(loc) implies acc.contains(loc)
                || reached(parts, loc) by {
                if !before.contains(loc) {
                    assert(contents_from(dict, contents, contents.len(), loc));
                    let c = choose|c: int|
                        0 <= c < contents.len() && program_from(
                            dict,
                            (#[trigger] contents[c]).ops,
                            contents[c].ops.len(),
                            loc,
                        );
                    let ops = contents[c].ops;
                    let k = choose|k: int|
                        0 <= k < ops.len() && (#[trigger] ops[k] matches OpView::Piece {
                            hash,
                            len: _,
                        } && part::find_loc(dict, hash) == Some(loc));
                    assert(names_loc(parts[p], n - 1, c, k, loc));
                    assert(reaches(parts, id, c, k, loc));
                }
            }
        }
    }
}

proof fn lemma_live_from(parts: Seq<PartView>, n: nat)
    requires
        part::parts_sound(parts),
        n <= parts.len(),
    ensures
        liveness::live_locs(parts, n).no_duplicates(),
        forall|loc: Loc| #[trigger]
            liveness::live_locs(parts, n).contains(loc) ==> reached(parts, loc),
    decreases n,
{
    if n > 0 {
        lemma_live_from(parts, (n - 1) as nat);
        lemma_rows_from(
            parts,
            n - 1,
            parts[n - 1].rows.len(),
            liveness::live_locs(parts, (n - 1) as nat),
        );
    }
}

/// The live locations are those that some shown record reaches, each once.
pub proof fn lemma_live_exactly(parts: Seq<PartView>)
    requires
        part::parts_sound(parts),
    ensures
        liveness::live_locs(parts, parts.len()).no_duplicates(),
        forall|loc: Loc| #[trigger]
            liveness::live_locs(parts, parts.len()).contains(loc) <==> reached(parts, loc),
{
    lemma_live_from(parts, parts.len());
    assert forall|loc: Loc| reached(parts, loc) implies #[trigger] liveness::live_locs(
        parts,
        parts.len(),
    ).contains(loc) by {
        let (id, c, k) = choose|id: Seq<char>, c: int, k: int| #[trigger]
            reaches(parts, id, c, k, loc);
        let (p, row) = read::located(parts, id)->0;
        read::lemma_newest(parts, id);
        read::lemma_live_is_located(parts, p as int, row as int);
        liveness::lemma_live_reaches(parts, parts.len(), p as int, row as int, c, k, loc);
    }
}

/// A block is dead exactly where no shown record reaches into it.
pub proof fn lemma_dead_exactly(s: StoreView, id: u32)
    requires
        part::parts_sound(s.parts),
        s.writer.fold.blocks.len() <= u32::MAX,
    ensures
        punch::store_dead(s).contains(id) <==> id < s.writer.fold.blocks.len() && forall|loc: Loc|
            #[trigger] reached(s.parts, loc) ==> loc.block_id != id,
{
    let n = s.writer.fold.blocks.len();
    let locs = liveness::live_locs(s.parts, s.parts.len());
    punch::lemma_dead_blocks(locs, n);
    lemma_live_exactly(s.parts);
    if punch::block_live(locs, id) {
        let i = choose|i: int| 0 <= i < locs.len() && (#[trigger] locs[i]).block_id == id;
        assert(locs.contains(locs[i]));
    }
    if !forall|loc: Loc| #[trigger] reached(s.parts, loc) ==> loc.block_id != id {
        let loc = choose|loc: Loc| #[trigger] reached(s.parts, loc) && loc.block_id == id;
        assert(locs.contains(loc));
        let i = choose|i: int| 0 <= i < locs.len() && locs[i] == loc;
        assert(locs[i].block_id == id);
    }
}

// ---------------------------------------------------------------------------------------------
// What is counted.
// ---------------------------------------------------------------------------------------------
/// Whether a block was not given up and some location lies in it.
pub open spec fn in_use(f: FoldView, locs: Seq<Loc>, id: int) -> bool {
    !fold::in_ranges(f.punched, id as u32) && exists|i: int|
        0 <= i < locs.len() && (#[trigger] locs[i]).block_id == id
}

/// Whether a block was not given up and no location lies in it.
pub open spec fn out_of_use(f: FoldView, locs: Seq<Loc>, id: int) -> bool {
    !fold::in_ranges(f.punched, id as u32) && forall|i: int|
        0 <= i < locs.len() ==> (#[trigger] locs[i]).block_id != id
}

/// What a block counts for, where it counts.
pub open spec fn counted_as(counts: bool, n: nat) -> nat {
    if counts {
        n
    } else {
        0
    }
}

proof fn lemma_sums(f: FoldView, stored: Seq<u64>, locs: Seq<Loc>, n: nat)
    requires
        n <= f.blocks.len() <= u32::MAX,
    ensures
        punch::block_count(f, locs, true, n) == sum_laws::count(n, |i: int| in_use(f, locs, i)),
        punch::block_count(f, locs, false, n) == sum_laws::count(
            n,
            |i: int| out_of_use(f, locs, i),
        ),
        punch::raw_total(f, locs, true, n) == sum_laws::sum(
            n,
            |i: int| counted_as(in_use(f, locs, i), f.blocks[i].bytes.len()),
        ),
        punch::raw_total(f, locs, false, n) == sum_laws::sum(
            n,
            |i: int| counted_as(out_of_use(f, locs, i), f.blocks[i].bytes.len()),
        ),
        punch::stored_total(f, stored, locs, true, n) == sum_laws::sum(
            n,
            |i: int| counted_as(in_use(f, locs, i), stored[i] as nat),
        ),
        punch::stored_total(f, stored, locs, false, n) == sum_laws::sum(
            n,
            |i: int| counted_as(out_of_use(f, locs, i), stored[i] as nat),
        ),
    decreases n,
{
    let m = (n - 1) as nat;
    let used = |i: int| in_use(f, locs, i);
    let free = |i: int| out_of_use(f, locs, i);
    let a = |i: int| counted_as(in_use(f, locs, i), f.blocks[i].bytes.len());
    let b = |i: int| counted_as(out_of_use(f, locs, i), f.blocks[i].bytes.len());
    let c = |i: int| counted_as(in_use(f, locs, i), stored[i] as nat);
    let d = |i: int| counted_as(out_of_use(f, locs, i), stored[i] as nat);
    sum_laws::lemma_count(m, used);
    sum_laws::lemma_count(m, free);
    sum_laws::lemma_sum(m, a);
    sum_laws::lemma_sum(m, b);
    sum_laws::lemma_sum(m, c);
    sum_laws::lemma_sum(m, d);
    if n > 0 {
        lemma_sums(f, stored, locs, m);
        let id = (n - 1) as u32;
        assert(punch::counts(f, locs, true, id) == in_use(f, locs, n - 1));
        assert(punch::counts(f, locs, false, id) == out_of_use(f, locs, n - 1));
    }
}

proof fn lemma_piece_sum(locs: Seq<Loc>, n: nat)
    requires
        n <= locs.len(),
    ensures
        punch::piece_bytes(locs, n) == sum_laws::sum(n, |i: int| locs[i].raw as nat),
    decreases n,
{
    sum_laws::lemma_sum((n - 1) as nat, |i: int| locs[i].raw as nat);
    if n > 0 {
        lemma_piece_sum(locs, (n - 1) as nat);
    }
}

/// What a liveness report says: the pieces that shown records reach and their bytes; the blocks
/// some of them lie in, and the other blocks that were not given up, each with their bytes decoded
/// and stored; and of the decoded bytes those that no live piece covers.
pub proof fn lemma_liveness(f: FoldView, stored: Seq<u64>, locs: Seq<Loc>)
    requires
        f.blocks.len() <= u32::MAX,
        punch::liveness_of(f, stored, locs) is Ok,
        locs.len() <= u64::MAX,
    ensures
        ({
            let r = punch::liveness_of(f, stored, locs)->Ok_0;
            let n = f.blocks.len();
            &&& r.live_pieces == locs.len()
            &&& r.live_logical_bytes == sum_laws::sum(locs.len(), |i: int| locs[i].raw as nat)
            &&& r.live_blocks.blocks == sum_laws::count(n, |i: int| in_use(f, locs, i))
            &&& r.reclaimable_blocks.blocks == sum_laws::count(
                n,
                |i: int| out_of_use(f, locs, i),
            )
            &&& r.live_blocks.raw_bytes == sum_laws::sum(
                n,
                |i: int| counted_as(in_use(f, locs, i), f.blocks[i].bytes.len()),
            )
            &&& r.reclaimable_blocks.raw_bytes == sum_laws::sum(
                n,
                |i: int| counted_as(out_of_use(f, locs, i), f.blocks[i].bytes.len()),
            )
            &&& r.live_blocks.stored_bytes == sum_laws::sum(
                n,
                |i: int| counted_as(in_use(f, locs, i), stored[i] as nat),
            )
            &&& r.reclaimable_blocks.stored_bytes == sum_laws::sum(
                n,
                |i: int| counted_as(out_of_use(f, locs, i), stored[i] as nat),
            )
            &&& r.live_logical_bytes + r.stranded_dead_logical_bytes == r.live_blocks.raw_bytes
            &&& r.dead_logical_bytes == r.stranded_dead_logical_bytes
                + r.reclaimable_blocks.raw_bytes
            &&& r.live_logical_bytes + r.dead_logical_bytes == r.live_blocks.raw_bytes
                + r.reclaimable_blocks.raw_bytes
        }),
{
    lemma_sums(f, stored, locs, f.blocks.len());
    lemma_piece_sum(locs, locs.len());
}

/// A report is refused only where a number does not fit, or where live pieces overlap.
pub proof fn lemma_liveness_refused(f: FoldView, stored: Seq<u64>, locs: Seq<Loc>)
    requires
        f.blocks.len() <= u32::MAX,
        locs.len() <= u64::MAX,
    ensures
        ({
            let n = f.blocks.len();
            let pieces = sum_laws::sum(locs.len(), |i: int| locs[i].raw as nat);
            let live = sum_laws::sum(
                n,
                |i: int| counted_as(in_use(f, locs, i), f.blocks[i].bytes.len()),
            );
            let dead = sum_laws::sum(
                n,
                |i: int| counted_as(out_of_use(f, locs, i), f.blocks[i].bytes.len()),
            );
            let live_stored = sum_laws::sum(
                n,
                |i: int| counted_as(in_use(f, locs, i), stored[i] as nat),
            );
            let dead_stored = sum_laws::sum(
                n,
                |i: int| counted_as(out_of_use(f, locs, i), stored[i] as nat),
            );
            pieces <= live && live + dead <= u64::MAX && live_stored <= u64::MAX && dead_stored
                <= u64::MAX ==> punch::liveness_of(f, stored, locs) is Ok
        }),
{
    lemma_sums(f, stored, locs, f.blocks.len());
    lemma_piece_sum(locs, locs.len());
    sum_laws::lemma_count(f.blocks.len(), |i: int| in_use(f, locs, i));
    sum_laws::lemma_count(f.blocks.len(), |i: int| out_of_use(f, locs, i));
}

/// A plan declares exactly when some dead block is not declared yet, and its ranges cover the dead
/// blocks and no other; so a plan for a store whose dead blocks are declared declares nothing new.
pub proof fn lemma_plan_covers(s: StoreView, p: punch::PunchPlan, id: u32)
    requires
        part::parts_sound(s.parts),
        s.writer.fold.blocks.len() <= u32::MAX,
        punch::is_punch_plan(s, p),
    ensures
        p.dead@.contains(id) <==> id < s.writer.fold.blocks.len() && forall|loc: Loc|
            #[trigger] reached(s.parts, loc) ==> loc.block_id != id,
        fold::in_ranges(p.ranges@, id) <==> p.dead@.contains(id),
        forall|i: int, j: int| 0 <= i < j < p.dead@.len() ==> p.dead@[i] < p.dead@[j],
        !p.declare <==> forall|b: u32| #[trigger]
            p.dead@.contains(b) ==> fold::in_ranges(s.manifest.punched, b),
{
    lemma_dead_exactly(s, id);
    punch::lemma_dead_blocks(
        liveness::live_locs(s.parts, s.parts.len()),
        s.writer.fold.blocks.len(),
    );
    let dead = punch::store_dead(s);
    if !p.declare {
        assert forall|b: u32| #[trigger] p.dead@.contains(b) implies fold::in_ranges(
            s.manifest.punched,
            b,
        ) by {
            let i = choose|i: int| 0 <= i < dead.len() && dead[i] == b;
            assert(fold::in_ranges(s.manifest.punched, dead[i]));
        }
    } else {
        let i = choose|i: int|
            0 <= i < dead.len() && !fold::in_ranges(s.manifest.punched, #[trigger] dead[i]);
        assert(p.dead@.contains(dead[i]));
    }
}

} // verus!
