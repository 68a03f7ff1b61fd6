//! What the visible records still reach in the fold, and giving up what they do not.
//!
//! Programs are read through the dictionary of the part that holds them, as a reader would. One
//! piece may lie at several locations; each location some record reaches stays live.

use crate::fold;
use crate::fold::{Fold, FoldView, Loc};
use crate::part;
use crate::part::{Part, PartView, ReadError};
use crate::store::read;
use crate::store::read::Verdict;
use crate::types;
use crate::types::{Content, ContentOp, ContentView, OpView};
use vstd::prelude::*;

verus! {

// ---------------------------------------------------------------------------------------------
// Live locations.
// ---------------------------------------------------------------------------------------------
/// Locations with one more, unless it is there.
pub open spec fn with_loc(acc: Seq<Loc>, loc: Loc) -> Seq<Loc> {
    if acc.contains(loc) {
        acc
    } else {
        acc.push(loc)
    }
}

/// Locations with what the first `n` steps of a program reach.
pub open spec fn program_locs(
    dict: Seq<(Seq<u8>, Loc)>,
    ops: Seq<OpView>,
    n: nat,
    acc: Seq<Loc>,
) -> Seq<Loc>
    decreases n,
{
    if n == 0 {
        acc
    } else {
        let before = program_locs(dict, ops, (n - 1) as nat, acc);
        match ops[n - 1] {
            OpView::Lit(_) => before,
            OpView::Piece { hash, len: _ } => match part::find_loc(dict, hash) {
                Some(loc) => with_loc(before, loc),
                None => before,
            },
        }
    }
}

/// Locations with what the first `n` contents reach.
pub open spec fn contents_locs(
    dict: Seq<(Seq<u8>, Loc)>,
    contents: Seq<ContentView>,
    n: nat,
    acc: Seq<Loc>,
) -> Seq<Loc>
    decreases n,
{
    if n == 0 {
        acc
    } else {
        let ops = contents[n - 1].ops;
        program_locs(dict, ops, ops.len(), contents_locs(dict, contents, (n - 1) as nat, acc))
    }
}

/// Locations with what the visible records among the first `n` rows of a part reach.
pub open spec fn rows_locs(parts: Seq<PartView>, p: int, n: nat, acc: Seq<Loc>) -> Seq<Loc>
    decreases n,
{
    if n == 0 {
        acc
    } else {
        let before = rows_locs(parts, p, (n - 1) as nat, acc);
        if read::verdict(parts, p, n - 1) == Verdict::Live {
            let contents = parts[p].rows[n - 1].record->0.contents;
            contents_locs(parts[p].pieces, contents, contents.len(), before)
        } else {
            before
        }
    }
}

/// The locations the visible records of the first `n` parts reach, each once, in the order a
/// reader meets them.
pub open spec fn live_locs(parts: Seq<PartView>, n: nat) -> Seq<Loc>
    decreases n,
{
    if n == 0 {
        Seq::empty()
    } else {
        rows_locs(parts, n - 1, parts[n - 1].rows.len(), live_locs(parts, (n - 1) as nat))
    }
}

/// What is wrong first with the first `n` contents of a record.
pub open spec fn contents_fault(p: PartView, f: FoldView, contents: Seq<ContentView>, n: nat) -> Option<
    ReadError,
>
    decreases n,
{
    if n == 0 {
        None
    } else {
        match contents_fault(p, f, contents, (n - 1) as nat) {
            Some(e) => Some(e),
            None => match part::program_bytes(p.pieces, f, contents[n - 1].ops) {
                Ok(_) => None,
                Err(e) => Some(e),
            },
        }
    }
}

/// What is wrong first with the visible records among the first `n` rows of a part.
pub open spec fn rows_fault(parts: Seq<PartView>, f: FoldView, p: int, n: nat) -> Option<ReadError>
    decreases n,
{
    if n == 0 {
        None
    } else {
        match rows_fault(parts, f, p, (n - 1) as nat) {
            Some(e) => Some(e),
            None => if read::verdict(parts, p, n - 1) == Verdict::Live {
                let contents = parts[p].rows[n - 1].record->0.contents;
                contents_fault(parts[p], f, contents, contents.len())
            } else {
                None
            },
        }
    }
}

/// What is wrong first with the visible records of the first `n` parts.
pub open spec fn live_fault(parts: Seq<PartView>, f: FoldView, n: nat) -> Option<ReadError>
    decreases n,
{
    if n == 0 {
        None
    } else {
        match live_fault(parts, f, (n - 1) as nat) {
            Some(e) => Some(e),
            None => rows_fault(parts, f, n - 1, parts[n - 1].rows.len()),
        }
    }
}

proof fn lemma_contents_prefix(p: PartView, f: FoldView, contents: Seq<ContentView>, k: nat, n: nat)
    requires
        k <= n,
        contents_fault(p, f, contents, k) is Some,
    ensures
        contents_fault(p, f, contents, n) == contents_fault(p, f, contents, k),
    decreases n,
{
    if k < n {
        lemma_contents_prefix(p, f, contents, k, (n - 1) as nat);
    }
}

proof fn lemma_rows_prefix(parts: Seq<PartView>, f: FoldView, p: int, k: nat, n: nat)
    requires
        k <= n,
        rows_fault(parts, f, p, k) is Some,
    ensures
        rows_fault(parts, f, p, n) == rows_fault(parts, f, p, k),
    decreases n,
{
    if k < n {
        lemma_rows_prefix(parts, f, p, k, (n - 1) as nat);
    }
}

proof fn lemma_live_prefix(parts: Seq<PartView>, f: FoldView, k: nat, n: nat)
    requires
        k <= n,
        live_fault(parts, f, k) is Some,
    ensures
        live_fault(parts, f, n) == live_fault(parts, f, k),
    decreases n,
{
    if k < n {
        lemma_live_prefix(parts, f, k, (n - 1) as nat);
    }
}

/// What every location met so far has: a block that was not given up and holds it.
pub open spec fn all_within(f: FoldView, locs: Seq<Loc>) -> bool {
    forall|i: int|
        0 <= i < locs.len() ==> !fold::in_ranges(f.punched, (#[trigger] locs[i]).block_id)
            && locs[i].block_id < f.blocks.len() && locs[i].in_off + locs[i].raw
            <= f.blocks[locs[i].block_id as int].bytes.len()
}

pub(crate) fn has_loc(locs: &Vec<Loc>, loc: Loc) -> (r: bool)
    ensures
        r == locs@.contains(loc),
{
    let mut i: usize = 0;
    while i < locs.len()
        invariant
            i <= locs@.len(),
            forall|k: int| 0 <= k < i ==> locs@[k] != loc,
        decreases locs.len() - i,
    {
        if locs[i] == loc {
            assert(locs@[i as int] == loc);
            return true;
        }
        i = i + 1;
    }
    false
}

fn add_program(p: &Part, f: &Fold, ops: &Vec<ContentOp>, acc: &mut Vec<Loc>) -> (r: Result<
    (),
    ReadError,
>)
    requires
        all_within(f@, old(acc)@),
    ensures
        ({
            let all = types::ops_view(ops@);
            match r {
                Ok(()) => {
                    &&& part::program_bytes(p@.pieces, f@, all) is Ok
                    &&& final(acc)@ == program_locs(p@.pieces, all, all.len(), old(acc)@)
                    &&& all_within(f@, final(acc)@)
                },
                Err(e) => part::program_bytes(p@.pieces, f@, all) == Err::<Seq<u8>, ReadError>(e),
            }
        }),
{
    let ghost all = types::ops_view(ops@);
    let ghost dict = p@.pieces;
    let mut i: usize = 0;
    assert(all.take(0) =~= Seq::<OpView>::empty());
    while i < ops.len()
        invariant
            all == types::ops_view(ops@),
            dict == p@.pieces,
            i <= ops@.len(),
            part::program_bytes(dict, f@, all.take(i as int)) is Ok,
            acc@ == program_locs(dict, all, i as nat, old(acc)@),
            all_within(f@, acc@),
        decreases ops.len() - i,
    {
        let ghost next = all.take(i + 1);
        proof {
            assert(next.drop_last() =~= all.take(i as int));
            assert(next.last() == all[i as int]);
            assert(all[i as int] == ops@[i as int]@);
            if part::op_bytes(dict, f@, all[i as int]) is Err {
                assert(part::program_bytes(dict, f@, next) is Err);
                part::lemma_program_prefix(dict, f@, all, i + 1);
            }
        }
        if let ContentOp::Piece { hash, len } = &ops[i] {
            match p.find_piece(hash) {
                None => {
                    return Err(ReadError::AbsentPiece);
                },
                Some(loc) => {
                    if loc.raw != *len {
                        return Err(
                            ReadError::PieceLength { declared: *len, actual: loc.raw },
                        );
                    }
                    match f.read_verified(loc, hash) {
                        Err(error) => {
                            return Err(ReadError::Fold { error });
                        },
                        Ok(_) => {},
                    }
                    if !has_loc(acc, loc) {
                        acc.push(loc);
                    }
                },
            }
        }
        i = i + 1;
    }
    assert(all.take(ops@.len() as int) =~= all);
    Ok(())
}

fn add_contents(p: &Part, f: &Fold, contents: &Vec<Content>, acc: &mut Vec<Loc>) -> (r: Result<
    (),
    ReadError,
>)
    requires
        all_within(f@, old(acc)@),
    ensures
        ({
            let all = types::contents_view(contents@);
            match r {
                Ok(()) => {
                    &&& contents_fault(p@, f@, all, all.len()) is None
                    &&& final(acc)@ == contents_locs(p@.pieces, all, all.len(), old(acc)@)
                    &&& all_within(f@, final(acc)@)
                },
                Err(e) => contents_fault(p@, f@, all, all.len()) == Some(e),
            }
        }),
{
    let ghost all = types::contents_view(contents@);
    let mut i: usize = 0;
    while i < contents.len()
        invariant
            all == types::contents_view(contents@),
            i <= contents@.len(),
            contents_fault(p@, f@, all, i as nat) is None,
            acc@ == contents_locs(p@.pieces, all, i as nat, old(acc)@),
            all_within(f@, acc@),
        decreases contents.len() - i,
    {
        assert(all[i as int] == contents@[i as int]@);
        if let Err(e) = add_program(p, f, &contents[i].ops, acc) {
            proof {
                assert(contents_fault(p@, f@, all, (i + 1) as nat) == Some(e));
                lemma_contents_prefix(p@, f@, all, (i + 1) as nat, all.len());
            }
            return Err(e);
        }
        i = i + 1;
    }
    Ok(())
}

fn add_part(parts: &Vec<Part>, f: &Fold, p: usize, acc: &mut Vec<Loc>) -> (r: Result<(), ReadError>)
    requires
        p < parts@.len(),
        part::parts_sound(part::parts_view(parts@)),
        all_within(f@, old(acc)@),
    ensures
        ({
            let pv = part::parts_view(parts@);
            let n = pv[p as int].rows.len();
            match r {
                Ok(()) => {
                    &&& rows_fault(pv, f@, p as int, n) is None
                    &&& final(acc)@ == rows_locs(pv, p as int, n, old(acc)@)
                    &&& all_within(f@, final(acc)@)
                },
                Err(e) => rows_fault(pv, f@, p as int, n) == Some(e),
            }
        }),
{
    let ghost pv = part::parts_view(parts@);
    let part = &parts[p];
    let mut i: usize = 0;
    while i < part.rows.len()
        invariant
            pv == part::parts_view(parts@),
            part::parts_sound(pv),
            p < parts@.len(),
            part@ == pv[p as int],
            i <= part.rows@.len(),
            rows_fault(pv, f@, p as int, i as nat) is None,
            acc@ == rows_locs(pv, p as int, i as nat, old(acc)@),
            all_within(f@, acc@),
        decreases part.rows.len() - i,
    {
        assert(pv[p as int].rows[i as int] == part.rows@[i as int]@);
        if let Some(record) = &part.rows[i].record {
            if !read::newer_holds(parts, p, part.rows[i].id.as_str()) {
                if let Err(e) = add_contents(part, f, &record.contents, acc) {
                    proof {
                        assert(rows_fault(pv, f@, p as int, (i + 1) as nat) == Some(e));
                        lemma_rows_prefix(
                            pv,
                            f@,
                            p as int,
                            (i + 1) as nat,
                            pv[p as int].rows.len(),
                        );
                    }
                    return Err(e);
                }
            }
        }
        i = i + 1;
    }
    Ok(())
}

/// The fold locations the visible records need, each once.
pub fn live_fold_pieces(parts: &Vec<Part>, f: &Fold) -> (r: Result<Vec<Loc>, ReadError>)
    requires
        part::parts_sound(part::parts_view(parts@)),
    ensures
        ({
            let pv = part::parts_view(parts@);
            match r {
                Ok(locs) => {
                    &&& live_fault(pv, f@, pv.len()) is None
                    &&& locs@ == live_locs(pv, pv.len())
                    &&& all_within(f@, locs@)
                },
                Err(e) => live_fault(pv, f@, pv.len()) == Some(e),
            }
        }),
{
    let ghost pv = part::parts_view(parts@);
    let mut acc: Vec<Loc> = Vec::new();
    let mut p: usize = 0;
    while p < parts.len()
        invariant
            pv == part::parts_view(parts@),
            part::parts_sound(pv),
            p <= parts@.len(),
            live_fault(pv, f@, p as nat) is None,
            acc@ == live_locs(pv, p as nat),
            all_within(f@, acc@),
        decreases parts.len() - p,
    {
        if let Err(e) = add_part(parts, f, p, &mut acc) {
            proof {
                assert(live_fault(pv, f@, (p + 1) as nat) == Some(e));
                lemma_live_prefix(pv, f@, (p + 1) as nat, pv.len());
            }
            return Err(e);
        }
        p = p + 1;
    }
    Ok(acc)
}

// ---------------------------------------------------------------------------------------------
// What a live location is.
// ---------------------------------------------------------------------------------------------
proof fn lemma_program_keeps(dict: Seq<(Seq<u8>, Loc)>, ops: Seq<OpView>, n: nat, acc: Seq<Loc>)
    ensures
        forall|loc: Loc|
            acc.contains(loc) ==> #[trigger] program_locs(dict, ops, n, acc).contains(loc),
    decreases n,
{
    if n > 0 {
        lemma_program_keeps(dict, ops, (n - 1) as nat, acc);
        let before = program_locs(dict, ops, (n - 1) as nat, acc);
        assert forall|loc: Loc, x: Loc| before.contains(loc) implies #[trigger] with_loc(
            before,
            x,
        ).contains(loc) by {
            lemma_with_loc(before, x, loc);
        }
    }
}

proof fn lemma_with_loc(acc: Seq<Loc>, x: Loc, loc: Loc)
    ensures
        with_loc(acc, x).contains(x),
        acc.contains(loc) ==> with_loc(acc, x).contains(loc),
{
    if !acc.contains(x) {
        assert(acc.push(x)[acc.len() as int] == x);
        if acc.contains(loc) {
            let i = choose|i: int| 0 <= i < acc.len() && acc[i] == loc;
            assert(acc.push(x)[i] == loc);
        }
    }
}

proof fn lemma_program_reaches(
    dict: Seq<(Seq<u8>, Loc)>,
    ops: Seq<OpView>,
    n: nat,
    acc: Seq<Loc>,
    k: int,
    loc: Loc,
)
    requires
        0 <= k < n <= ops.len(),
        ops[k] matches OpView::Piece { hash, len: _ } && part::find_loc(dict, hash) == Some(loc),
    ensures
        program_locs(dict, ops, n, acc).contains(loc),
    decreases n,
{
    let before = program_locs(dict, ops, (n - 1) as nat, acc);
    if k == n - 1 {
        lemma_with_loc(before, loc, loc);
    } else {
        lemma_program_reaches(dict, ops, (n - 1) as nat, acc, k, loc);
        match ops[n - 1] {
            OpView::Piece { hash, len: _ } => {
                if part::find_loc(dict, hash) is Some {
                    lemma_with_loc(before, part::find_loc(dict, hash)->0, loc);
                }
            },
            _ => {},
        }
    }
}

pub proof fn lemma_contents_keep(
    dict: Seq<(Seq<u8>, Loc)>,
    contents: Seq<ContentView>,
    n: nat,
    acc: Seq<Loc>,
)
    ensures
        forall|loc: Loc|
            acc.contains(loc) ==> #[trigger] contents_locs(dict, contents, n, acc).contains(loc),
    decreases n,
{
    if n > 0 {
        lemma_contents_keep(dict, contents, (n - 1) as nat, acc);
        let ops = contents[n - 1].ops;
        lemma_program_keeps(
            dict,
            ops,
            ops.len(),
            contents_locs(dict, contents, (n - 1) as nat, acc),
        );
    }
}

pub proof fn lemma_contents_reach(
    dict: Seq<(Seq<u8>, Loc)>,
    contents: Seq<ContentView>,
    n: nat,
    acc: Seq<Loc>,
    c: int,
    k: int,
    loc: Loc,
)
    requires
        0 <= c < n <= contents.len(),
        0 <= k < contents[c].ops.len(),
        contents[c].ops[k] matches OpView::Piece { hash, len: _ } && part::find_loc(dict, hash)
            == Some(loc),
    ensures
        contents_locs(dict, contents, n, acc).contains(loc),
    decreases n,
{
    let before = contents_locs(dict, contents, (n - 1) as nat, acc);
    let ops = contents[n - 1].ops;
    if c == n - 1 {
        lemma_program_reaches(dict, ops, ops.len(), before, k, loc);
    } else {
        lemma_contents_reach(dict, contents, (n - 1) as nat, acc, c, k, loc);
        lemma_program_keeps(dict, ops, ops.len(), before);
    }
}

proof fn lemma_rows_keep(parts: Seq<PartView>, p: int, n: nat, acc: Seq<Loc>)
    ensures
        forall|loc: Loc|
            acc.contains(loc) ==> #[trigger] rows_locs(parts, p, n, acc).contains(loc),
    decreases n,
{
    if n > 0 {
        lemma_rows_keep(parts, p, (n - 1) as nat, acc);
        let contents = parts[p].rows[n - 1].record->0.contents;
        lemma_contents_keep(
            parts[p].pieces,
            contents,
            contents.len(),
            rows_locs(parts, p, (n - 1) as nat, acc),
        );
    }
}

proof fn lemma_rows_reach(
    parts: Seq<PartView>,
    p: int,
    n: nat,
    acc: Seq<Loc>,
    row: int,
    c: int,
    k: int,
    loc: Loc,
)
    requires
        0 <= row < n <= parts[p].rows.len(),
        read::verdict(parts, p, row) == Verdict::Live,
        0 <= c < parts[p].rows[row].record->0.contents.len(),
        0 <= k < parts[p].rows[row].record->0.contents[c].ops.len(),
        parts[p].rows[row].record->0.contents[c].ops[k] matches OpView::Piece { hash, len: _ }
            && part::find_loc(parts[p].pieces, hash) == Some(loc),
    ensures
        rows_locs(parts, p, n, acc).contains(loc),
    decreases n,
{
    let before = rows_locs(parts, p, (n - 1) as nat, acc);
    let contents = parts[p].rows[n - 1].record->0.contents;
    if row == n - 1 {
        lemma_contents_reach(parts[p].pieces, contents, contents.len(), before, c, k, loc);
    } else {
        lemma_rows_reach(parts, p, (n - 1) as nat, acc, row, c, k, loc);
        lemma_contents_keep(parts[p].pieces, contents, contents.len(), before);
    }
}

/// Every location that a program of a visible record reaches is live.
pub proof fn lemma_live_reaches(
    parts: Seq<PartView>,
    n: nat,
    p: int,
    row: int,
    c: int,
    k: int,
    loc: Loc,
)
    requires
        0 <= p < n <= parts.len(),
        0 <= row < parts[p].rows.len(),
        read::verdict(parts, p, row) == Verdict::Live,
        0 <= c < parts[p].rows[row].record->0.contents.len(),
        0 <= k < parts[p].rows[row].record->0.contents[c].ops.len(),
        parts[p].rows[row].record->0.contents[c].ops[k] matches OpView::Piece { hash, len: _ }
            && part::find_loc(parts[p].pieces, hash) == Some(loc),
    ensures
        live_locs(parts, n).contains(loc),
    decreases n,
{
    let before = live_locs(parts, (n - 1) as nat);
    let rows = parts[n - 1].rows.len();
    if p == n - 1 {
        lemma_rows_reach(parts, p, rows, before, row, c, k, loc);
    } else {
        lemma_live_reaches(parts, (n - 1) as nat, p, row, c, k, loc);
        lemma_rows_keep(parts, n - 1, rows, before);
    }
}

proof fn lemma_program_within(
    dict: Seq<(Seq<u8>, Loc)>,
    f: FoldView,
    ops: Seq<OpView>,
    n: nat,
    acc: Seq<Loc>,
)
    requires
        n <= ops.len(),
        part::program_bytes(dict, f, ops) is Ok,
        all_within(f, acc),
    ensures
        all_within(f, program_locs(dict, ops, n, acc)),
    decreases n,
{
    if n > 0 {
        lemma_program_within(dict, f, ops, (n - 1) as nat, acc);
        let next = ops.take(n as int);
        if part::program_bytes(dict, f, next) is Err {
            part::lemma_program_prefix(dict, f, ops, n as int);
        }
        assert(next.last() == ops[n - 1]);
        assert(part::op_bytes(dict, f, ops[n - 1]) is Ok);
    }
}

proof fn lemma_contents_within(
    p: PartView,
    f: FoldView,
    contents: Seq<ContentView>,
    n: nat,
    acc: Seq<Loc>,
)
    requires
        contents_fault(p, f, contents, n) is None,
        all_within(f, acc),
    ensures
        all_within(f, contents_locs(p.pieces, contents, n, acc)),
    decreases n,
{
    if n > 0 {
        lemma_contents_within(p, f, contents, (n - 1) as nat, acc);
        let ops = contents[n - 1].ops;
        lemma_program_within(
            p.pieces,
            f,
            ops,
            ops.len(),
            contents_locs(p.pieces, contents, (n - 1) as nat, acc),
        );
    }
}

proof fn lemma_rows_within(parts: Seq<PartView>, f: FoldView, p: int, n: nat, acc: Seq<Loc>)
    requires
        rows_fault(parts, f, p, n) is None,
        all_within(f, acc),
    ensures
        all_within(f, rows_locs(parts, p, n, acc)),
    decreases n,
{
    if n > 0 {
        lemma_rows_within(parts, f, p, (n - 1) as nat, acc);
        if read::verdict(parts, p, n - 1) == Verdict::Live {
            let contents = parts[p].rows[n - 1].record->0.contents;
            lemma_contents_within(
                parts[p],
                f,
                contents,
                contents.len(),
                rows_locs(parts, p, (n - 1) as nat, acc),
            );
        }
    }
}

/// Where every visible record reads, every live location lies in a block that was not given up.
pub proof fn lemma_live_within(parts: Seq<PartView>, f: FoldView, n: nat)
    requires
        live_fault(parts, f, n) is None,
    ensures
        all_within(f, live_locs(parts, n)),
    decreases n,
{
    if n > 0 {
        lemma_live_within(parts, f, (n - 1) as nat);
        lemma_rows_within(
            parts,
            f,
            n - 1,
            parts[n - 1].rows.len(),
            live_locs(parts, (n - 1) as nat),
        );
    }
}

} // verus!
