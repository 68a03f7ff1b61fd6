//! Rewriting the fold: the one operation that moves content.
//!
//! A tombstone makes content unreachable, never absent. A refold copies what visible records still
//! reference into a new generation, in the order it lay in, and rebuilds the parts around it. What
//! is left behind goes with the old generation. The switch is one revision.

use crate::bytes;
use crate::container;
use crate::container::{Container, Member, MemberView};
use crate::fold;
use crate::fold::{BlockView, Fold, FoldError, FoldView, Loc};
use crate::hash;
use crate::part;
use crate::part::{Part, PartView, Row, RowView};
use crate::store::audit;
use crate::store::chain;
use crate::store::commit;
use crate::store::commit::CommitOutcome;
use crate::store::engine;
use crate::store::engine::{Store, StoreView};
use crate::store::manifest;
use crate::store::manifest::{FoldTail, Manifest, ManifestView, PartRef, PartRefView};
use crate::store::names;
use crate::store::names::MAX_FOLD_GENERATION;
use crate::store::publish;
use crate::store::publish::{EncodedPart, PartPlan, PlanView, PublishError};
use crate::store::read;
use crate::store::read::Verdict;
use crate::store::writer;
use crate::store::writer::{FoldWriter, WriterView};
use crate::text;
use crate::types;
use crate::types::{Content, ContentOp, ContentView, OpView, PieceHash};
use vstd::prelude::*;
use vstd::utf8::*;

verus! {

/// What a refold did.
#[derive(Clone, Copy, Debug, PartialEq, Eq, Structural)]
pub struct RefoldStats {
    pub parts_in: usize,
    pub parts_out: usize,
    pub records_kept: usize,
    /// Records discarded: deleted, or superseded by a newer version elsewhere.
    pub records_dropped: usize,
    pub tombstones_dropped: usize,
    pub pieces_kept: usize,
    /// Pieces no visible record referenced.
    pub pieces_dropped: usize,
    pub fold_bytes_before: u64,
    pub fold_bytes_after: u64,
    /// The superseded generation is still on disk.
    pub stale_generation_left: bool,
}

/// What a refold of nothing did.
pub open spec fn no_refold() -> RefoldStats {
    RefoldStats {
        parts_in: 0,
        parts_out: 0,
        records_kept: 0,
        records_dropped: 0,
        tombstones_dropped: 0,
        pieces_kept: 0,
        pieces_dropped: 0,
        fold_bytes_before: 0,
        fold_bytes_after: 0,
        stale_generation_left: false,
    }
}

impl Default for RefoldStats {
    fn default() -> (r: RefoldStats)
        ensures
            r == no_refold(),
    {
        RefoldStats {
            parts_in: 0,
            parts_out: 0,
            records_kept: 0,
            records_dropped: 0,
            tombstones_dropped: 0,
            pieces_kept: 0,
            pieces_dropped: 0,
            fold_bytes_before: 0,
            fold_bytes_after: 0,
            stale_generation_left: false,
        }
    }
}

impl RefoldStats {
    /// Bytes the refold removed, once the superseded generation is gone.
    pub fn bytes_reclaimed(&self) -> (r: u64)
        ensures
            r == if self.fold_bytes_before >= self.fold_bytes_after {
                self.fold_bytes_before - self.fold_bytes_after
            } else {
                0
            },
    {
        self.fold_bytes_before.saturating_sub(self.fold_bytes_after)
    }
}

/// Why a refold is not planned.
#[allow(inconsistent_fields)]
#[derive(Clone, Copy, Debug, PartialEq, Eq, Structural)]
pub enum RefoldError {
    RequiresReopen,
    /// Staged records reference the old fold.
    UnflushedMemtable,
    /// No generation is left.
    GenerationsExhausted,
    /// A visible record references a piece its part does not have.
    AbsentPiece,
    /// A referenced piece does not read.
    Fold { error: FoldError },
    /// No block id is left.
    Full,
    /// A rebuilt part does not find its pieces.
    Build { error: PublishError },
}

// ---------------------------------------------------------------------------------------------
// Which pieces are wanted.
// ---------------------------------------------------------------------------------------------
/// Pieces with those the first `n` steps of a program reference, each identity once.
pub open spec fn wanted_ops(
    dict: Seq<(Seq<u8>, Loc)>,
    ops: Seq<OpView>,
    n: nat,
    acc: Seq<(Seq<u8>, Loc)>,
) -> Option<Seq<(Seq<u8>, Loc)>>
    decreases n,
{
    if n == 0 {
        Some(acc)
    } else {
        match wanted_ops(dict, ops, (n - 1) as nat, acc) {
            None => None,
            Some(before) => match ops[n - 1] {
                OpView::Lit(_) => Some(before),
                OpView::Piece { hash, len: _ } => if part::find_loc(before, hash) is Some {
                    Some(before)
                } else {
                    match part::find_loc(dict, hash) {
                        None => None,
                        Some(loc) => Some(before.push((hash, loc))),
                    }
                },
            },
        }
    }
}

/// Pieces with those the first `n` contents reference.
pub open spec fn wanted_contents(
    dict: Seq<(Seq<u8>, Loc)>,
    contents: Seq<ContentView>,
    n: nat,
    acc: Seq<(Seq<u8>, Loc)>,
) -> Option<Seq<(Seq<u8>, Loc)>>
    decreases n,
{
    if n == 0 {
        Some(acc)
    } else {
        match wanted_contents(dict, contents, (n - 1) as nat, acc) {
            None => None,
            Some(before) => wanted_ops(
                dict,
                contents[n - 1].ops,
                contents[n - 1].ops.len(),
                before,
            ),
        }
    }
}

/// Pieces with those the visible records among the first `n` rows of a part reference.
pub open spec fn wanted_rows(parts: Seq<PartView>, p: int, n: nat, acc: Seq<(Seq<u8>, Loc)>) -> Option<
    Seq<(Seq<u8>, Loc)>,
>
    decreases n,
{
    if n == 0 {
        Some(acc)
    } else {
        match wanted_rows(parts, p, (n - 1) as nat, acc) {
            None => None,
            Some(before) => if read::verdict(parts, p, n - 1) == Verdict::Live {
                let contents = parts[p].rows[n - 1].record->0.contents;
                wanted_contents(parts[p].pieces, contents, contents.len(), before)
            } else {
                Some(before)
            },
        }
    }
}

/// The pieces the visible records of the first `n` parts reference, each identity at the first
/// location met; none where a part lacks one.
pub open spec fn wanted(parts: Seq<PartView>, n: nat) -> Option<Seq<(Seq<u8>, Loc)>>
    decreases n,
{
    if n == 0 {
        Some(Seq::empty())
    } else {
        match wanted(parts, (n - 1) as nat) {
            None => None,
            Some(before) => wanted_rows(parts, n - 1, parts[n - 1].rows.len(), before),
        }
    }
}

/// Entries with the first `n` of a dictionary, each identity once.
pub open spec fn joined(d: Seq<(Seq<u8>, Loc)>, n: nat, acc: Seq<(Seq<u8>, Loc)>) -> Seq<
    (Seq<u8>, Loc),
>
    decreases n,
{
    if n == 0 {
        acc
    } else {
        let before = joined(d, (n - 1) as nat, acc);
        if part::find_loc(before, d[n - 1].0) is Some {
            before
        } else {
            before.push(d[n - 1])
        }
    }
}

/// The entries of the first `n` parts' dictionaries, each identity once.
pub open spec fn all_pieces(parts: Seq<PartView>, n: nat) -> Seq<(Seq<u8>, Loc)>
    decreases n,
{
    if n == 0 {
        Seq::empty()
    } else {
        joined(
            parts[n - 1].pieces,
            parts[n - 1].pieces.len(),
            all_pieces(parts, (n - 1) as nat),
        )
    }
}

proof fn lemma_wanted_ops_prefix(
    dict: Seq<(Seq<u8>, Loc)>,
    ops: Seq<OpView>,
    k: nat,
    n: nat,
    acc: Seq<(Seq<u8>, Loc)>,
)
    requires
        k <= n,
        wanted_ops(dict, ops, k, acc) is None,
    ensures
        wanted_ops(dict, ops, n, acc) is None,
    decreases n,
{
    if k < n {
        lemma_wanted_ops_prefix(dict, ops, k, (n - 1) as nat, acc);
    }
}

proof fn lemma_wanted_contents_prefix(
    dict: Seq<(Seq<u8>, Loc)>,
    contents: Seq<ContentView>,
    k: nat,
    n: nat,
    acc: Seq<(Seq<u8>, Loc)>,
)
    requires
        k <= n,
        wanted_contents(dict, contents, k, acc) is None,
    ensures
        wanted_contents(dict, contents, n, acc) is None,
    decreases n,
{
    if k < n {
        lemma_wanted_contents_prefix(dict, contents, k, (n - 1) as nat, acc);
    }
}

proof fn lemma_wanted_rows_prefix(
    parts: Seq<PartView>,
    p: int,
    k: nat,
    n: nat,
    acc: Seq<(Seq<u8>, Loc)>,
)
    requires
        k <= n,
        wanted_rows(parts, p, k, acc) is None,
    ensures
        wanted_rows(parts, p, n, acc) is None,
    decreases n,
{
    if k < n {
        lemma_wanted_rows_prefix(parts, p, k, (n - 1) as nat, acc);
    }
}

proof fn lemma_wanted_prefix(parts: Seq<PartView>, k: nat, n: nat)
    requires
        k <= n,
        wanted(parts, k) is None,
    ensures
        wanted(parts, n) is None,
    decreases n,
{
    if k < n {
        lemma_wanted_prefix(parts, k, (n - 1) as nat);
    }
}

fn push_piece(acc: &mut Vec<(PieceHash, Loc)>, h: PieceHash, loc: Loc)
    ensures
        part::dictionary_view(final(acc)@) == part::dictionary_view(old(acc)@).push((h@, loc)),
{
    let ghost before = acc@;
    acc.push((h, loc));
    assert(part::dictionary_view(acc@) =~= part::dictionary_view(before).push((h@, loc)));
}

fn want_ops(p: &Part, ops: &Vec<ContentOp>, acc: &mut Vec<(PieceHash, Loc)>) -> (r: bool)
    ensures
        ({
            let all = types::ops_view(ops@);
            let out = wanted_ops(p@.pieces, all, all.len(), part::dictionary_view(old(acc)@));
            if r {
                out == Some(part::dictionary_view(final(acc)@))
            } else {
                out is None
            }
        }),
{
    let ghost all = types::ops_view(ops@);
    let ghost dict = p@.pieces;
    let ghost a0 = part::dictionary_view(acc@);
    let mut i: usize = 0;
    while i < ops.len()
        invariant
            all == types::ops_view(ops@),
            dict == p@.pieces,
            a0 == part::dictionary_view(old(acc)@),
            i <= ops@.len(),
            wanted_ops(dict, all, i as nat, a0) == Some(part::dictionary_view(acc@)),
        decreases ops.len() - i,
    {
        assert(all[i as int] == ops@[i as int]@);
        if let ContentOp::Piece { hash, len: _ } = &ops[i] {
            if part::lookup(acc, hash).is_none() {
                match p.find_piece(hash) {
                    None => {
                        proof {
                            lemma_wanted_ops_prefix(dict, all, (i + 1) as nat, all.len(), a0);
                        }
                        return false;
                    },
                    Some(loc) => {
                        push_piece(acc, *hash, loc);
                    },
                }
            }
        }
        i = i + 1;
    }
    true
}

fn want_contents(p: &Part, contents: &Vec<Content>, acc: &mut Vec<(PieceHash, Loc)>) -> (r: bool)
    ensures
        ({
            let all = types::contents_view(contents@);
            let out = wanted_contents(p@.pieces, all, all.len(), part::dictionary_view(old(acc)@));
            if r {
                out == Some(part::dictionary_view(final(acc)@))
            } else {
                out is None
            }
        }),
{
    let ghost all = types::contents_view(contents@);
    let ghost dict = p@.pieces;
    let ghost a0 = part::dictionary_view(acc@);
    let mut i: usize = 0;
    while i < contents.len()
        invariant
            all == types::contents_view(contents@),
            dict == p@.pieces,
            a0 == part::dictionary_view(old(acc)@),
            i <= contents@.len(),
            wanted_contents(dict, all, i as nat, a0) == Some(part::dictionary_view(acc@)),
        decreases contents.len() - i,
    {
        assert(all[i as int] == contents@[i as int]@);
        if !want_ops(p, &contents[i].ops, acc) {
            proof {
                lemma_wanted_contents_prefix(dict, all, (i + 1) as nat, all.len(), a0);
            }
            return false;
        }
        i = i + 1;
    }
    true
}

fn want_part(parts: &Vec<Part>, p: usize, acc: &mut Vec<(PieceHash, Loc)>) -> (r: bool)
    requires
        p < parts@.len(),
        part::parts_sound(part::parts_view(parts@)),
    ensures
        ({
            let pv = part::parts_view(parts@);
            let out = wanted_rows(
                pv,
                p as int,
                pv[p as int].rows.len(),
                part::dictionary_view(old(acc)@),
            );
            if r {
                out == Some(part::dictionary_view(final(acc)@))
            } else {
                out is None
            }
        }),
{
    let ghost pv = part::parts_view(parts@);
    let ghost a0 = part::dictionary_view(acc@);
    let part = &parts[p];
    let mut i: usize = 0;
    while i < part.rows.len()
        invariant
            pv == part::parts_view(parts@),
            a0 == part::dictionary_view(old(acc)@),
            part::parts_sound(pv),
            p < parts@.len(),
            part@ == pv[p as int],
            i <= part.rows@.len(),
            wanted_rows(pv, p as int, i as nat, a0) == Some(part::dictionary_view(acc@)),
        decreases part.rows.len() - i,
    {
        assert(pv[p as int].rows[i as int] == part.rows@[i as int]@);
        if let Some(record) = &part.rows[i].record {
            if !read::newer_holds(parts, p, part.rows[i].id.as_str()) {
                if !want_contents(part, &record.contents, acc) {
                    proof {
                        lemma_wanted_rows_prefix(
                            pv,
                            p as int,
                            (i + 1) as nat,
                            pv[p as int].rows.len(),
                            a0,
                        );
                    }
                    return false;
                }
            }
        }
        i = i + 1;
    }
    true
}

fn want_all(parts: &Vec<Part>) -> (r: Option<Vec<(PieceHash, Loc)>>)
    requires
        part::parts_sound(part::parts_view(parts@)),
    ensures
        ({
            let pv = part::parts_view(parts@);
            match r {
                Some(d) => wanted(pv, pv.len()) == Some(part::dictionary_view(d@)),
                None => wanted(pv, pv.len()) is None,
            }
        }),
{
    let ghost pv = part::parts_view(parts@);
    let mut acc: Vec<(PieceHash, Loc)> = Vec::new();
    let mut p: usize = 0;
    assert(part::dictionary_view(acc@) =~= Seq::<(Seq<u8>, Loc)>::empty());
    while p < parts.len()
        invariant
            pv == part::parts_view(parts@),
            part::parts_sound(pv),
            p <= parts@.len(),
            wanted(pv, p as nat) == Some(part::dictionary_view(acc@)),
        decreases parts.len() - p,
    {
        if !want_part(parts, p, &mut acc) {
            proof {
                lemma_wanted_prefix(pv, (p + 1) as nat, pv.len());
            }
            return None;
        }
        p = p + 1;
    }
    Some(acc)
}

fn count_pieces(parts: &Vec<Part>) -> (r: usize)
    ensures
        ({
            let pv = part::parts_view(parts@);
            r == all_pieces(pv, pv.len()).len()
        }),
{
    let ghost pv = part::parts_view(parts@);
    let mut acc: Vec<(PieceHash, Loc)> = Vec::new();
    let mut p: usize = 0;
    assert(part::dictionary_view(acc@) =~= Seq::<(Seq<u8>, Loc)>::empty());
    while p < parts.len()
        invariant
            pv == part::parts_view(parts@),
            p <= parts@.len(),
            part::dictionary_view(acc@) == all_pieces(pv, p as nat),
        decreases parts.len() - p,
    {
        let part = &parts[p];
        let ghost d = pv[p as int].pieces;
        let ghost a0 = part::dictionary_view(acc@);
        let mut i: usize = 0;
        while i < part.pieces.len()
            invariant
                d == part::dictionary_view(part.pieces@),
                i <= part.pieces@.len(),
                part::dictionary_view(acc@) == joined(d, i as nat, a0),
            decreases part.pieces.len() - i,
        {
            let (h, loc) = part.pieces[i];
            assert(d[i as int] == (h@, loc));
            if part::lookup(&acc, &h).is_none() {
                push_piece(&mut acc, h, loc);
            }
            i = i + 1;
        }
        p = p + 1;
    }
    acc.len()
}

// ---------------------------------------------------------------------------------------------
// The order content is copied in.
// ---------------------------------------------------------------------------------------------
/// Whether a location lies no later than another.
pub open spec fn lies_before(a: Loc, b: Loc) -> bool {
    a.block_id < b.block_id || (a.block_id == b.block_id && a.in_off <= b.in_off)
}

/// An ordered list with one more entry, after its equals.
pub open spec fn inserted(order: Seq<(Seq<u8>, Loc)>, e: (Seq<u8>, Loc)) -> Seq<(Seq<u8>, Loc)>
    decreases order.len(),
{
    if order.len() == 0 || lies_before(order.last().1, e.1) {
        order.push(e)
    } else {
        inserted(order.drop_last(), e).push(order.last())
    }
}

/// The first `n` pieces, in the order they lie in.
pub open spec fn fold_order(pieces: Seq<(Seq<u8>, Loc)>, n: nat) -> Seq<(Seq<u8>, Loc)>
    decreases n,
{
    if n == 0 {
        Seq::empty()
    } else {
        inserted(fold_order(pieces, (n - 1) as nat), pieces[n - 1])
    }
}

proof fn lemma_inserted_at(order: Seq<(Seq<u8>, Loc)>, e: (Seq<u8>, Loc), k: int)
    requires
        0 <= k <= order.len(),
        k == 0 || lies_before(order[k - 1].1, e.1),
        forall|i: int| k <= i < order.len() ==> !lies_before((#[trigger] order[i]).1, e.1),
    ensures
        inserted(order, e) == order.insert(k, e),
    decreases order.len(),
{
    if k < order.len() {
        lemma_inserted_at(order.drop_last(), e, k);
        assert(inserted(order, e) =~= order.insert(k, e));
    } else {
        assert(order.insert(k, e) =~= order.push(e));
    }
}

fn place(order: &Vec<(PieceHash, Loc)>, loc: Loc) -> (k: usize)
    ensures
        ({
            let all = part::dictionary_view(order@);
            &&& k <= all.len()
            &&& k == 0 || lies_before(all[k - 1].1, loc)
            &&& forall|i: int| k <= i < all.len() ==> !lies_before((#[trigger] all[i]).1, loc)
        }),
{
    let ghost all = part::dictionary_view(order@);
    let mut k: usize = order.len();
    while k > 0
        invariant
            all == part::dictionary_view(order@),
            k <= order@.len(),
            forall|i: int| k <= i < all.len() ==> !lies_before((#[trigger] all[i]).1, loc),
        decreases k,
    {
        let at = order[k - 1].1;
        assert(all[k - 1].1 == at);
        if at.block_id < loc.block_id || (at.block_id == loc.block_id && at.in_off <= loc.in_off) {
            return k;
        }
        k = k - 1;
    }
    k
}

fn sort_pieces(pieces: &Vec<(PieceHash, Loc)>) -> (r: Vec<(PieceHash, Loc)>)
    ensures
        ({
            let all = part::dictionary_view(pieces@);
            part::dictionary_view(r@) == fold_order(all, all.len())
        }),
{
    let ghost all = part::dictionary_view(pieces@);
    let mut out: Vec<(PieceHash, Loc)> = Vec::new();
    let mut i: usize = 0;
    assert(part::dictionary_view(out@) =~= Seq::<(Seq<u8>, Loc)>::empty());
    while i < pieces.len()
        invariant
            all == part::dictionary_view(pieces@),
            i <= pieces@.len(),
            part::dictionary_view(out@) == fold_order(all, i as nat),
        decreases pieces.len() - i,
    {
        let (h, loc) = pieces[i];
        let ghost before = part::dictionary_view(out@);
        let k: usize = place(&out, loc);
        out.insert(k, (h, loc));
        proof {
            lemma_inserted_at(before, (h@, loc), k as int);
            assert(part::dictionary_view(out@) =~= before.insert(k as int, (h@, loc)));
            assert(all[i as int] == (h@, loc));
        }
        i = i + 1;
    }
    out
}

// ---------------------------------------------------------------------------------------------
// The copy.
// ---------------------------------------------------------------------------------------------
/// A writer without content.
pub open spec fn fresh_writer(target: u32) -> WriterView {
    WriterView {
        fold: FoldView {
            blocks: Seq::empty(),
            segments: Seq::empty(),
            punched: Seq::empty(),
        },
        sealed: 0,
        window: Seq::empty(),
        target,
    }
}

/// A new generation's writer after the first `n` pieces were copied into it.
pub open spec fn copied(f: FoldView, order: Seq<(Seq<u8>, Loc)>, n: nat, target: u32) -> Result<
    WriterView,
    RefoldError,
>
    decreases n,
{
    if n == 0 {
        Ok(fresh_writer(target))
    } else {
        match copied(f, order, (n - 1) as nat, target) {
            Err(e) => Err(e),
            Ok(w) => match fold::fold_read(f, order[n - 1].1, order[n - 1].0) {
                Err(error) => Err(RefoldError::Fold { error }),
                Ok(b) => match writer::appended(w, order[n - 1].0, b) {
                    None => Err(RefoldError::Full),
                    Some((after, _)) => Ok(after),
                },
            },
        }
    }
}

proof fn lemma_copied_prefix(f: FoldView, order: Seq<(Seq<u8>, Loc)>, k: nat, n: nat, target: u32)
    requires
        k <= n,
        copied(f, order, k, target) is Err,
    ensures
        copied(f, order, n, target) == copied(f, order, k, target),
    decreases n,
{
    if k < n {
        lemma_copied_prefix(f, order, k, (n - 1) as nat, target);
    }
}

fn copy_pieces(f: &Fold, order: &Vec<(PieceHash, Loc)>, target: u32) -> (r: Result<
    FoldWriter,
    RefoldError,
>)
    ensures
        ({
            let all = part::dictionary_view(order@);
            match r {
                Ok(w) => copied(f@, all, all.len(), target) == Ok::<WriterView, RefoldError>(w@),
                Err(e) => copied(f@, all, all.len(), target) == Err::<WriterView, RefoldError>(e),
            }
        }),
{
    let ghost all = part::dictionary_view(order@);
    let mut w = FoldWriter {
        fold: Fold { blocks: Vec::new(), segments: Vec::new(), punched: Vec::new() },
        sealed: 0,
        window: Vec::new(),
        target,
    };
    proof {
        assert(fold::blocks_view(w.fold.blocks@) =~= Seq::<BlockView>::empty());
        assert(part::dictionary_view(w.window@) =~= Seq::<(Seq<u8>, Loc)>::empty());
        assert(w.fold.punched@ =~= Seq::<(u32, u32)>::empty());
        assert(w.fold.segments@ =~= Seq::<(u32, u64)>::empty());
    }
    let mut i: usize = 0;
    while i < order.len()
        invariant
            all == part::dictionary_view(order@),
            i <= order@.len(),
            copied(f@, all, i as nat, target) == Ok::<WriterView, RefoldError>(w@),
        decreases order.len() - i,
    {
        let (h, loc) = order[i];
        assert(all[i as int] == (h@, loc));
        let piece = match f.read_verified(loc, &h) {
            Ok(b) => b,
            Err(error) => {
                proof {
                    lemma_copied_prefix(f@, all, (i + 1) as nat, all.len(), target);
                }
                return Err(RefoldError::Fold { error });
            },
        };
        assert(piece@.len() == loc.raw);
        if let Err(_) = w.put_hashed(piece, h) {
            proof {
                lemma_copied_prefix(f@, all, (i + 1) as nat, all.len(), target);
            }
            return Err(RefoldError::Full);
        }
        i = i + 1;
    }
    Ok(w)
}

// ---------------------------------------------------------------------------------------------
// The rebuilt parts.
// ---------------------------------------------------------------------------------------------
/// The visible rows among the first `n` of a part.
pub open spec fn kept_rows(parts: Seq<PartView>, p: int, n: nat) -> Seq<RowView>
    decreases n,
{
    if n == 0 {
        Seq::empty()
    } else {
        let before = kept_rows(parts, p, (n - 1) as nat);
        if read::verdict(parts, p, n - 1) == Verdict::Live {
            before.push(parts[p].rows[n - 1])
        } else {
            before
        }
    }
}

/// The visible rows of a part.
pub open spec fn kept(parts: Seq<PartView>, p: int) -> Seq<RowView> {
    kept_rows(parts, p, parts[p].rows.len())
}

/// Whether no part after `p` has a visible row.
pub open spec fn last_kept(parts: Seq<PartView>, p: int) -> bool {
    forall|q: int| p < q < parts.len() ==> (#[trigger] kept(parts, q)).len() == 0
}

/// Views of plans.
pub open spec fn plans_view(plans: Seq<PartPlan>) -> Seq<PlanView> {
    Seq::new(plans.len(), |i: int| plans[i]@)
}

/// One rebuilt part.
pub open spec fn rebuilt_plan(
    generation: u32,
    lo: u64,
    hi: u64,
    rows: Seq<RowView>,
    pieces: Seq<(Seq<u8>, Loc)>,
    at: nat,
) -> PlanView {
    PlanView {
        member: text::chars(names::refold_name(generation, lo, hi)),
        seq_lo: lo,
        seq_hi: hi,
        rows,
        pieces,
        start: at,
        replaces: 0,
        flush: false,
    }
}

/// What rebuilding the first `n` parts gives, and where the next interval begins.
///
/// A part without a visible row goes. Its interval is history all the same: the next part that
/// stays takes it over, and the last one that stays takes over all that follow.
pub open spec fn rebuilt_among(
    parts: Seq<PartView>,
    refs: Seq<PartRefView>,
    generation: u32,
    w: WriterView,
    n: nat,
) -> Result<(Seq<PlanView>, u64), RefoldError>
    decreases n,
{
    if n == 0 {
        Ok((Seq::empty(), refs[0].seq_lo))
    } else {
        match rebuilt_among(parts, refs, generation, w, (n - 1) as nat) {
            Err(e) => Err(e),
            Ok((before, lo)) => {
                let rows = kept(parts, n - 1);
                if rows.len() == 0 {
                    Ok((before, lo))
                } else {
                    let hi = if last_kept(parts, n - 1) {
                        refs.last().seq_hi
                    } else {
                        refs[n - 1].seq_hi
                    };
                    match publish::dict_rows(Seq::empty(), w, rows, rows.len()) {
                        Err(error) => Err(RefoldError::Build { error }),
                        Ok(pieces) => Ok(
                            (
                                before.push(
                                    rebuilt_plan(generation, lo, hi, rows, pieces, before.len()),
                                ),
                                if hi == u64::MAX {
                                    u64::MAX
                                } else {
                                    (hi + 1) as u64
                                },
                            ),
                        ),
                    }
                }
            },
        }
    }
}

/// The parts that all parts are rebuilt as. Without a visible row one empty part carries their
/// whole interval, so that no sequence is ever used again.
pub open spec fn rebuilt(
    parts: Seq<PartView>,
    refs: Seq<PartRefView>,
    generation: u32,
    w: WriterView,
) -> Result<Seq<PlanView>, RefoldError> {
    match rebuilt_among(parts, refs, generation, w, parts.len()) {
        Err(e) => Err(e),
        Ok((plans, _)) => if plans.len() == 0 {
            Ok(
                seq![
                    rebuilt_plan(
                        generation,
                        refs[0].seq_lo,
                        refs.last().seq_hi,
                        Seq::empty(),
                        Seq::empty(),
                        0,
                    ),
                ],
            )
        } else {
            Ok(plans)
        },
    }
}

proof fn lemma_rebuilt_prefix(
    parts: Seq<PartView>,
    refs: Seq<PartRefView>,
    generation: u32,
    w: WriterView,
    k: nat,
    n: nat,
)
    requires
        k <= n,
        rebuilt_among(parts, refs, generation, w, k) is Err,
    ensures
        rebuilt_among(parts, refs, generation, w, n) == rebuilt_among(parts, refs, generation, w, k),
    decreases n,
{
    if k < n {
        lemma_rebuilt_prefix(parts, refs, generation, w, k, (n - 1) as nat);
    }
}

fn keep_rows(parts: &Vec<Part>, p: usize) -> (r: Vec<Row>)
    requires
        p < parts@.len(),
        part::parts_sound(part::parts_view(parts@)),
    ensures
        part::rows_view(r@) == kept(part::parts_view(parts@), p as int),
{
    let ghost pv = part::parts_view(parts@);
    let part = &parts[p];
    let mut out: Vec<Row> = Vec::new();
    let mut i: usize = 0;
    assert(part::rows_view(out@) =~= Seq::<RowView>::empty());
    while i < part.rows.len()
        invariant
            pv == part::parts_view(parts@),
            part::parts_sound(pv),
            p < parts@.len(),
            part@ == pv[p as int],
            i <= part.rows@.len(),
            part::rows_view(out@) == kept_rows(pv, p as int, i as nat),
        decreases part.rows.len() - i,
    {
        assert(pv[p as int].rows[i as int] == part.rows@[i as int]@);
        if part.rows[i].record.is_some() && !read::newer_holds(parts, p, part.rows[i].id.as_str()) {
            let ghost before = out@;
            let row = part.rows[i].clone();
            let ghost v = row@;
            out.push(row);
            assert(part::rows_view(out@) =~= part::rows_view(before).push(v));
        }
        i = i + 1;
    }
    out
}

fn none_kept_after(parts: &Vec<Part>, p: usize) -> (r: bool)
    requires
        p < parts@.len(),
        part::parts_sound(part::parts_view(parts@)),
    ensures
        r == last_kept(part::parts_view(parts@), p as int),
{
    let ghost pv = part::parts_view(parts@);
    let total: usize = parts.len();
    assert(p < total);
    let mut q: usize = p + 1;
    while q < parts.len()
        invariant
            pv == part::parts_view(parts@),
            part::parts_sound(pv),
            p < q <= parts@.len(),
            forall|k: int| p < k < q ==> (#[trigger] kept(pv, k)).len() == 0,
        decreases parts.len() - q,
    {
        let rows = keep_rows(parts, q);
        if rows.len() > 0 {
            assert(kept(pv, q as int).len() != 0);
            return false;
        }
        q = q + 1;
    }
    true
}

/// Whether a row is a visible one among the first `n` of a part.
pub open spec fn is_kept(parts: Seq<PartView>, p: int, n: nat, row: RowView) -> bool {
    exists|k: int|
        0 <= k < n && parts[p].rows[k] == row && #[trigger] read::verdict(parts, p, k)
            == Verdict::Live
}

/// The visible rows of a part are in order.
pub proof fn lemma_kept_sound(parts: Seq<PartView>, p: int, n: nat)
    requires
        part::part_sound(parts[p]),
        n <= parts[p].rows.len(),
    ensures
        part::ids_ascending(kept_rows(parts, p, n)),
        part::ids_agree(kept_rows(parts, p, n)),
        kept_rows(parts, p, n).len() <= n,
        forall|i: int|
            0 <= i < kept_rows(parts, p, n).len() ==> is_kept(
                parts,
                p,
                n,
                #[trigger] kept_rows(parts, p, n)[i],
            ),
        forall|k: int|
            0 <= k < n && #[trigger] read::verdict(parts, p, k) == Verdict::Live ==> kept_rows(
                parts,
                p,
                n,
            ).contains(parts[p].rows[k]),
    decreases n,
{
    if n > 0 {
        lemma_kept_sound(parts, p, (n - 1) as nat);
        let before = kept_rows(parts, p, (n - 1) as nat);
        let all = kept_rows(parts, p, n);
        let rows = parts[p].rows;
        assert forall|i: int| 0 <= i < all.len() implies is_kept(parts, p, n, #[trigger] all[i]) by {
            if i < before.len() {
                assert(all[i] == before[i]);
                assert(is_kept(parts, p, (n - 1) as nat, before[i]));
                let k = choose|k: int|
                    0 <= k < n - 1 && rows[k] == before[i] && #[trigger] read::verdict(parts, p, k)
                        == Verdict::Live;
                assert(rows[k] == all[i]);
            } else {
                assert(rows[n - 1] == all[i] && read::verdict(parts, p, n - 1) == Verdict::Live);
            }
        }
        assert forall|i: int, j: int| 0 <= i < j < all.len() implies bytes::name_lt(
            #[trigger] all[i].id,
            #[trigger] all[j].id,
        ) by {
            assert(all[i] == before[i]);
            if j < before.len() {
                assert(all[j] == before[j]);
            } else {
                assert(is_kept(parts, p, (n - 1) as nat, before[i]));
                let k = choose|k: int|
                    0 <= k < n - 1 && rows[k] == before[i] && #[trigger] read::verdict(parts, p, k)
                        == Verdict::Live;
                assert(bytes::name_lt(rows[k].id, rows[n - 1].id));
            }
        }
        assert forall|i: int| 0 <= i < all.len() && (#[trigger] all[i]).record is Some implies
            all[i].record->0.id == all[i].id by {
            if i < before.len() {
                assert(all[i] == before[i]);
            } else {
                assert(all[i] == rows[n - 1]);
            }
        }
        assert forall|k: int| 0 <= k < n && #[trigger] read::verdict(parts, p, k)
            == Verdict::Live implies all.contains(rows[k]) by {
            if k < n - 1 {
                assert(before.contains(rows[k]));
                let i = choose|i: int| 0 <= i < before.len() && before[i] == rows[k];
                assert(all[i] == rows[k]);
            } else {
                assert(all[all.len() - 1] == rows[k]);
            }
        }
    }
}

/// Every plan's rows are in order.
pub open spec fn plans_sound(plans: Seq<PlanView>) -> bool {
    forall|i: int|
        0 <= i < plans.len() ==> part::ids_ascending((#[trigger] plans[i]).rows) && part::ids_agree(
            plans[i].rows,
        )
}

fn rebuild(parts: &Vec<Part>, refs: &Vec<PartRef>, generation: u32, w: &FoldWriter) -> (r: Result<
    Vec<PartPlan>,
    RefoldError,
>)
    requires
        part::parts_sound(part::parts_view(parts@)),
        parts@.len() == refs@.len(),
        parts@.len() > 0,
    ensures
        ({
            let pv = part::parts_view(parts@);
            let rv = manifest::refs_view(refs@);
            match r {
                Ok(plans) => {
                    &&& rebuilt(pv, rv, generation, w@) == Ok::<Seq<PlanView>, RefoldError>(
                        plans_view(plans@),
                    )
                    &&& plans_sound(plans_view(plans@))
                    &&& plans@.len() > 0
                },
                Err(e) => rebuilt(pv, rv, generation, w@) == Err::<Seq<PlanView>, RefoldError>(e),
            }
        }),
{
    let ghost pv = part::parts_view(parts@);
    let ghost rv = manifest::refs_view(refs@);
    let none: Vec<Part> = Vec::new();
    let mut plans: Vec<PartPlan> = Vec::new();
    assert(rv[0] == refs@[0]@);
    let mut lo: u64 = refs[0].seq_lo;
    let last: usize = refs.len() - 1;
    assert(rv.last() == refs@[last as int]@);
    let mut p: usize = 0;
    assert(plans_view(plans@) =~= Seq::<PlanView>::empty());
    assert(part::parts_view(none@) =~= Seq::<PartView>::empty());
    while p < parts.len()
        invariant
            pv == part::parts_view(parts@),
            rv == manifest::refs_view(refs@),
            part::parts_view(none@) == Seq::<PartView>::empty(),
            part::parts_sound(pv),
            parts@.len() == refs@.len(),
            last == refs@.len() - 1,
            rv.last() == refs@[last as int]@,
            p <= parts@.len(),
            plans@.len() <= p,
            plans_sound(plans_view(plans@)),
            rebuilt_among(pv, rv, generation, w@, p as nat) == Ok::<
                (Seq<PlanView>, u64),
                RefoldError,
            >((plans_view(plans@), lo)),
        decreases parts.len() - p,
    {
        assert(rv[p as int] == refs@[p as int]@);
        let rows = keep_rows(parts, p);
        if rows.len() > 0 {
            proof {
                assert(part::part_sound(pv[p as int]));
                lemma_kept_sound(pv, p as int, pv[p as int].rows.len());
            }
            let hi: u64 = if none_kept_after(parts, p) {
                refs[last].seq_hi
            } else {
                refs[p].seq_hi
            };
            let pieces = match publish::dictionary_of(&none, w, &rows) {
                Ok(d) => d,
                Err(error) => {
                    proof {
                        lemma_rebuilt_prefix(pv, rv, generation, w@, (p + 1) as nat, pv.len());
                    }
                    return Err(RefoldError::Build { error });
                },
            };
            let ghost before = plans@;
            let at: usize = plans.len();
            let plan = PartPlan {
                member: names::refold_member(generation, lo, hi),
                seq_lo: lo,
                seq_hi: hi,
                rows,
                pieces,
                start: at,
                replaces: 0,
                flush: false,
            };
            let ghost v = plan@;
            plans.push(plan);
            proof {
                assert(plans_view(plans@) =~= plans_view(before).push(v));
                assert(v == rebuilt_plan(
                    generation,
                    lo,
                    hi,
                    v.rows,
                    v.pieces,
                    plans_view(before).len(),
                ));
            }
            lo = hi.saturating_add(1);
        }
        p = p + 1;
    }
    if plans.len() == 0 {
        let empty_lo: u64 = refs[0].seq_lo;
        let empty_hi: u64 = refs[last].seq_hi;
        let plan = PartPlan {
            member: names::refold_member(generation, empty_lo, empty_hi),
            seq_lo: empty_lo,
            seq_hi: empty_hi,
            rows: Vec::new(),
            pieces: Vec::new(),
            start: 0,
            replaces: 0,
            flush: false,
        };
        let ghost v = plan@;
        plans.push(plan);
        proof {
            assert(v.rows =~= Seq::<RowView>::empty());
            assert(v.pieces =~= Seq::<(Seq<u8>, Loc)>::empty());
            assert(rv[0] == refs@[0]@);
            assert(plans_view(plans@) =~= seq![v]);
        }
    }
    Ok(plans)
}

// ---------------------------------------------------------------------------------------------
// The plan.
// ---------------------------------------------------------------------------------------------
/// A new generation and the parts over it.
pub struct RefoldPlan {
    pub generation: u32,
    pub writer: FoldWriter,
    pub parts: Vec<PartPlan>,
    /// Without the byte counts, which the host knows.
    pub stats: RefoldStats,
}

/// View of a [`RefoldPlan`].
pub struct RefoldView {
    pub generation: u32,
    pub writer: WriterView,
    pub parts: Seq<PlanView>,
    pub stats: RefoldStats,
}

impl View for RefoldPlan {
    type V = RefoldView;

    open spec fn view(&self) -> RefoldView {
        RefoldView {
            generation: self.generation,
            writer: self.writer@,
            parts: plans_view(self.parts@),
            stats: self.stats,
        }
    }
}

/// How many rows of the first `n` parts get a verdict.
pub open spec fn verdicts(parts: Seq<PartView>, n: nat, v: Verdict) -> nat
    decreases n,
{
    if n == 0 {
        0
    } else {
        verdicts(parts, (n - 1) as nat, v) + read::verdict_count(
            parts,
            n - 1,
            parts[n - 1].rows.len(),
            v,
        )
    }
}

/// What a refold counts, before bytes are known.
pub open spec fn refold_counts(parts: Seq<PartView>, pieces: nat, out: nat) -> RefoldStats {
    let n = parts.len();
    let superseded = verdicts(parts, n, Verdict::Superseded);
    let tombstones = verdicts(parts, n, Verdict::Tombstone);
    let all = all_pieces(parts, n).len();
    RefoldStats {
        parts_in: n as usize,
        parts_out: out as usize,
        records_kept: audit::fit(verdicts(parts, n, Verdict::Live)),
        records_dropped: audit::fit(superseded + tombstones),
        tombstones_dropped: audit::fit(tombstones),
        pieces_kept: pieces as usize,
        pieces_dropped: if all >= pieces {
            (all - pieces) as usize
        } else {
            0
        },
        fold_bytes_before: 0,
        fold_bytes_after: 0,
        stale_generation_left: false,
    }
}

/// The refold of a store.
pub open spec fn refold_plan(s: StoreView) -> Result<RefoldView, RefoldError> {
    let n = s.parts.len();
    if s.manifest.fold_gen >= MAX_FOLD_GENERATION {
        Err(RefoldError::GenerationsExhausted)
    } else {
        let generation = (s.manifest.fold_gen + 1) as u32;
        match wanted(s.parts, n) {
            None => Err(RefoldError::AbsentPiece),
            Some(pieces) => {
                let order = fold_order(pieces, pieces.len());
                match copied(s.writer.fold, order, order.len(), s.writer.target) {
                    Err(e) => Err(e),
                    Ok(w) => match rebuilt(s.parts, s.manifest.parts, generation, w) {
                        Err(e) => Err(e),
                        Ok(parts) => Ok(
                            RefoldView {
                                generation,
                                writer: w,
                                parts,
                                stats: refold_counts(s.parts, pieces.len(), parts.len()),
                            },
                        ),
                    },
                }
            },
        }
    }
}

fn count_part(parts: &Vec<Part>, p: usize, v: Verdict, from: usize, Ghost(n): Ghost<nat>) -> (r: usize)
    requires
        p < parts@.len(),
        part::parts_sound(part::parts_view(parts@)),
        from == audit::fit(n),
    ensures
        ({
            let pv = part::parts_view(parts@);
            r == audit::fit(n + read::verdict_count(pv, p as int, pv[p as int].rows.len(), v))
        }),
{
    let ghost pv = part::parts_view(parts@);
    let part = &parts[p];
    let mut sum: usize = from;
    let mut i: usize = 0;
    while i < part.rows.len()
        invariant
            pv == part::parts_view(parts@),
            part::parts_sound(pv),
            p < parts@.len(),
            part@ == pv[p as int],
            i <= part.rows@.len(),
            sum == audit::fit(n + read::verdict_count(pv, p as int, i as nat, v)),
        decreases part.rows.len() - i,
    {
        assert(pv[p as int].rows[i as int] == part.rows@[i as int]@);
        let verdict = if read::newer_holds(parts, p, part.rows[i].id.as_str()) {
            Verdict::Superseded
        } else if part.rows[i].record.is_none() {
            Verdict::Tombstone
        } else {
            Verdict::Live
        };
        if verdict == v {
            sum =
            audit::add_fit(
                sum,
                1,
                Ghost((n + read::verdict_count(pv, p as int, i as nat, v)) as nat),
            );
        }
        i = i + 1;
    }
    sum
}

fn count_verdicts(parts: &Vec<Part>, v: Verdict) -> (r: usize)
    requires
        part::parts_sound(part::parts_view(parts@)),
    ensures
        ({
            let pv = part::parts_view(parts@);
            r == audit::fit(verdicts(pv, pv.len(), v))
        }),
{
    let ghost pv = part::parts_view(parts@);
    let mut sum: usize = 0;
    let mut p: usize = 0;
    while p < parts.len()
        invariant
            pv == part::parts_view(parts@),
            part::parts_sound(pv),
            p <= parts@.len(),
            sum == audit::fit(verdicts(pv, p as nat, v)),
        decreases parts.len() - p,
    {
        sum = count_part(parts, p, v, sum, Ghost(verdicts(pv, p as nat, v)));
        p = p + 1;
    }
    sum
}

/// A copy's writer is sound.
pub proof fn lemma_copied_ok(f: FoldView, order: Seq<(Seq<u8>, Loc)>, n: nat, target: u32)
    requires
        n <= order.len(),
        copied(f, order, n, target) is Ok,
    ensures
        writer::writer_ok(copied(f, order, n, target)->Ok_0),
        copied(f, order, n, target)->Ok_0.fold.punched.len() == 0,
        copied(f, order, n, target)->Ok_0.sealed == 0,
        copied(f, order, n, target)->Ok_0.target == target,
    decreases n,
{
    if n > 0 {
        lemma_copied_ok(f, order, (n - 1) as nat, target);
        let w = copied(f, order, (n - 1) as nat, target)->Ok_0;
        let (h, loc) = order[n - 1];
        let b = fold::fold_read(f, loc, h)->Ok_0;
        assert(b.len() == loc.raw);
        assert(hash::blake3_digest(b) == h);
        writer::lemma_appended(w, b);
    }
}

// ---------------------------------------------------------------------------------------------
// The switch.
// ---------------------------------------------------------------------------------------------
/// References to the first `n` rebuilt parts.
pub open spec fn rebuilt_refs(parts: Seq<PlanView>, encoded: Seq<EncodedPart>) -> Seq<PartRefView> {
    Seq::new(parts.len(), |i: int| publish::plan_ref(parts[i], encoded[i].bytes@))
}

/// The manifest over a new generation. Block ids are per generation: nothing is given up in it.
pub open spec fn refold_manifest(
    m: ManifestView,
    p: RefoldView,
    encoded: Seq<EncodedPart>,
    tail: FoldTail,
) -> ManifestView {
    ManifestView {
        parts: rebuilt_refs(p.parts, encoded),
        fold_gen: p.generation,
        punched: Seq::empty(),
        fold_seg: tail.seg,
        fold_off: tail.off,
        ..m
    }
}

/// Whether some rebuilt part has more rows than a manifest can count.
pub open spec fn rows_exceed(parts: Seq<PlanView>) -> bool {
    exists|i: int| 0 <= i < parts.len() && (#[trigger] parts[i]).rows.len() > u32::MAX
}

/// Members with the first `n` rebuilt parts.
pub open spec fn with_parts(
    ms: Seq<MemberView>,
    parts: Seq<PlanView>,
    encoded: Seq<EncodedPart>,
    n: nat,
) -> Seq<MemberView>
    decreases n,
{
    if n == 0 {
        ms
    } else {
        container::put_sorted(
            with_parts(ms, parts, encoded, (n - 1) as nat),
            publish::plan_member(parts[n - 1], encoded[n - 1]),
        )
    }
}

/// Whether a name is that of a retained revision other than `commit`.
pub open spec fn other_revision(name: Seq<char>, commit: u64) -> bool {
    match names::retained_commit(encode_utf8(name)) {
        Some(c) => c != commit && encode_utf8(name) == names::retained_name(c),
        None => false,
    }
}

/// The first `n` members without retained revisions other than `commit`.
pub open spec fn purged(ms: Seq<MemberView>, commit: u64, n: nat) -> Seq<MemberView>
    decreases n,
{
    if n == 0 {
        Seq::empty()
    } else {
        let before = purged(ms, commit, (n - 1) as nat);
        if other_revision(ms[n - 1].name, commit) {
            before
        } else {
            before.push(ms[n - 1])
        }
    }
}

/// Members with the rebuilt parts and their revision, and with no other revision.
pub open spec fn refold_staged(
    ms: Seq<MemberView>,
    p: RefoldView,
    encoded: Seq<EncodedPart>,
    m: ManifestView,
    json: Seq<u8>,
) -> Seq<MemberView> {
    let all = commit::committed(with_parts(ms, p.parts, encoded, p.parts.len()), m, json);
    purged(all, m.commit, all.len())
}

/// The rebuilt parts.
pub open spec fn rebuilt_parts(parts: Seq<PlanView>, encoded: Seq<EncodedPart>) -> Seq<PartView> {
    Seq::new(
        parts.len(),
        |i: int| publish::plan_part(parts[i], encoded[i].sections, encoded[i].section_bytes),
    )
}

/// A store after a refold.
pub open spec fn refolded_store(
    s: StoreView,
    p: RefoldView,
    encoded: Seq<EncodedPart>,
    m: ManifestView,
) -> StoreView {
    StoreView {
        parts: rebuilt_parts(p.parts, encoded),
        manifest: m,
        writer: WriterView {
            window: Seq::empty(),
            sealed: p.writer.fold.blocks.len(),
            ..p.writer
        },
        retained_commit_count: 1,
        ..s
    }
}

/// What staging a refold gives: the container's next state.
pub open spec fn refold_next(
    s: StoreView,
    before: Seq<MemberView>,
    p: RefoldView,
    encoded: Seq<EncodedPart>,
    m: ManifestView,
    json: Seq<u8>,
) -> Result<Seq<MemberView>, PublishError> {
    let staged = refold_staged(before, p, encoded, m, json);
    let commits = chain::retained_commits(staged);
    if s.requires_reopen {
        Err(PublishError::RequiresReopen)
    } else {
        match commit::retained_fault(staged, commits, commits.len()) {
            Some(error) => Err(PublishError::Sweep { error }),
            None => Ok(commit::swept(staged, m)),
        }
    }
}

/// What a refold reports, given what the old and the new generation take.
pub open spec fn refold_report(p: RefoldView, bytes_before: u64, bytes_after: u64) -> RefoldStats {
    RefoldStats {
        fold_bytes_before: bytes_before,
        fold_bytes_after: bytes_after,
        stale_generation_left: false,
        ..p.stats
    }
}

/// What adopting a refold does, given how the flip ended.
pub open spec fn refold_outcome(
    s: StoreView,
    t: StoreView,
    p: RefoldView,
    encoded: Seq<EncodedPart>,
    m: ManifestView,
    outcome: CommitOutcome,
    r: Result<RefoldStats, PublishError>,
    bytes_before: u64,
    bytes_after: u64,
) -> bool {
    if s.requires_reopen {
        r == Err::<RefoldStats, PublishError>(PublishError::RequiresReopen) && t == s
    } else {
        match outcome {
            CommitOutcome::NotSelected => {
                &&& r == Err::<RefoldStats, PublishError>(PublishError::NotSelected)
                &&& t == s
            },
            CommitOutcome::SelectedUnsynced => {
                &&& r == Err::<RefoldStats, PublishError>(PublishError::Unsynchronized)
                &&& t == StoreView { unsynced: true, ..refolded_store(s, p, encoded, m) }
            },
            CommitOutcome::Committed => {
                &&& r == Ok::<RefoldStats, PublishError>(
                    refold_report(p, bytes_before, bytes_after),
                )
                &&& t == StoreView { unsynced: false, ..refolded_store(s, p, encoded, m) }
            },
        }
    }
}

/// A refold that was staged with its revision.
pub struct StagedRefold {
    pub plan: RefoldPlan,
    pub encoded: Vec<EncodedPart>,
    pub parts: Vec<Part>,
    pub manifest: Manifest,
}

fn is_other(name: &str, commit: u64) -> (r: bool)
    ensures
        r == other_revision(name@, commit),
{
    match names::parse_retained(name.as_bytes()) {
        Some(c) => {
            if c == commit {
                return false;
            }
            let canonical = names::retained_member(c);
            bytes::bytes_eq(name.as_bytes(), canonical.as_str().as_bytes())
        },
        None => false,
    }
}

fn purge_revisions(c: &mut Container, commit: u64)
    ensures
        final(c)@.members == purged(old(c)@.members, commit, old(c)@.members.len()),
        final(c)@.seq == old(c)@.seq,
{
    let ghost all = c@.members;
    let ghost seq = c.seq;
    let mut held: Vec<Member> = Vec::new();
    let mut i: usize = 0;
    assert(container::members_view(held@) =~= Seq::<MemberView>::empty());
    while i < c.members.len()
        invariant
            all == c@.members,
            c.seq == seq,
            i <= c.members@.len(),
            container::members_view(held@) == purged(all, commit, i as nat),
        decreases c.members.len() - i,
    {
        assert(all[i as int] == c.members@[i as int]@);
        if !is_other(c.members[i].name.as_str(), commit) {
            let ghost before = held@;
            let copied = c.members[i].clone();
            let ghost v = copied@;
            held.push(copied);
            assert(container::members_view(held@) =~= container::members_view(before).push(v));
        }
        i = i + 1;
    }
    c.members = held;
}

fn copy_part(plan: &PartPlan, encoded: &EncodedPart) -> (r: Part)
    ensures
        r@ == publish::plan_part(plan@, encoded.sections, encoded.section_bytes),
{
    let mut pieces: Vec<(PieceHash, Loc)> = Vec::new();
    let mut i: usize = 0;
    while i < plan.pieces.len()
        invariant
            i <= plan.pieces@.len(),
            pieces@ == plan.pieces@.take(i as int),
        decreases plan.pieces.len() - i,
    {
        pieces.push(plan.pieces[i]);
        i = i + 1;
        assert(pieces@ =~= plan.pieces@.take(i as int));
    }
    assert(pieces@ =~= plan.pieces@);
    Part {
        seq_lo: plan.seq_lo,
        seq_hi: plan.seq_hi,
        rows: publish::clone_rows(&plan.rows),
        pieces,
        sections: encoded.sections,
        section_bytes: encoded.section_bytes,
    }
}

fn stage_parts(c: &mut Container, plans: &Vec<PartPlan>, encoded: &Vec<EncodedPart>) -> (r: Vec<Part>)
    requires
        plans@.len() == encoded@.len(),
    ensures
        final(c)@.members == with_parts(
            old(c)@.members,
            plans_view(plans@),
            encoded@,
            plans@.len(),
        ),
        final(c)@.seq == old(c)@.seq,
        part::parts_view(r@) == rebuilt_parts(plans_view(plans@), encoded@),
{
    let ghost pv = plans_view(plans@);
    let ghost ms = c@.members;
    let ghost seq = c@.seq;
    let mut out: Vec<Part> = Vec::new();
    let mut i: usize = 0;
    while i < plans.len()
        invariant
            pv == plans_view(plans@),
            plans@.len() == encoded@.len(),
            i <= plans@.len(),
            c@.members == with_parts(ms, pv, encoded@, i as nat),
            c@.seq == seq,
            out@.len() == i,
            forall|k: int|
                0 <= k < i ==> (#[trigger] out@[k])@ == publish::plan_part(
                    pv[k],
                    encoded@[k].sections,
                    encoded@[k].section_bytes,
                ),
        decreases plans.len() - i,
    {
        assert(pv[i as int] == plans@[i as int]@);
        let part = copy_part(&plans[i], &encoded[i]);
        let mut held: Vec<u8> = Vec::new();
        bytes::append_bytes(&mut held, encoded[i].bytes.as_slice());
        assert(held@ =~= encoded@[i as int].bytes@);
        let checksum: u32 = hash::crc32(held.as_slice());
        let member = Member {
            name: plans[i].member.clone(),
            bytes: held,
            checksum,
            manifest: None,
            part: Some(part.clone()),
            blocks: None,
        };
        assert(member@ == publish::plan_member(pv[i as int], encoded@[i as int]));
        c.put(member);
        out.push(part);
        i = i + 1;
    }
    assert(part::parts_view(out@) =~= rebuilt_parts(pv, encoded@));
    out
}

impl Store {
    /// Copy what visible records reference into a new generation, and rebuild the parts over it.
    /// Nothing for a store without parts. The store is unchanged.
    pub fn plan_refold(&self) -> (r: Result<Option<RefoldPlan>, RefoldError>)
        requires
            engine::store_ok(self@),
        ensures
            ({
                let s = self@;
                if s.requires_reopen {
                    r == Err::<Option<RefoldPlan>, RefoldError>(RefoldError::RequiresReopen)
                } else if s.mem.len() > 0 {
                    r == Err::<Option<RefoldPlan>, RefoldError>(RefoldError::UnflushedMemtable)
                } else if s.parts.len() == 0 {
                    r == Ok::<Option<RefoldPlan>, RefoldError>(None)
                } else {
                    match r {
                        Ok(Some(p)) => {
                            &&& refold_plan(s) == Ok::<RefoldView, RefoldError>(p@)
                            &&& plans_sound(p@.parts)
                            &&& writer::writer_ok(p@.writer)
                            &&& p@.writer.fold.punched.len() == 0
                        },
                        Ok(None) => false,
                        Err(e) => refold_plan(s) == Err::<RefoldView, RefoldError>(e),
                    }
                }
            }),
    {
        if self.requires_reopen {
            return Err(RefoldError::RequiresReopen);
        }
        if self.mem.len() > 0 {
            return Err(RefoldError::UnflushedMemtable);
        }
        if self.parts.len() == 0 {
            return Ok(None);
        }
        if self.manifest.fold_gen >= MAX_FOLD_GENERATION {
            return Err(RefoldError::GenerationsExhausted);
        }
        let generation: u32 = self.manifest.fold_gen + 1;
        let pieces = match want_all(&self.parts) {
            Some(d) => d,
            None => {
                return Err(RefoldError::AbsentPiece);
            },
        };
        let order = sort_pieces(&pieces);
        let w = match copy_pieces(&self.writer.fold, &order, self.writer.target) {
            Ok(w) => w,
            Err(e) => {
                return Err(e);
            },
        };
        proof {
            lemma_copied_ok(
                self@.writer.fold,
                part::dictionary_view(order@),
                order@.len(),
                self@.writer.target,
            );
        }
        let parts = match rebuild(&self.parts, &self.manifest.parts, generation, &w) {
            Ok(p) => p,
            Err(e) => {
                return Err(e);
            },
        };
        let superseded: usize = count_verdicts(&self.parts, Verdict::Superseded);
        let tombstones: usize = count_verdicts(&self.parts, Verdict::Tombstone);
        let kept: usize = count_verdicts(&self.parts, Verdict::Live);
        let all: usize = count_pieces(&self.parts);
        let stats = RefoldStats {
            parts_in: self.parts.len(),
            parts_out: parts.len(),
            records_kept: kept,
            records_dropped: superseded.saturating_add(tombstones),
            tombstones_dropped: tombstones,
            pieces_kept: pieces.len(),
            pieces_dropped: all.saturating_sub(pieces.len()),
            fold_bytes_before: 0,
            fold_bytes_after: 0,
            stale_generation_left: false,
        };
        Ok(Some(RefoldPlan { generation, writer: w, parts, stats }))
    }

    /// Make the revision that names a refold's generation and parts. A failure leaves the store as
    /// it is.
    pub fn prepare_refold(
        &self,
        c: &Container,
        plan: &RefoldPlan,
        encoded: &Vec<EncodedPart>,
        tail: FoldTail,
    ) -> (r: Result<Manifest, PublishError>)
        requires
            plan@.parts.len() == encoded@.len(),
        ensures
            ({
                let next = refold_manifest(self@.manifest, plan@, encoded@, tail);
                let predecessor = publish::predecessor_bytes(c@.members);
                if self@.requires_reopen {
                    r == Err::<Manifest, PublishError>(PublishError::RequiresReopen)
                } else if rows_exceed(plan@.parts) {
                    r == Err::<Manifest, PublishError>(PublishError::TooManyRows)
                } else {
                    match r {
                        Ok(m) => manifest::succeeding(next, m@, predecessor)
                            && manifest::manifest_fault(m@) is None,
                        Err(PublishError::Manifest { error }) => if next.commit == u64::MAX {
                            error == manifest::ManifestError::RevisionsExhausted
                        } else {
                            exists|m: ManifestView| #[trigger]
                                manifest::succeeding(next, m, predecessor)
                                    && manifest::manifest_fault(m) == Some(error)
                        },
                        Err(_) => false,
                    }
                }
            }),
    {
        if self.requires_reopen {
            return Err(PublishError::RequiresReopen);
        }
        let ghost pv = plan@.parts;
        let mut refs: Vec<PartRef> = Vec::new();
        let mut i: usize = 0;
        while i < plan.parts.len()
            invariant
                pv == plans_view(plan.parts@),
                plan.parts@.len() == encoded@.len(),
                !self@.requires_reopen,
                i <= plan.parts@.len(),
                refs@.len() == i,
                forall|k: int| 0 <= k < i ==> (#[trigger] pv[k]).rows.len() <= u32::MAX,
                forall|k: int|
                    0 <= k < i ==> (#[trigger] refs@[k])@ == publish::plan_ref(
                        pv[k],
                        encoded@[k].bytes@,
                    ),
            decreases plan.parts.len() - i,
        {
            assert(pv[i as int] == plan.parts@[i as int]@);
            if plan.parts[i].rows.len() as u64 > u32::MAX as u64 {
                assert(pv[i as int].rows.len() > u32::MAX);
                return Err(PublishError::TooManyRows);
            }
            let digest = hash::blake3_hash(encoded[i].bytes.as_slice());
            refs.push(
                PartRef {
                    member: plan.parts[i].member.clone(),
                    seq_lo: plan.parts[i].seq_lo,
                    seq_hi: plan.parts[i].seq_hi,
                    records: plan.parts[i].rows.len() as u32,
                    b3: text::hex_text(digest.as_slice()),
                },
            );
            i = i + 1;
        }
        let ghost before = self.manifest@;
        let mut next = self.manifest.clone();
        next.parts = refs;
        next.fold_gen = plan.generation;
        next.punched = Vec::new();
        next.fold_seg = tail.seg;
        next.fold_off = tail.off;
        proof {
            assert(manifest::refs_view(next.parts@) =~= rebuilt_refs(pv, encoded@));
            assert(next.punched@ =~= Seq::<(u32, u32)>::empty());
            assert(next@ == refold_manifest(before, plan@, encoded@, tail));
        }
        match commit::prepare_revision(c, &mut next) {
            Ok(()) => Ok(next),
            Err(error) => Err(PublishError::Manifest { error }),
        }
    }

    /// Stage a refold's parts and its revision, without every other revision and what only they
    /// needed: the container's next state, which the host then flips to. The host stages the
    /// generation's own members. Time travel does not cross a refold.
    pub fn stage_refold(
        &self,
        c: &Container,
        plan: RefoldPlan,
        encoded: Vec<EncodedPart>,
        m: Manifest,
        json: &Vec<u8>,
    ) -> (r: Result<(Container, StagedRefold), PublishError>)
        requires
            plan@.parts.len() == encoded@.len(),
        ensures
            refold_next(self@, c@.members, plan@, encoded@, m@, json@) == (match r {
                Ok((next, _)) => Ok::<Seq<MemberView>, PublishError>(next@.members),
                Err(e) => Err(e),
            }),
            r matches Ok((next, staged)) ==> {
                &&& next@.seq == c@.seq
                &&& staged.plan@ == plan@
                &&& staged.encoded@ == encoded@
                &&& part::parts_view(staged.parts@) == rebuilt_parts(plan@.parts, encoded@)
                &&& staged.manifest == m
            },
    {
        if self.requires_reopen {
            return Err(PublishError::RequiresReopen);
        }
        let mut next = publish::clone_container(c);
        let parts = stage_parts(&mut next, &plan.parts, &encoded);
        commit::commit_into_container(&mut next, &m, json);
        purge_revisions(&mut next, m.commit);
        if let Err(error) = commit::sweep_unreachable_container(&mut next, &m) {
            return Err(PublishError::Sweep { error });
        }
        Ok((next, StagedRefold { plan, encoded, parts, manifest: m }))
    }

    /// Take the outcome of the flip to a staged refold. Only a flip that selected it changes the
    /// generation. The host says what the old and the new one take.
    pub fn refold(
        &mut self,
        staged: StagedRefold,
        outcome: CommitOutcome,
        bytes_before: u64,
        bytes_after: u64,
    ) -> (r: Result<RefoldStats, PublishError>)
        requires
            engine::store_ok(old(self)@),
            old(self)@.mem.len() == 0,
            staged.plan@.parts.len() == staged.encoded@.len(),
            part::parts_view(staged.parts@) == rebuilt_parts(
                staged.plan@.parts,
                staged.encoded@,
            ),
            plans_sound(staged.plan@.parts),
            writer::writer_ok(staged.plan@.writer),
            staged.plan@.writer.fold.punched.len() == 0,
            staged.manifest@.parts.len() == staged.plan@.parts.len(),
            staged.manifest@.punched.len() == 0,
        ensures
            engine::store_ok(final(self)@),
            refold_outcome(
                old(self)@,
                final(self)@,
                staged.plan@,
                staged.encoded@,
                staged.manifest@,
                outcome,
                r,
                bytes_before,
                bytes_after,
            ),
    {
        if self.requires_reopen {
            return Err(PublishError::RequiresReopen);
        }
        if outcome == CommitOutcome::NotSelected {
            return Err(PublishError::NotSelected);
        }
        let ghost s = self@;
        let ghost pv = staged.plan@;
        let ghost ev = staged.encoded@;
        let StagedRefold { plan, encoded: _, parts, manifest: m } = staged;
        let mut w = plan.writer;
        w.sealed = w.fold.blocks.len();
        w.window = Vec::new();
        proof {
            assert(part::dictionary_view(w.window@) =~= Seq::<(Seq<u8>, Loc)>::empty());
            assert(w.fold.punched@ =~= m.punched@);
        }
        self.parts = parts;
        self.manifest = m;
        self.writer = w;
        self.retained_commit_count = 1;
        self.unsynced = outcome == CommitOutcome::SelectedUnsynced;
        proof {
            let t = self@;
            assert(t == StoreView {
                unsynced: outcome == CommitOutcome::SelectedUnsynced,
                ..refolded_store(s, pv, ev, m@)
            });
            assert forall|i: int| 0 <= i < t.parts.len() implies part::part_sound(
                #[trigger] t.parts[i],
            ) by {
                assert(t.parts[i].rows == pv.parts[i].rows);
            }
            assert forall|id: u32| #[trigger]
                fold::in_ranges(t.writer.fold.punched, id) implies id < t.writer.sealed by {}
        }
        if outcome == CommitOutcome::SelectedUnsynced {
            return Err(PublishError::Unsynchronized);
        }
        Ok(
            RefoldStats {
                parts_in: plan.stats.parts_in,
                parts_out: plan.stats.parts_out,
                records_kept: plan.stats.records_kept,
                records_dropped: plan.stats.records_dropped,
                tombstones_dropped: plan.stats.tombstones_dropped,
                pieces_kept: plan.stats.pieces_kept,
                pieces_dropped: plan.stats.pieces_dropped,
                fold_bytes_before: bytes_before,
                fold_bytes_after: bytes_after,
                stale_generation_left: false,
            },
        )
    }
}

} // verus!
