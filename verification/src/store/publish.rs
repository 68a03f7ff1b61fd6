//! Publishing parts: what a flush or a merge writes, and what it replaces.
//!
//! A publication has three steps, with the host's encoders between them. Planning decides the rows
//! and the dictionary of one new part. Preparing makes the manifest revision that names it, pinned
//! by the bytes the host encoded. Publishing stages all of it in the container and adopts it.

use crate::bytes;
use crate::container;
use crate::container::{Container, Member, MemberView};
use crate::fold;
use crate::fold::{Fold, FoldError, FoldView, Loc};
use crate::hash;
use crate::memtable;
use crate::part;
use crate::part::{Part, PartView, Row, RowView};
use crate::store::chain;
use crate::store::chain::ChainError;
use crate::store::commit;
use crate::store::commit::CommitOutcome;
use crate::store::engine;
use crate::store::engine::{Store, StoreView};
use crate::store::manifest;
use crate::store::manifest::{
    FoldTail, Manifest, ManifestError, ManifestView, PartRef, PartRefView, MANIFEST_RETAIN,
};
use crate::store::names;
use crate::store::wal::Wal;
use crate::store::writer;
use crate::store::writer::{FoldWriter, WriterView};
use crate::text;
use crate::types;
use crate::types::{Content, ContentOp, ContentView, OpView, PieceHash};
use vstd::prelude::*;
use vstd::utf8::*;

verus! {

/// Why a publication fails.
#[allow(inconsistent_fields)]
#[derive(Clone, Copy, Debug, PartialEq, Eq, Structural)]
pub enum PublishError {
    /// An earlier failure left unowned content behind.
    RequiresReopen,
    /// No sequence is left.
    SequenceExhausted,
    /// A dictionary maps a piece to bytes that are not it.
    Locate { error: FoldError },
    /// A staged piece is neither in the window nor in a part.
    AbsentPiece,
    /// The part has more rows than a manifest can count.
    TooManyRows,
    /// The next revision is not a manifest.
    Manifest { error: ManifestError },
    /// A retained revision does not read.
    Sweep { error: ChainError },
    /// Rows are staged that must be flushed first.
    UnflushedMemtable,
    /// The container did not flip: nothing was published, and the writer goes on as it was.
    NotSelected,
    /// The container flipped, and its state may not survive a crash. It has to be acknowledged
    /// before anything that depends on it.
    Unsynchronized,
}

/// One part to be written, and the run of parts it replaces.
pub struct PartPlan {
    pub member: String,
    pub seq_lo: u64,
    pub seq_hi: u64,
    pub rows: Vec<Row>,
    pub pieces: Vec<(PieceHash, Loc)>,
    /// The first part of the run.
    pub start: usize,
    /// How many parts the run has; none for a flush.
    pub replaces: usize,
    /// Whether the memtable becomes this part.
    pub flush: bool,
}

/// View of a [`PartPlan`].
pub struct PlanView {
    pub member: Seq<char>,
    pub seq_lo: u64,
    pub seq_hi: u64,
    pub rows: Seq<RowView>,
    pub pieces: Seq<(Seq<u8>, Loc)>,
    pub start: nat,
    pub replaces: nat,
    pub flush: bool,
}

impl View for PartPlan {
    type V = PlanView;

    open spec fn view(&self) -> PlanView {
        PlanView {
            member: self.member@,
            seq_lo: self.seq_lo,
            seq_hi: self.seq_hi,
            rows: part::rows_view(self.rows@),
            pieces: part::dictionary_view(self.pieces@),
            start: self.start as nat,
            replaces: self.replaces as nat,
            flush: self.flush,
        }
    }
}

/// What a flush does next.
pub enum FlushStep {
    /// Publish this part.
    Publish { plan: PartPlan },
    /// Nothing is staged, and the log holds frames that are published. Make the container's
    /// state durable, before the log goes.
    Acknowledge,
    /// Cut the log, whose frames are all published.
    CutLog,
    /// Nothing is staged and nothing is logged.
    Settled,
}

/// A part that was staged with the revision that names it.
pub struct StagedPart {
    pub plan: PartPlan,
    pub encoded: EncodedPart,
    pub manifest: Manifest,
}

/// What the host's encoder made of a plan.
pub struct EncodedPart {
    pub bytes: Vec<u8>,
    pub sections: usize,
    pub section_bytes: u64,
}

// ---------------------------------------------------------------------------------------------
// The dictionary of staged rows.
// ---------------------------------------------------------------------------------------------
/// A dictionary with the piece of one step.
pub open spec fn dict_op(
    parts: Seq<PartView>,
    w: WriterView,
    dict: Seq<(Seq<u8>, Loc)>,
    op: OpView,
) -> Result<Seq<(Seq<u8>, Loc)>, PublishError> {
    match op {
        OpView::Lit(_) => Ok(dict),
        OpView::Piece { hash, .. } => if part::find_loc(dict, hash) is Some {
            Ok(dict)
        } else {
            match writer::located_piece(parts, w.fold, w.window, hash) {
                Err(error) => Err(PublishError::Locate { error }),
                Ok(None) => Err(PublishError::AbsentPiece),
                Ok(Some(loc)) => Ok(dict.push((hash, loc))),
            }
        },
    }
}

/// A dictionary with the pieces of the first `n` steps.
pub open spec fn dict_ops(
    parts: Seq<PartView>,
    w: WriterView,
    dict: Seq<(Seq<u8>, Loc)>,
    ops: Seq<OpView>,
    n: nat,
) -> Result<Seq<(Seq<u8>, Loc)>, PublishError>
    decreases n,
{
    if n == 0 {
        Ok(dict)
    } else {
        match dict_ops(parts, w, dict, ops, (n - 1) as nat) {
            Err(e) => Err(e),
            Ok(d) => dict_op(parts, w, d, ops[n - 1]),
        }
    }
}

/// A dictionary with the pieces of the first `n` contents.
pub open spec fn dict_contents(
    parts: Seq<PartView>,
    w: WriterView,
    dict: Seq<(Seq<u8>, Loc)>,
    contents: Seq<ContentView>,
    n: nat,
) -> Result<Seq<(Seq<u8>, Loc)>, PublishError>
    decreases n,
{
    if n == 0 {
        Ok(dict)
    } else {
        match dict_contents(parts, w, dict, contents, (n - 1) as nat) {
            Err(e) => Err(e),
            Ok(d) => dict_ops(parts, w, d, contents[n - 1].ops, contents[n - 1].ops.len()),
        }
    }
}

/// A dictionary with the pieces of the first `n` rows.
pub open spec fn dict_rows(
    parts: Seq<PartView>,
    w: WriterView,
    rows: Seq<RowView>,
    n: nat,
) -> Result<Seq<(Seq<u8>, Loc)>, PublishError>
    decreases n,
{
    if n == 0 {
        Ok(Seq::empty())
    } else {
        match dict_rows(parts, w, rows, (n - 1) as nat) {
            Err(e) => Err(e),
            Ok(d) => match rows[n - 1].record {
                None => Ok(d),
                Some(r) => dict_contents(parts, w, d, r.contents, r.contents.len()),
            },
        }
    }
}

proof fn lemma_dict_ops_prefix(
    parts: Seq<PartView>,
    w: WriterView,
    dict: Seq<(Seq<u8>, Loc)>,
    ops: Seq<OpView>,
    k: nat,
    n: nat,
)
    requires
        k <= n,
        dict_ops(parts, w, dict, ops, k) is Err,
    ensures
        dict_ops(parts, w, dict, ops, n) == dict_ops(parts, w, dict, ops, k),
    decreases n,
{
    if k < n {
        lemma_dict_ops_prefix(parts, w, dict, ops, k, (n - 1) as nat);
    }
}

proof fn lemma_dict_contents_prefix(
    parts: Seq<PartView>,
    w: WriterView,
    dict: Seq<(Seq<u8>, Loc)>,
    contents: Seq<ContentView>,
    k: nat,
    n: nat,
)
    requires
        k <= n,
        dict_contents(parts, w, dict, contents, k) is Err,
    ensures
        dict_contents(parts, w, dict, contents, n) == dict_contents(parts, w, dict, contents, k),
    decreases n,
{
    if k < n {
        lemma_dict_contents_prefix(parts, w, dict, contents, k, (n - 1) as nat);
    }
}

proof fn lemma_dict_rows_prefix(
    parts: Seq<PartView>,
    w: WriterView,
    rows: Seq<RowView>,
    k: nat,
    n: nat,
)
    requires
        k <= n,
        dict_rows(parts, w, rows, k) is Err,
    ensures
        dict_rows(parts, w, rows, n) == dict_rows(parts, w, rows, k),
    decreases n,
{
    if k < n {
        lemma_dict_rows_prefix(parts, w, rows, k, (n - 1) as nat);
    }
}

fn add_ops(
    parts: &Vec<Part>,
    w: &FoldWriter,
    dict: &mut Vec<(PieceHash, Loc)>,
    ops: &Vec<ContentOp>,
) -> (r: Result<(), PublishError>)
    ensures
        ({
            let all = types::ops_view(ops@);
            let out = dict_ops(
                part::parts_view(parts@),
                w@,
                part::dictionary_view(old(dict)@),
                all,
                all.len(),
            );
            match r {
                Ok(()) => out == Ok::<Seq<(Seq<u8>, Loc)>, PublishError>(
                    part::dictionary_view(final(dict)@),
                ),
                Err(e) => out == Err::<Seq<(Seq<u8>, Loc)>, PublishError>(e),
            }
        }),
{
    let ghost all = types::ops_view(ops@);
    let ghost pv = part::parts_view(parts@);
    let ghost d0 = part::dictionary_view(dict@);
    let mut i: usize = 0;
    while i < ops.len()
        invariant
            all == types::ops_view(ops@),
            pv == part::parts_view(parts@),
            d0 == part::dictionary_view(old(dict)@),
            i <= ops@.len(),
            dict_ops(pv, w@, d0, all, i as nat) == Ok::<Seq<(Seq<u8>, Loc)>, PublishError>(
                part::dictionary_view(dict@),
            ),
        decreases ops.len() - i,
    {
        assert(all[i as int] == ops@[i as int]@);
        if let ContentOp::Piece { hash, len: _ } = &ops[i] {
            if part::lookup(dict, hash).is_none() {
                match writer::locate_verified_piece(parts, &w.fold, &w.window, hash) {
                    Err(error) => {
                        proof {
                            lemma_dict_ops_prefix(pv, w@, d0, all, (i + 1) as nat, all.len());
                        }
                        return Err(PublishError::Locate { error });
                    },
                    Ok(None) => {
                        proof {
                            lemma_dict_ops_prefix(pv, w@, d0, all, (i + 1) as nat, all.len());
                        }
                        return Err(PublishError::AbsentPiece);
                    },
                    Ok(Some(loc)) => {
                        let ghost before = dict@;
                        dict.push((*hash, loc));
                        assert(part::dictionary_view(dict@) =~= part::dictionary_view(before).push(
                            (hash@, loc),
                        ));
                    },
                }
            }
        }
        i = i + 1;
    }
    Ok(())
}

fn add_contents(
    parts: &Vec<Part>,
    w: &FoldWriter,
    dict: &mut Vec<(PieceHash, Loc)>,
    contents: &Vec<Content>,
) -> (r: Result<(), PublishError>)
    ensures
        ({
            let all = types::contents_view(contents@);
            let out = dict_contents(
                part::parts_view(parts@),
                w@,
                part::dictionary_view(old(dict)@),
                all,
                all.len(),
            );
            match r {
                Ok(()) => out == Ok::<Seq<(Seq<u8>, Loc)>, PublishError>(
                    part::dictionary_view(final(dict)@),
                ),
                Err(e) => out == Err::<Seq<(Seq<u8>, Loc)>, PublishError>(e),
            }
        }),
{
    let ghost all = types::contents_view(contents@);
    let ghost pv = part::parts_view(parts@);
    let ghost d0 = part::dictionary_view(dict@);
    let mut i: usize = 0;
    while i < contents.len()
        invariant
            all == types::contents_view(contents@),
            pv == part::parts_view(parts@),
            d0 == part::dictionary_view(old(dict)@),
            i <= contents@.len(),
            dict_contents(pv, w@, d0, all, i as nat) == Ok::<Seq<(Seq<u8>, Loc)>, PublishError>(
                part::dictionary_view(dict@),
            ),
        decreases contents.len() - i,
    {
        assert(all[i as int] == contents@[i as int]@);
        if let Err(e) = add_ops(parts, w, dict, &contents[i].ops) {
            proof {
                lemma_dict_contents_prefix(pv, w@, d0, all, (i + 1) as nat, all.len());
            }
            return Err(e);
        }
        i = i + 1;
    }
    Ok(())
}

/// The dictionary that rows need.
pub(crate) fn dictionary_of(parts: &Vec<Part>, w: &FoldWriter, rows: &Vec<Row>) -> (r: Result<
    Vec<(PieceHash, Loc)>,
    PublishError,
>)
    ensures
        ({
            let all = part::rows_view(rows@);
            let out = dict_rows(part::parts_view(parts@), w@, all, all.len());
            match r {
                Ok(d) => out == Ok::<Seq<(Seq<u8>, Loc)>, PublishError>(
                    part::dictionary_view(d@),
                ),
                Err(e) => out == Err::<Seq<(Seq<u8>, Loc)>, PublishError>(e),
            }
        }),
{
    let ghost all = part::rows_view(rows@);
    let ghost pv = part::parts_view(parts@);
    let mut dict: Vec<(PieceHash, Loc)> = Vec::new();
    let mut i: usize = 0;
    assert(part::dictionary_view(dict@) =~= Seq::<(Seq<u8>, Loc)>::empty());
    while i < rows.len()
        invariant
            all == part::rows_view(rows@),
            pv == part::parts_view(parts@),
            i <= rows@.len(),
            dict_rows(pv, w@, all, i as nat) == Ok::<Seq<(Seq<u8>, Loc)>, PublishError>(
                part::dictionary_view(dict@),
            ),
        decreases rows.len() - i,
    {
        assert(all[i as int] == rows@[i as int]@);
        if let Some(record) = &rows[i].record {
            if let Err(e) = add_contents(parts, w, &mut dict, &record.contents) {
                proof {
                    lemma_dict_rows_prefix(pv, w@, all, (i + 1) as nat, all.len());
                }
                return Err(e);
            }
        }
        i = i + 1;
    }
    Ok(dict)
}

/// Copy rows.
pub fn clone_rows(rows: &Vec<Row>) -> (r: Vec<Row>)
    ensures
        part::rows_view(r@) == part::rows_view(rows@),
{
    let mut out: Vec<Row> = Vec::new();
    let mut i: usize = 0;
    while i < rows.len()
        invariant
            i <= rows@.len(),
            out@.len() == i,
            forall|k: int| 0 <= k < i ==> (#[trigger] out@[k])@ == rows@[k]@,
        decreases rows.len() - i,
    {
        out.push(rows[i].clone());
        i = i + 1;
    }
    assert(part::rows_view(out@) =~= part::rows_view(rows@));
    out
}

// ---------------------------------------------------------------------------------------------
// Planning a flush.
// ---------------------------------------------------------------------------------------------
/// The part that the memtable becomes.
pub open spec fn flush_plan(s: StoreView) -> Result<PlanView, PublishError> {
    if s.manifest.next_seq == u64::MAX {
        Err(PublishError::SequenceExhausted)
    } else {
        let seq = engine::pending_seq(s);
        match dict_rows(s.parts, s.writer, s.mem, s.mem.len()) {
            Err(e) => Err(e),
            Ok(pieces) => Ok(
                PlanView {
                    member: text::chars(names::part_name(seq)),
                    seq_lo: seq,
                    seq_hi: seq,
                    rows: s.mem,
                    pieces,
                    start: s.parts.len(),
                    replaces: 0,
                    flush: true,
                },
            ),
        }
    }
}

// ---------------------------------------------------------------------------------------------
// Planning a merge.
// ---------------------------------------------------------------------------------------------
/// Rows with the first `n` of another run put over them.
pub open spec fn overlaid(rows: Seq<RowView>, over: Seq<RowView>, n: nat) -> Seq<RowView>
    decreases n,
{
    if n == 0 {
        rows
    } else {
        memtable::rows_put(overlaid(rows, over, (n - 1) as nat), over[n - 1])
    }
}

/// The newest row of every id in the parts from `lo` up to `hi`.
pub open spec fn merged_rows(parts: Seq<PartView>, lo: int, hi: int) -> Seq<RowView>
    decreases hi - lo,
{
    if hi <= lo {
        Seq::empty()
    } else {
        overlaid(
            merged_rows(parts, lo, hi - 1),
            parts[hi - 1].rows,
            parts[hi - 1].rows.len(),
        )
    }
}

/// The records among the first `n` rows.
pub open spec fn records_only(rows: Seq<RowView>, n: nat) -> Seq<RowView>
    decreases n,
{
    if n == 0 {
        Seq::empty()
    } else {
        let before = records_only(rows, (n - 1) as nat);
        if rows[n - 1].record is Some {
            before.push(rows[n - 1])
        } else {
            before
        }
    }
}

/// The rows of a merge. A tombstone is dropped only where the run is every part there is: nothing
/// older can then be left for it to hide.
pub open spec fn merge_output(parts: Seq<PartView>, lo: int, hi: int) -> Seq<RowView> {
    let rows = merged_rows(parts, lo, hi);
    if lo == 0 && hi == parts.len() {
        records_only(rows, rows.len())
    } else {
        rows
    }
}

/// A dictionary with the readable entries among the first `n` of another. An entry whose block was
/// given up is left out, and must still lie inside that block.
pub open spec fn usable_entries(
    f: FoldView,
    dict: Seq<(Seq<u8>, Loc)>,
    pieces: Seq<(Seq<u8>, Loc)>,
    n: nat,
) -> Result<Seq<(Seq<u8>, Loc)>, FoldError>
    decreases n,
{
    if n == 0 {
        Ok(dict)
    } else {
        match usable_entries(f, dict, pieces, (n - 1) as nat) {
            Err(e) => Err(e),
            Ok(d) => {
                let (h, loc) = pieces[n - 1];
                if fold::shape_fault(f, loc) is Some {
                    Err(fold::shape_fault(f, loc)->0)
                } else if fold::in_ranges(f.punched, loc.block_id) {
                    Ok(d)
                } else {
                    match fold::fold_read(f, loc, h) {
                        Err(e) => Err(e),
                        Ok(_) => if part::find_loc(d, h) is Some {
                            Ok(d)
                        } else {
                            Ok(d.push((h, loc)))
                        },
                    }
                }
            },
        }
    }
}

/// The readable entries of the parts from `lo` up to `hi`.
pub open spec fn merged_dictionary(parts: Seq<PartView>, f: FoldView, lo: int, hi: int) -> Result<
    Seq<(Seq<u8>, Loc)>,
    FoldError,
>
    decreases hi - lo,
{
    if hi <= lo {
        Ok(Seq::empty())
    } else {
        match merged_dictionary(parts, f, lo, hi - 1) {
            Err(e) => Err(e),
            Ok(d) => usable_entries(f, d, parts[hi - 1].pieces, parts[hi - 1].pieces.len()),
        }
    }
}

/// Whether a run can be merged.
pub open spec fn mergeable(s: StoreView, lo: int, len: int) -> bool {
    len >= 2 && lo + len <= s.parts.len()
}

/// The part that a run becomes.
pub open spec fn merge_plan(s: StoreView, lo: int, len: int) -> Result<PlanView, PublishError> {
    let hi = lo + len;
    let seq_lo = s.manifest.parts[lo].seq_lo;
    let seq_hi = s.manifest.parts[hi - 1].seq_hi;
    match merged_dictionary(s.parts, s.writer.fold, lo, hi) {
        Err(error) => Err(PublishError::Locate { error }),
        Ok(pieces) => Ok(
            PlanView {
                member: text::chars(names::range_name(seq_lo, seq_hi)),
                seq_lo,
                seq_hi,
                rows: merge_output(s.parts, lo, hi),
                pieces,
                start: lo as nat,
                replaces: len as nat,
                flush: false,
            },
        ),
    }
}

proof fn lemma_usable_prefix(
    f: FoldView,
    dict: Seq<(Seq<u8>, Loc)>,
    pieces: Seq<(Seq<u8>, Loc)>,
    k: nat,
    n: nat,
)
    requires
        k <= n,
        usable_entries(f, dict, pieces, k) is Err,
    ensures
        usable_entries(f, dict, pieces, n) == usable_entries(f, dict, pieces, k),
    decreases n,
{
    if k < n {
        lemma_usable_prefix(f, dict, pieces, k, (n - 1) as nat);
    }
}

proof fn lemma_merged_dictionary_prefix(parts: Seq<PartView>, f: FoldView, lo: int, k: int, hi: int)
    requires
        lo <= k <= hi,
        merged_dictionary(parts, f, lo, k) is Err,
    ensures
        merged_dictionary(parts, f, lo, hi) == merged_dictionary(parts, f, lo, k),
    decreases hi - k,
{
    if k < hi {
        lemma_merged_dictionary_prefix(parts, f, lo, k, hi - 1);
    }
}

/// Rows put over an ordered run leave it ordered.
pub proof fn lemma_overlaid(rows: Seq<RowView>, over: Seq<RowView>, n: nat)
    requires
        part::ids_ascending(rows),
        part::ids_agree(rows),
        part::ids_agree(over),
        n <= over.len(),
    ensures
        part::ids_ascending(overlaid(rows, over, n)),
        part::ids_agree(overlaid(rows, over, n)),
    decreases n,
{
    if n > 0 {
        lemma_overlaid(rows, over, (n - 1) as nat);
        let before = overlaid(rows, over, (n - 1) as nat);
        memtable::lemma_rows_put(before, over[n - 1]);
        memtable::lemma_put_agrees(before, over[n - 1]);
    }
}

/// A merged run is ordered.
pub proof fn lemma_merged_ordered(parts: Seq<PartView>, lo: int, hi: int)
    requires
        part::parts_sound(parts),
        0 <= lo,
        hi <= parts.len(),
    ensures
        part::ids_ascending(merged_rows(parts, lo, hi)),
        part::ids_agree(merged_rows(parts, lo, hi)),
    decreases hi - lo,
{
    if lo < hi {
        lemma_merged_ordered(parts, lo, hi - 1);
        assert(part::part_sound(parts[hi - 1]));
        lemma_overlaid(
            merged_rows(parts, lo, hi - 1),
            parts[hi - 1].rows,
            parts[hi - 1].rows.len(),
        );
    }
}

/// The records of an ordered run, in order.
pub proof fn lemma_records_only(rows: Seq<RowView>, n: nat)
    requires
        part::ids_ascending(rows),
        part::ids_agree(rows),
        n <= rows.len(),
    ensures
        part::ids_ascending(records_only(rows, n)),
        part::ids_agree(records_only(rows, n)),
        records_only(rows, n).len() <= n,
        forall|i: int|
            0 <= i < records_only(rows, n).len() ==> (#[trigger] records_only(
                rows,
                n,
            )[i]).record is Some && exists|k: int|
                0 <= k < n && #[trigger] rows[k] == records_only(rows, n)[i],
    decreases n,
{
    if n > 0 {
        lemma_records_only(rows, (n - 1) as nat);
        let before = records_only(rows, (n - 1) as nat);
        let out = records_only(rows, n);
        if rows[n - 1].record is Some {
            assert forall|i: int, j: int| 0 <= i < j < out.len() implies crate::bytes::name_lt(
                #[trigger] out[i].id,
                #[trigger] out[j].id,
            ) by {
                assert(out[i] == before[i]);
                if j < before.len() {
                    assert(out[j] == before[j]);
                } else {
                    let k = choose|k: int| 0 <= k < n - 1 && #[trigger] rows[k] == before[i];
                    assert(crate::bytes::name_lt(rows[k].id, rows[n - 1].id));
                }
            }
            assert forall|i: int| 0 <= i < out.len() implies (#[trigger] out[i]).record is Some
                && exists|k: int| 0 <= k < n && #[trigger] rows[k] == out[i] by {
                if i < before.len() {
                    assert(out[i] == before[i]);
                    let k = choose|k: int| 0 <= k < n - 1 && #[trigger] rows[k] == before[i];
                    assert(rows[k] == out[i]);
                } else {
                    assert(rows[n - 1] == out[i]);
                }
            }
            assert forall|i: int| 0 <= i < out.len() && (
            #[trigger] out[i]).record is Some implies out[i].record->0.id == out[i].id by {
                let k = choose|k: int| 0 <= k < n && #[trigger] rows[k] == out[i];
                assert(rows[k].record is Some);
            }
        }
    }
}

/// The output of a merge is ordered.
pub proof fn lemma_merge_output(parts: Seq<PartView>, lo: int, hi: int)
    requires
        part::parts_sound(parts),
        0 <= lo,
        hi <= parts.len(),
    ensures
        part::ids_ascending(merge_output(parts, lo, hi)),
        part::ids_agree(merge_output(parts, lo, hi)),
{
    lemma_merged_ordered(parts, lo, hi);
    let rows = merged_rows(parts, lo, hi);
    lemma_records_only(rows, rows.len());
}

fn merge_run(parts: &Vec<Part>, lo: usize, hi: usize) -> (r: Vec<Row>)
    requires
        lo <= hi <= parts@.len(),
    ensures
        part::rows_view(r@) == merged_rows(part::parts_view(parts@), lo as int, hi as int),
{
    let ghost pv = part::parts_view(parts@);
    let mut out: Vec<Row> = Vec::new();
    assert(part::rows_view(out@) =~= Seq::<RowView>::empty());
    let mut p: usize = lo;
    while p < hi
        invariant
            pv == part::parts_view(parts@),
            lo <= p <= hi <= parts@.len(),
            part::rows_view(out@) == merged_rows(pv, lo as int, p as int),
        decreases hi - p,
    {
        let rows = &parts[p].rows;
        let ghost over = part::rows_view(rows@);
        let ghost base = part::rows_view(out@);
        assert(pv[p as int].rows == over);
        let mut i: usize = 0;
        while i < rows.len()
            invariant
                over == part::rows_view(rows@),
                i <= rows@.len(),
                part::rows_view(out@) == overlaid(base, over, i as nat),
            decreases rows.len() - i,
        {
            assert(over[i as int] == rows@[i as int]@);
            memtable::put_row(&mut out, rows[i].clone());
            i = i + 1;
        }
        p = p + 1;
    }
    out
}

fn keep_records(rows: Vec<Row>) -> (r: Vec<Row>)
    ensures
        part::rows_view(r@) == records_only(part::rows_view(rows@), rows@.len()),
{
    let ghost all = part::rows_view(rows@);
    let mut out: Vec<Row> = Vec::new();
    let mut i: usize = 0;
    assert(part::rows_view(out@) =~= Seq::<RowView>::empty());
    while i < rows.len()
        invariant
            all == part::rows_view(rows@),
            i <= rows@.len(),
            part::rows_view(out@) == records_only(all, i as nat),
        decreases rows.len() - i,
    {
        assert(all[i as int] == rows@[i as int]@);
        if rows[i].record.is_some() {
            let ghost before = out@;
            let copied = rows[i].clone();
            let ghost v = copied@;
            out.push(copied);
            assert(part::rows_view(out@) =~= part::rows_view(before).push(v));
        }
        i = i + 1;
    }
    out
}

fn add_usable(f: &Fold, dict: &mut Vec<(PieceHash, Loc)>, pieces: &Vec<(PieceHash, Loc)>) -> (r: Result<
    (),
    FoldError,
>)
    ensures
        ({
            let all = part::dictionary_view(pieces@);
            let out = usable_entries(f@, part::dictionary_view(old(dict)@), all, all.len());
            match r {
                Ok(()) => out == Ok::<Seq<(Seq<u8>, Loc)>, FoldError>(
                    part::dictionary_view(final(dict)@),
                ),
                Err(e) => out == Err::<Seq<(Seq<u8>, Loc)>, FoldError>(e),
            }
        }),
{
    let ghost all = part::dictionary_view(pieces@);
    let ghost d0 = part::dictionary_view(dict@);
    let mut i: usize = 0;
    while i < pieces.len()
        invariant
            all == part::dictionary_view(pieces@),
            d0 == part::dictionary_view(old(dict)@),
            i <= pieces@.len(),
            usable_entries(f@, d0, all, i as nat) == Ok::<Seq<(Seq<u8>, Loc)>, FoldError>(
                part::dictionary_view(dict@),
            ),
        decreases pieces.len() - i,
    {
        let h = pieces[i].0;
        let loc = pieces[i].1;
        assert(all[i as int] == (h@, loc));
        if let Err(e) = f.verify_location_shape(loc) {
            proof {
                lemma_usable_prefix(f@, d0, all, (i + 1) as nat, all.len());
            }
            return Err(e);
        }
        if !f.is_punched(loc.block_id) {
            match f.read_verified(loc, &h) {
                Err(e) => {
                    proof {
                        lemma_usable_prefix(f@, d0, all, (i + 1) as nat, all.len());
                    }
                    return Err(e);
                },
                Ok(_) => {
                    if part::lookup(dict, &h).is_none() {
                        let ghost before = dict@;
                        dict.push((h, loc));
                        assert(part::dictionary_view(dict@) =~= part::dictionary_view(
                            before,
                        ).push((h@, loc)));
                    }
                },
            }
        }
        i = i + 1;
    }
    Ok(())
}

fn merge_dictionaries(parts: &Vec<Part>, f: &Fold, lo: usize, hi: usize) -> (r: Result<
    Vec<(PieceHash, Loc)>,
    FoldError,
>)
    requires
        lo <= hi <= parts@.len(),
    ensures
        ({
            let out = merged_dictionary(part::parts_view(parts@), f@, lo as int, hi as int);
            match r {
                Ok(d) => out == Ok::<Seq<(Seq<u8>, Loc)>, FoldError>(part::dictionary_view(d@)),
                Err(e) => out == Err::<Seq<(Seq<u8>, Loc)>, FoldError>(e),
            }
        }),
{
    let ghost pv = part::parts_view(parts@);
    let mut dict: Vec<(PieceHash, Loc)> = Vec::new();
    assert(part::dictionary_view(dict@) =~= Seq::<(Seq<u8>, Loc)>::empty());
    let mut p: usize = lo;
    while p < hi
        invariant
            pv == part::parts_view(parts@),
            lo <= p <= hi <= parts@.len(),
            merged_dictionary(pv, f@, lo as int, p as int) == Ok::<
                Seq<(Seq<u8>, Loc)>,
                FoldError,
            >(part::dictionary_view(dict@)),
        decreases hi - p,
    {
        assert(pv[p as int] == parts@[p as int]@);
        if let Err(e) = add_usable(f, &mut dict, &parts[p].pieces) {
            proof {
                lemma_merged_dictionary_prefix(pv, f@, lo as int, p + 1, hi as int);
            }
            return Err(e);
        }
        p = p + 1;
    }
    Ok(dict)
}

// ---------------------------------------------------------------------------------------------
// Preparing and publishing.
// ---------------------------------------------------------------------------------------------
/// A run of a list replaced by one value.
pub open spec fn spliced<T>(s: Seq<T>, start: nat, replaces: nat, x: T) -> Seq<T> {
    s.take(start as int).push(x) + s.skip((start + replaces) as int)
}

/// The reference that pins a planned part.
pub open spec fn plan_ref(p: PlanView, bytes: Seq<u8>) -> PartRefView {
    PartRefView {
        member: p.member,
        seq_lo: p.seq_lo,
        seq_hi: p.seq_hi,
        records: p.rows.len() as u32,
        b3: text::chars(manifest::link(bytes)),
    }
}

/// The manifest that names a planned part in the place of the run it replaces.
pub open spec fn planned_manifest(
    m: ManifestView,
    p: PlanView,
    bytes: Seq<u8>,
    tail: FoldTail,
) -> ManifestView {
    ManifestView {
        parts: spliced(m.parts, p.start, p.replaces, plan_ref(p, bytes)),
        fold_seg: tail.seg,
        fold_off: tail.off,
        next_seq: if p.flush {
            p.seq_hi
        } else {
            m.next_seq
        },
        ..m
    }
}

/// The bytes that a container's next revision replaces.
pub open spec fn predecessor_bytes(ms: Seq<MemberView>) -> Option<Seq<u8>> {
    match container::position_of(ms, "MANIFEST"@) {
        Some(i) => Some(ms[i].bytes),
        None => None,
    }
}

/// A writer whose blocks all stopped growing.
pub open spec fn sealed_writer(w: WriterView) -> WriterView {
    WriterView { sealed: w.fold.blocks.len(), ..w }
}

/// A store that a failed publication closed.
pub open spec fn closed(s: StoreView) -> StoreView {
    StoreView { requires_reopen: true, ..s }
}

/// What preparing a revision does.
pub open spec fn prepare_outcome(
    s: StoreView,
    t: StoreView,
    next: ManifestView,
    predecessor: Option<Seq<u8>>,
    r: Result<ManifestView, PublishError>,
) -> bool {
    if s.requires_reopen {
        r == Err::<ManifestView, PublishError>(PublishError::RequiresReopen) && t == s
    } else {
        match r {
            Ok(m) => {
                &&& manifest::succeeding(next, m, predecessor)
                &&& manifest::manifest_fault(m) is None
                &&& t == StoreView { writer: sealed_writer(s.writer), ..s }
            },
            Err(PublishError::Manifest { error }) => {
                &&& t == closed(StoreView { writer: sealed_writer(s.writer), ..s })
                &&& if next.commit == u64::MAX {
                    error == ManifestError::RevisionsExhausted
                } else {
                    exists|m: ManifestView| #[trigger]
                        manifest::succeeding(next, m, predecessor) && manifest::manifest_fault(m)
                            == Some(error)
                }
            },
            _ => false,
        }
    }
}

/// A plan's rows ascend by their ids, and each record has the id of its row.
pub open spec fn plan_sound(p: PlanView) -> bool {
    part::ids_ascending(p.rows) && part::ids_agree(p.rows)
}

/// The part that a plan is.
pub open spec fn plan_part(p: PlanView, sections: usize, section_bytes: u64) -> PartView {
    PartView {
        seq_lo: p.seq_lo,
        seq_hi: p.seq_hi,
        rows: p.rows,
        pieces: p.pieces,
        sections,
        section_bytes,
    }
}

/// The member that holds a planned part.
pub open spec fn plan_member(p: PlanView, e: EncodedPart) -> MemberView {
    MemberView {
        name: p.member,
        bytes: e.bytes@,
        checksum: hash::crc32_of(e.bytes@),
        manifest: None,
        part: Some(plan_part(p, e.sections, e.section_bytes)),
        blocks: None,
    }
}

/// How many revisions are retained after one more.
pub open spec fn one_more_retained(n: usize) -> usize {
    if n + 1 < MANIFEST_RETAIN {
        (n + 1) as usize
    } else {
        MANIFEST_RETAIN
    }
}

/// Members after a planned part was published.
pub open spec fn published_members(
    ms: Seq<MemberView>,
    p: PlanView,
    e: EncodedPart,
    m: ManifestView,
    json: Seq<u8>,
) -> Seq<MemberView> {
    commit::swept(commit::committed(container::put_sorted(ms, plan_member(p, e)), m, json), m)
}

/// A store after a planned part was published.
pub open spec fn published_store(
    s: StoreView,
    p: PlanView,
    e: EncodedPart,
    m: ManifestView,
    wal: Wal,
) -> StoreView {
    let parts = spliced(
        s.parts,
        p.start,
        p.replaces,
        plan_part(p, e.sections, e.section_bytes),
    );
    let base = StoreView {
        parts,
        manifest: m,
        retained_commit_count: one_more_retained(s.retained_commit_count),
        ..s
    };
    if p.flush {
        StoreView {
            mem: Seq::empty(),
            mem_bytes: 0,
            writer: WriterView { window: Seq::empty(), ..s.writer },
            wal,
            ..base
        }
    } else {
        base
    }
}

/// What staging a publication does: it leaves the store as it was, and gives the container's
/// next state.
pub open spec fn stage_outcome(
    s: StoreView,
    t: StoreView,
    before: Seq<MemberView>,
    p: PlanView,
    e: EncodedPart,
    m: ManifestView,
    json: Seq<u8>,
    r: Result<Seq<MemberView>, PublishError>,
) -> bool {
    let staged = commit::committed(container::put_sorted(before, plan_member(p, e)), m, json);
    let commits = chain::retained_commits(staged);
    if s.requires_reopen {
        r == Err::<Seq<MemberView>, PublishError>(PublishError::RequiresReopen) && t == s
    } else {
        match commit::retained_fault(staged, commits, commits.len()) {
            Some(error) => {
                &&& r == Err::<Seq<MemberView>, PublishError>(PublishError::Sweep { error })
                &&& t == closed(s)
            },
            None => {
                &&& r == Ok::<Seq<MemberView>, PublishError>(
                    published_members(before, p, e, m, json),
                )
                &&& t == s
            },
        }
    }
}

/// What adopting a staged part does, given how the flip ended. The log stays: only its settlement
/// cuts it.
pub open spec fn adopt_outcome(
    s: StoreView,
    t: StoreView,
    p: PlanView,
    e: EncodedPart,
    m: ManifestView,
    outcome: CommitOutcome,
    r: Result<PartRefView, PublishError>,
) -> bool {
    if s.requires_reopen {
        r == Err::<PartRefView, PublishError>(PublishError::RequiresReopen) && t == s
    } else {
        match outcome {
            CommitOutcome::NotSelected => {
                &&& r == Err::<PartRefView, PublishError>(PublishError::NotSelected)
                &&& t == s
            },
            CommitOutcome::SelectedUnsynced => {
                &&& r == Err::<PartRefView, PublishError>(PublishError::Unsynchronized)
                &&& t == StoreView { unsynced: true, ..published_store(s, p, e, m, s.wal) }
            },
            CommitOutcome::Committed => {
                &&& r == Ok::<PartRefView, PublishError>(m.parts[p.start as int])
                &&& t == StoreView { unsynced: false, ..published_store(s, p, e, m, s.wal) }
            },
        }
    }
}

fn clone_pieces(pieces: &Vec<(PieceHash, Loc)>) -> (r: Vec<(PieceHash, Loc)>)
    ensures
        part::dictionary_view(r@) == part::dictionary_view(pieces@),
{
    let mut out: Vec<(PieceHash, Loc)> = Vec::new();
    let mut i: usize = 0;
    while i < pieces.len()
        invariant
            i <= pieces@.len(),
            out@ == pieces@.take(i as int),
        decreases pieces.len() - i,
    {
        out.push(pieces[i]);
        i = i + 1;
        assert(out@ =~= pieces@.take(i as int));
    }
    assert(out@ =~= pieces@);
    out
}

/// Copy a container.
pub(crate) fn clone_container(c: &Container) -> (r: Container)
    ensures
        r@ == c@,
{
    let mut members: Vec<Member> = Vec::new();
    let mut i: usize = 0;
    while i < c.members.len()
        invariant
            i <= c.members@.len(),
            members@.len() == i,
            forall|k: int| 0 <= k < i ==> (#[trigger] members@[k])@ == c.members@[k]@,
        decreases c.members.len() - i,
    {
        members.push(c.members[i].clone());
        i = i + 1;
    }
    assert(container::members_view(members@) =~= container::members_view(c.members@));
    Container { seq: c.seq, members }
}

/// The parts with a run replaced by one part.
fn splice_parts(parts: &Vec<Part>, start: usize, replaces: usize, x: Part) -> (r: Vec<Part>)
    requires
        start + replaces <= parts@.len(),
    ensures
        part::parts_view(r@) == spliced(
            part::parts_view(parts@),
            start as nat,
            replaces as nat,
            x@,
        ),
{
    let ghost pv = part::parts_view(parts@);
    let ghost xv = x@;
    let mut out: Vec<Part> = Vec::new();
    let mut i: usize = 0;
    while i < start
        invariant
            i <= start <= parts@.len(),
            out@.len() == i,
            forall|k: int| 0 <= k < i ==> (#[trigger] out@[k])@ == parts@[k]@,
        decreases start - i,
    {
        out.push(parts[i].clone());
        i = i + 1;
    }
    out.push(x);
    let total: usize = parts.len();
    assert(start + replaces <= total);
    let mut k: usize = start + replaces;
    while k < parts.len()
        invariant
            start + replaces <= k <= parts@.len(),
            out@.len() == start + 1 + (k - start - replaces),
            forall|j: int| 0 <= j < start ==> (#[trigger] out@[j])@ == parts@[j]@,
            out@[start as int]@ == xv,
            forall|j: int|
                start < j < out@.len() ==> (#[trigger] out@[j])@ == parts@[j - 1 + replaces]@,
        decreases parts.len() - k,
    {
        out.push(parts[k].clone());
        k = k + 1;
    }
    assert(part::parts_view(out@) =~= spliced(pv, start as nat, replaces as nat, xv));
    out
}

fn splice_refs(parts: &Vec<PartRef>, start: usize, replaces: usize, x: PartRef) -> (r: Vec<PartRef>)
    requires
        start + replaces <= parts@.len(),
    ensures
        manifest::refs_view(r@) == spliced(
            manifest::refs_view(parts@),
            start as nat,
            replaces as nat,
            x@,
        ),
{
    let ghost pv = manifest::refs_view(parts@);
    let ghost xv = x@;
    let mut out: Vec<PartRef> = Vec::new();
    let mut i: usize = 0;
    while i < start
        invariant
            i <= start <= parts@.len(),
            out@.len() == i,
            forall|k: int| 0 <= k < i ==> (#[trigger] out@[k])@ == parts@[k]@,
        decreases start - i,
    {
        out.push(parts[i].clone());
        i = i + 1;
    }
    out.push(x);
    let total: usize = parts.len();
    assert(start + replaces <= total);
    let mut k: usize = start + replaces;
    while k < parts.len()
        invariant
            start + replaces <= k <= parts@.len(),
            out@.len() == start + 1 + (k - start - replaces),
            forall|j: int| 0 <= j < start ==> (#[trigger] out@[j])@ == parts@[j]@,
            out@[start as int]@ == xv,
            forall|j: int|
                start < j < out@.len() ==> (#[trigger] out@[j])@ == parts@[j - 1 + replaces]@,
        decreases parts.len() - k,
    {
        out.push(parts[k].clone());
        k = k + 1;
    }
    assert(manifest::refs_view(out@) =~= spliced(pv, start as nat, replaces as nat, xv));
    out
}

/// A writer's soundness does not rest on its window.
pub proof fn lemma_released(w: WriterView)
    requires
        writer::writer_ok(w),
    ensures
        writer::writer_ok(WriterView { window: Seq::empty(), ..w }),
        writer::writer_ok(sealed_writer(w)),
{
}

impl Store {
    /// What a flush does next: publish the part that the memtable becomes, or settle a log whose
    /// frames are all published. A failure closes the writer.
    pub fn plan_flush(&mut self) -> (r: Result<FlushStep, PublishError>)
        requires
            engine::store_ok(old(self)@),
        ensures
            engine::store_ok(final(self)@),
            ({
                let s = old(self)@;
                let t = final(self)@;
                if s.requires_reopen {
                    r == Err::<FlushStep, PublishError>(PublishError::RequiresReopen) && t == s
                } else if s.mem.len() == 0 {
                    &&& t == s
                    &&& r == Ok::<FlushStep, PublishError>(
                        if s.wal.frames() == 0 {
                            FlushStep::Settled
                        } else if s.unsynced {
                            FlushStep::Acknowledge
                        } else {
                            FlushStep::CutLog
                        },
                    )
                } else {
                    match r {
                        Ok(FlushStep::Publish { plan }) => flush_plan(s) == Ok::<
                            PlanView,
                            PublishError,
                        >(plan@) && plan_sound(plan@) && t == s,
                        Ok(_) => false,
                        Err(e) => flush_plan(s) == Err::<PlanView, PublishError>(e) && t
                            == closed(s),
                    }
                }
            }),
    {
        if self.requires_reopen {
            return Err(PublishError::RequiresReopen);
        }
        if self.mem.len() == 0 {
            if self.wal.frame_count() == 0 {
                return Ok(FlushStep::Settled);
            }
            if self.unsynced {
                return Ok(FlushStep::Acknowledge);
            }
            return Ok(FlushStep::CutLog);
        }
        if self.manifest.next_seq == u64::MAX {
            self.requires_reopen = true;
            return Err(PublishError::SequenceExhausted);
        }
        let seq: u64 = self.manifest.next_seq + 1;
        let pieces = match dictionary_of(&self.parts, &self.writer, &self.mem) {
            Ok(d) => d,
            Err(e) => {
                self.requires_reopen = true;
                return Err(e);
            },
        };
        Ok(
            FlushStep::Publish {
                plan: PartPlan {
                    member: names::part_member(seq),
                    seq_lo: seq,
                    seq_hi: seq,
                    rows: clone_rows(&self.mem),
                    pieces,
                    start: self.parts.len(),
                    replaces: 0,
                    flush: true,
                },
            },
        )
    }

    /// Plan the part that a contiguous run of parts becomes; none where there is no such run.
    ///
    /// A gap cannot be expressed: parts resolve versions by sequence, so merging parts that are not
    /// adjacent would drop what a part between them says.
    pub fn plan_merge(&self, lo: usize, len: usize) -> (r: Result<Option<PartPlan>, PublishError>)
        requires
            engine::store_ok(self@),
        ensures
            ({
                let s = self@;
                if s.requires_reopen {
                    r == Err::<Option<PartPlan>, PublishError>(PublishError::RequiresReopen)
                } else if !mergeable(s, lo as int, len as int) {
                    r == Ok::<Option<PartPlan>, PublishError>(None)
                } else {
                    match r {
                        Ok(Some(plan)) => merge_plan(s, lo as int, len as int) == Ok::<
                            PlanView,
                            PublishError,
                        >(plan@) && plan_sound(plan@),
                        Ok(None) => false,
                        Err(e) => merge_plan(s, lo as int, len as int) == Err::<
                            PlanView,
                            PublishError,
                        >(e),
                    }
                }
            }),
    {
        if self.requires_reopen {
            return Err(PublishError::RequiresReopen);
        }
        let total: usize = self.parts.len();
        if len < 2 || len > total || lo > total - len {
            return Ok(None);
        }
        let hi: usize = lo + len;
        assert(self@.manifest.parts[lo as int] == self.manifest.parts@[lo as int]@);
        assert(self@.manifest.parts[hi - 1] == self.manifest.parts@[hi - 1]@);
        let seq_lo: u64 = self.manifest.parts[lo].seq_lo;
        let seq_hi: u64 = self.manifest.parts[hi - 1].seq_hi;
        let pieces = match merge_dictionaries(&self.parts, &self.writer.fold, lo, hi) {
            Ok(d) => d,
            Err(error) => {
                return Err(PublishError::Locate { error });
            },
        };
        proof {
            lemma_merge_output(self@.parts, lo as int, hi as int);
        }
        let merged = merge_run(&self.parts, lo, hi);
        let rows = if lo == 0 && len == total {
            keep_records(merged)
        } else {
            merged
        };
        Ok(
            Some(
                PartPlan {
                    member: names::range_member(seq_lo, seq_hi),
                    seq_lo,
                    seq_hi,
                    rows,
                    pieces,
                    start: lo,
                    replaces: len,
                    flush: false,
                },
            ),
        )
    }

    /// Make a manifest the store's next revision. A failure closes the writer.
    pub(crate) fn prepare_next(&mut self, c: &Container, next: Manifest) -> (r: Result<
        Manifest,
        PublishError,
    >)
        requires
            engine::store_ok(old(self)@),
        ensures
            engine::store_ok(final(self)@),
            prepare_outcome(
                old(self)@,
                final(self)@,
                next@,
                predecessor_bytes(c@.members),
                match r {
                    Ok(m) => Ok(m@),
                    Err(e) => Err(e),
                },
            ),
    {
        if self.requires_reopen {
            return Err(PublishError::RequiresReopen);
        }
        self.writer.sealed = self.writer.fold.blocks.len();
        let mut m = next;
        match commit::prepare_revision(c, &mut m) {
            Ok(()) => Ok(m),
            Err(error) => {
                self.requires_reopen = true;
                Err(PublishError::Manifest { error })
            },
        }
    }

    /// Make the revision that names a planned part. The bytes are what the host's encoder made of
    /// the plan; the tail is where the fold ends after the host synchronized it.
    pub fn prepare(&mut self, c: &Container, plan: &PartPlan, bytes: &[u8], tail: FoldTail) -> (r: Result<
        Manifest,
        PublishError,
    >)
        requires
            engine::store_ok(old(self)@),
            plan@.start + plan@.replaces <= old(self)@.parts.len(),
        ensures
            engine::store_ok(final(self)@),
            if !old(self)@.requires_reopen && plan@.rows.len() > u32::MAX {
                r == Err::<Manifest, PublishError>(PublishError::TooManyRows) && final(self)@
                    == closed(old(self)@)
            } else {
                prepare_outcome(
                    old(self)@,
                    final(self)@,
                    planned_manifest(old(self)@.manifest, plan@, bytes@, tail),
                    predecessor_bytes(c@.members),
                    match r {
                        Ok(m) => Ok(m@),
                        Err(e) => Err(e),
                    },
                )
            },
    {
        if self.requires_reopen {
            return Err(PublishError::RequiresReopen);
        }
        if plan.rows.len() as u64 > u32::MAX as u64 {
            self.requires_reopen = true;
            return Err(PublishError::TooManyRows);
        }
        let digest = hash::blake3_hash(bytes);
        let reference = PartRef {
            member: plan.member.clone(),
            seq_lo: plan.seq_lo,
            seq_hi: plan.seq_hi,
            records: plan.rows.len() as u32,
            b3: text::hex_text(digest.as_slice()),
        };
        let ghost before = self.manifest@;
        let mut next = self.manifest.clone();
        next.parts = splice_refs(&self.manifest.parts, plan.start, plan.replaces, reference);
        next.fold_seg = tail.seg;
        next.fold_off = tail.off;
        if plan.flush {
            next.next_seq = plan.seq_hi;
        }
        assert(next@ == planned_manifest(before, plan@, bytes@, tail));
        self.prepare_next(c, next)
    }

    /// Stage a planned part with its revision: the container's next state, which the host then
    /// flips to. The store stays as it was. Where a retained revision does not read, nothing is
    /// staged and the writer is closed.
    pub fn stage(
        &mut self,
        c: &Container,
        plan: PartPlan,
        encoded: EncodedPart,
        m: Manifest,
        json: &Vec<u8>,
    ) -> (r: Result<(Container, StagedPart), PublishError>)
        requires
            engine::store_ok(old(self)@),
        ensures
            engine::store_ok(final(self)@),
            stage_outcome(
                old(self)@,
                final(self)@,
                c@.members,
                plan@,
                encoded,
                m@,
                json@,
                match r {
                    Ok((next, _)) => Ok(next@.members),
                    Err(e) => Err(e),
                },
            ),
            r matches Ok((next, staged)) ==> {
                &&& next@.seq == c@.seq
                &&& staged.plan@ == plan@
                &&& staged.encoded == encoded
                &&& staged.manifest == m
            },
    {
        if self.requires_reopen {
            return Err(PublishError::RequiresReopen);
        }
        let part = Part {
            seq_lo: plan.seq_lo,
            seq_hi: plan.seq_hi,
            rows: clone_rows(&plan.rows),
            pieces: clone_pieces(&plan.pieces),
            sections: encoded.sections,
            section_bytes: encoded.section_bytes,
        };
        assert(part@ == plan_part(plan@, encoded.sections, encoded.section_bytes));
        let mut held: Vec<u8> = Vec::new();
        bytes::append_bytes(&mut held, encoded.bytes.as_slice());
        assert(held@ =~= encoded.bytes@);
        let checksum: u32 = hash::crc32(held.as_slice());
        let member = Member {
            name: plan.member.clone(),
            bytes: held,
            checksum,
            manifest: None,
            part: Some(part),
            blocks: None,
        };
        assert(member@ == plan_member(plan@, encoded));
        let mut next = clone_container(c);
        next.put(member);
        commit::commit_into_container(&mut next, &m, json);
        if let Err(error) = commit::sweep_unreachable_container(&mut next, &m) {
            self.requires_reopen = true;
            return Err(PublishError::Sweep { error });
        }
        Ok((next, StagedPart { plan, encoded, manifest: m }))
    }

    /// Take the outcome of the flip to a staged part. Only a flip that selected it publishes it;
    /// the rows of a flush are in the container then, and the log that carried them is kept until
    /// it is settled.
    pub fn adopt(&mut self, staged: StagedPart, outcome: CommitOutcome) -> (r: Result<
        PartRef,
        PublishError,
    >)
        requires
            engine::store_ok(old(self)@),
            plan_sound(staged.plan@),
            staged.plan@.start + staged.plan@.replaces <= old(self)@.parts.len(),
            staged.plan@.flush ==> staged.plan@.rows == old(self)@.mem,
            staged.manifest@.parts.len() + staged.plan@.replaces == old(self)@.parts.len() + 1,
            staged.manifest@.punched == old(self)@.manifest.punched,
        ensures
            engine::store_ok(final(self)@),
            adopt_outcome(
                old(self)@,
                final(self)@,
                staged.plan@,
                staged.encoded,
                staged.manifest@,
                outcome,
                match r {
                    Ok(p) => Ok(p@),
                    Err(e) => Err(e),
                },
            ),
    {
        if self.requires_reopen {
            return Err(PublishError::RequiresReopen);
        }
        if outcome == CommitOutcome::NotSelected {
            return Err(PublishError::NotSelected);
        }
        let ghost s = self@;
        let StagedPart { plan, encoded, manifest: m } = staged;
        let ghost pv = plan@;
        let part = Part {
            seq_lo: plan.seq_lo,
            seq_hi: plan.seq_hi,
            rows: plan.rows,
            pieces: plan.pieces,
            sections: encoded.sections,
            section_bytes: encoded.section_bytes,
        };
        let ghost partv = part@;
        assert(partv == plan_part(pv, encoded.sections, encoded.section_bytes));
        proof {
            lemma_released(s.writer);
        }
        self.parts = splice_parts(&self.parts, plan.start, plan.replaces, part);
        assert(m@.parts[pv.start as int] == m.parts@[pv.start as int]@);
        let published = m.parts[plan.start].clone();
        self.manifest = m;
        if self.retained_commit_count < MANIFEST_RETAIN {
            self.retained_commit_count = self.retained_commit_count + 1;
        } else {
            self.retained_commit_count = MANIFEST_RETAIN;
        }
        if plan.flush {
            self.mem = Vec::new();
            self.mem_bytes = 0;
            self.writer.window = Vec::new();
            assert(part::rows_view(self.mem@) =~= Seq::<RowView>::empty());
            assert(part::dictionary_view(self.writer.window@) =~= Seq::<(Seq<u8>, Loc)>::empty());
        }
        self.unsynced = outcome == CommitOutcome::SelectedUnsynced;
        proof {
            let t = self@;
            assert forall|i: int| 0 <= i < t.parts.len() implies part::part_sound(
                #[trigger] t.parts[i],
            ) by {
                if i < pv.start {
                    assert(t.parts[i] == s.parts[i]);
                } else if i == pv.start {
                    assert(t.parts[i] == partv);
                } else {
                    assert(t.parts[i] == s.parts[i - 1 + pv.replaces]);
                }
            }
        }
        if outcome == CommitOutcome::SelectedUnsynced {
            return Err(PublishError::Unsynchronized);
        }
        Ok(published)
    }
}

} // verus!
