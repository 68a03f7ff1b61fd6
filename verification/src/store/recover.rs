//! Opening a store for writing: the committed state, and the log a crash left beside it.
//!
//! Everything is judged before anything is rebuilt: the current authority, the whole log, and the
//! retained chain. Only then are the log's pending mutations staged again.

use crate::bytes;
use crate::container::{Container, ContainerView};
use crate::fold;
use crate::fold::{Fold, FoldError, FoldView, Loc};
use crate::hash;
use crate::memtable;
use crate::part;
use crate::part::{Part, PartView, Row, RowView};
use crate::read_limits::ReadLimits;
use crate::store::admission;
use crate::store::admission::{RefusalView, WriteAdmissionError, WriteLimits};
use crate::store::artifact;
use crate::store::artifact::ArtifactError;
use crate::store::audit;
use crate::store::chain;
use crate::store::chain::ChainError;
use crate::store::debris;
use crate::store::engine;
use crate::store::engine::{Store, StoreView};
use crate::store::log_laws;
use crate::store::manifest;
use crate::store::manifest::ManifestView;
use crate::store::open;
use crate::store::open::{OpenError, ReadStore, ReadStoreView};
use crate::store::wal;
use crate::store::wal::{Frame, FrameView, Wal, WalError};
use crate::store::wire;
use crate::store::writer;
use crate::store::writer::{FoldWriter, Novel, StageError, WriterView};
use crate::types;
use crate::types::{Content, ContentHash, ContentOp, ContentView, OpView, PieceHash};
use vstd::prelude::*;

verus! {

/// How much of the store a writer's open verifies before it accepts a mutation.
#[derive(Clone, Copy, Debug, PartialEq, Eq, Structural)]
pub enum OpenVerification {
    /// Structure only, in proportion to metadata and framing.
    Structure,
    /// Every pin, row, dictionary entry and value, for the current revision and each retained one.
    Deep,
}

impl Default for OpenVerification {
    fn default() -> (r: OpenVerification)
        ensures
            r == OpenVerification::Structure,
    {
        OpenVerification::Structure
    }
}

/// How a writer is configured. None of it is persisted.
#[derive(Clone, Copy, Debug, PartialEq, Eq, Structural)]
pub struct StoreOptions {
    /// The size a fold block may grow to.
    pub block_target_bytes: u32,
    pub write_limits: WriteLimits,
    pub read_limits: ReadLimits,
    pub open_verification: OpenVerification,
}

impl StoreOptions {
    /// Default limits and verification over a fold configuration.
    pub fn new(block_target_bytes: u32) -> (r: StoreOptions)
        ensures
            r.block_target_bytes == block_target_bytes,
            r.write_limits == (WriteLimits {
                max_record_bytes: 67_108_864,
                max_batch_bytes: 268_435_456,
                max_batch_records: 4_096,
                max_identifier_bytes: 4_096,
            }),
            r.read_limits == open::default_limits(),
            r.open_verification == OpenVerification::Structure,
    {
        StoreOptions {
            block_target_bytes,
            write_limits: WriteLimits::default(),
            read_limits: ReadLimits::default(),
            open_verification: OpenVerification::Structure,
        }
    }
}

/// Why a log does not belong to the store beside it.
#[allow(inconsistent_fields)]
#[derive(Clone, Copy, Debug, PartialEq, Eq, Structural)]
pub enum ReplayError {
    /// A frame carries neither the published sequence nor the one after it.
    Sequence { found: u64, published: u64 },
    /// The log goes back from the pending sequence to the published one.
    Returns,
    /// A piece is introduced twice.
    RepeatedNovel,
    /// An introduced piece is not the one its identity names.
    NovelIdentity,
    /// A program refers to a piece that is nowhere.
    AbsentPiece,
    /// A program gives a piece another length than it has.
    PieceLength { declared: u32 },
    /// A dictionary maps a piece to bytes that are not it.
    Locate { error: FoldError },
    /// A value carries no identity.
    NoIdentity,
    /// The bytes are not the value the identity names.
    Identity,
}

/// What a walk over the log has met.
pub struct WalkView {
    pub saw_pending: bool,
    pub pending: Novel,
}

/// A frame that the current manifest already represents.
pub open spec fn redundant(m: ManifestView, seq: u64) -> bool {
    m.commit != 0 && seq == m.next_seq
}

/// A frame of the pending sequence.
pub open spec fn is_pending(m: ManifestView, seq: u64) -> bool {
    m.next_seq < u64::MAX && seq == m.next_seq + 1
}

/// A piece that the format can name, under its own identity.
pub open spec fn novel_sound(h: Seq<u8>, b: Seq<u8>) -> bool {
    b.len() <= u32::MAX && hash::blake3_digest(b) == h
}

/// The introduced pieces after the first `n` of a frame.
pub open spec fn introduced(pending: Novel, novel: Novel, n: nat) -> Result<Novel, ReplayError>
    decreases n,
{
    if n == 0 {
        Ok(pending)
    } else {
        match introduced(pending, novel, (n - 1) as nat) {
            Err(e) => Err(e),
            Ok(p) => {
                let (h, b) = novel[n - 1];
                if wire::find_novel(p, h) is Some {
                    Err(ReplayError::RepeatedNovel)
                } else if !novel_sound(h, b) {
                    Err(ReplayError::NovelIdentity)
                } else {
                    Ok(p.push((h, b)))
                }
            },
        }
    }
}

/// The bytes of one step of a logged program.
pub open spec fn logged_op(s: ReadStoreView, pending: Novel, op: OpView) -> Result<
    Seq<u8>,
    ReplayError,
> {
    match op {
        OpView::Lit(b) => Ok(b),
        OpView::Piece { hash, len } => {
            let found = match wire::find_novel(pending, hash) {
                Some(b) => Ok(b),
                None => match writer::located_in(s.parts, s.fold, hash, s.parts.len()) {
                    Err(error) => Err(ReplayError::Locate { error }),
                    Ok(None) => Err(ReplayError::AbsentPiece),
                    Ok(Some(loc)) => match fold::fold_read(s.fold, loc, hash) {
                        Ok(b) => Ok(b),
                        Err(error) => Err(ReplayError::Locate { error }),
                    },
                },
            };
            match found {
                Err(e) => Err(e),
                Ok(b) => if b.len() != len {
                    Err(ReplayError::PieceLength { declared: len })
                } else {
                    Ok(b)
                },
            }
        },
    }
}

/// The bytes of a logged program, or the first fault.
pub open spec fn logged_program(s: ReadStoreView, pending: Novel, ops: Seq<OpView>) -> Result<
    Seq<u8>,
    ReplayError,
>
    decreases ops.len(),
{
    if ops.len() == 0 {
        Ok(Seq::empty())
    } else {
        match logged_program(s, pending, ops.drop_last()) {
            Err(e) => Err(e),
            Ok(front) => match logged_op(s, pending, ops.last()) {
                Err(e) => Err(e),
                Ok(b) => Ok(front + b),
            },
        }
    }
}

/// What is wrong with a logged value.
pub open spec fn logged_fault(s: ReadStoreView, pending: Novel, c: ContentView) -> Option<
    ReplayError,
> {
    match logged_program(s, pending, c.ops) {
        Err(e) => Some(e),
        Ok(b) => match c.identity {
            None => Some(ReplayError::NoIdentity),
            Some(h) => if hash::blake3_digest(b) != h {
                Some(ReplayError::Identity)
            } else {
                None
            },
        },
    }
}

/// What is wrong first with the first `n` values of a frame.
pub open spec fn frame_values_fault(
    s: ReadStoreView,
    pending: Novel,
    contents: Seq<ContentView>,
    n: nat,
) -> Option<ReplayError>
    decreases n,
{
    if n == 0 {
        None
    } else {
        match frame_values_fault(s, pending, contents, (n - 1) as nat) {
            Some(e) => Some(e),
            None => logged_fault(s, pending, contents[n - 1]),
        }
    }
}

/// The walk after one frame.
pub open spec fn walked(s: ReadStoreView, at: WalkView, f: FrameView) -> Result<
    WalkView,
    ReplayError,
> {
    let old = redundant(s.manifest, f.seq);
    let new = is_pending(s.manifest, f.seq);
    if !old && !new {
        Err(ReplayError::Sequence { found: f.seq, published: s.manifest.next_seq })
    } else if old && at.saw_pending {
        Err(ReplayError::Returns)
    } else {
        match introduced(at.pending, f.novel, f.novel.len()) {
            Err(e) => Err(e),
            Ok(pending) => match frame_values_fault(
                s,
                pending,
                f.record.contents,
                f.record.contents.len(),
            ) {
                Some(e) => Err(e),
                None => Ok(WalkView { saw_pending: at.saw_pending || new, pending }),
            },
        }
    }
}

/// The walk after the first `n` frames.
pub open spec fn walk(s: ReadStoreView, frames: Seq<FrameView>, n: nat) -> Result<
    WalkView,
    ReplayError,
>
    decreases n,
{
    if n == 0 {
        Ok(WalkView { saw_pending: false, pending: Seq::empty() })
    } else {
        match walk(s, frames, (n - 1) as nat) {
            Err(e) => Err(e),
            Ok(at) => walked(s, at, frames[n - 1]),
        }
    }
}

proof fn lemma_introduced_prefix(pending: Novel, novel: Novel, k: nat, n: nat)
    requires
        k <= n,
        introduced(pending, novel, k) is Err,
    ensures
        introduced(pending, novel, n) == introduced(pending, novel, k),
    decreases n,
{
    if k < n {
        lemma_introduced_prefix(pending, novel, k, (n - 1) as nat);
    }
}

proof fn lemma_logged_prefix(s: ReadStoreView, pending: Novel, ops: Seq<OpView>, k: int)
    requires
        0 <= k <= ops.len(),
        logged_program(s, pending, ops.take(k)) is Err,
    ensures
        logged_program(s, pending, ops) == logged_program(s, pending, ops.take(k)),
    decreases ops.len(),
{
    if k < ops.len() {
        assert(ops.drop_last().take(k) =~= ops.take(k));
        lemma_logged_prefix(s, pending, ops.drop_last(), k);
    } else {
        assert(ops.take(k) =~= ops);
    }
}

proof fn lemma_values_prefix(
    s: ReadStoreView,
    pending: Novel,
    contents: Seq<ContentView>,
    k: nat,
    n: nat,
)
    requires
        k <= n,
        frame_values_fault(s, pending, contents, k) is Some,
    ensures
        frame_values_fault(s, pending, contents, n) == frame_values_fault(s, pending, contents, k),
    decreases n,
{
    if k < n {
        lemma_values_prefix(s, pending, contents, k, (n - 1) as nat);
    }
}

proof fn lemma_walk_prefix(s: ReadStoreView, frames: Seq<FrameView>, k: nat, n: nat)
    requires
        k <= n,
        walk(s, frames, k) is Err,
    ensures
        walk(s, frames, n) == walk(s, frames, k),
    decreases n,
{
    if k < n {
        lemma_walk_prefix(s, frames, k, (n - 1) as nat);
    }
}

fn introduce(pending: &mut Vec<(PieceHash, Vec<u8>)>, novel: &Vec<(PieceHash, Vec<u8>)>) -> (r: Result<
    (),
    ReplayError,
>)
    ensures
        ({
            let all = wire::novel_view(novel@);
            let out = introduced(wire::novel_view(old(pending)@), all, all.len());
            match r {
                Ok(()) => out == Ok::<Novel, ReplayError>(wire::novel_view(final(pending)@)),
                Err(e) => out == Err::<Novel, ReplayError>(e),
            }
        }),
{
    let ghost all = wire::novel_view(novel@);
    let ghost p0 = wire::novel_view(pending@);
    let mut i: usize = 0;
    while i < novel.len()
        invariant
            all == wire::novel_view(novel@),
            p0 == wire::novel_view(old(pending)@),
            i <= novel@.len(),
            introduced(p0, all, i as nat) == Ok::<Novel, ReplayError>(wire::novel_view(pending@)),
        decreases novel.len() - i,
    {
        let h = novel[i].0;
        let b = &novel[i].1;
        assert(all[i as int] == (h@, b@));
        if wire::find_novel_piece(pending.as_slice(), &h).is_some() {
            proof {
                lemma_introduced_prefix(p0, all, (i + 1) as nat, all.len());
            }
            return Err(ReplayError::RepeatedNovel);
        }
        let named = PieceHash::of(b.as_slice());
        if b.len() as u64 > u32::MAX as u64 || !named.same(&h) {
            proof {
                lemma_introduced_prefix(p0, all, (i + 1) as nat, all.len());
            }
            return Err(ReplayError::NovelIdentity);
        }
        let ghost before = pending@;
        pending.push((h, types::clone_bytes(b)));
        assert(wire::novel_view(pending@) =~= wire::novel_view(before).push((h@, b@)));
        i = i + 1;
    }
    Ok(())
}

fn check_value(s: &ReadStore, pending: &Vec<(PieceHash, Vec<u8>)>, c: &Content) -> (r: Option<
    ReplayError,
>)
    ensures
        r == logged_fault(s@, wire::novel_view(pending@), c@),
{
    let ghost all = types::ops_view(c.ops@);
    let ghost sv = s@;
    let ghost pv = wire::novel_view(pending@);
    let none: Vec<(PieceHash, Loc)> = Vec::new();
    let mut out: Vec<u8> = Vec::new();
    let mut i: usize = 0;
    assert(all.take(0) =~= Seq::<OpView>::empty());
    assert(part::dictionary_view(none@) =~= Seq::<(Seq<u8>, Loc)>::empty());
    while i < c.ops.len()
        invariant
            all == types::ops_view(c.ops@),
            sv == s@,
            pv == wire::novel_view(pending@),
            part::dictionary_view(none@) == Seq::<(Seq<u8>, Loc)>::empty(),
            i <= c.ops@.len(),
            logged_program(sv, pv, all.take(i as int)) == Ok::<Seq<u8>, ReplayError>(out@),
        decreases c.ops.len() - i,
    {
        let ghost next = all.take(i + 1);
        proof {
            assert(next.drop_last() =~= all.take(i as int));
            assert(next.last() == c.ops@[i as int]@);
        }
        let mut fault: Option<ReplayError> = None;
        match &c.ops[i] {
            ContentOp::Lit(b) => {
                bytes::append_bytes(&mut out, b.as_slice());
            },
            ContentOp::Piece { hash, len } => {
                match wire::find_novel_piece(pending.as_slice(), hash) {
                    Some(b) => {
                        if b.len() as u64 != *len as u64 {
                            fault = Some(ReplayError::PieceLength { declared: *len });
                        } else {
                            bytes::append_bytes(&mut out, b.as_slice());
                        }
                    },
                    None => match writer::locate_verified_piece(&s.parts, &s.fold, &none, hash) {
                        Err(error) => {
                            fault = Some(ReplayError::Locate { error });
                        },
                        Ok(None) => {
                            fault = Some(ReplayError::AbsentPiece);
                        },
                        Ok(Some(loc)) => match s.fold.read_verified(loc, hash) {
                            Err(error) => {
                                fault = Some(ReplayError::Locate { error });
                            },
                            Ok(b) => {
                                if b.len() as u64 != *len as u64 {
                                    fault = Some(ReplayError::PieceLength { declared: *len });
                                } else {
                                    bytes::append_bytes(&mut out, b);
                                }
                            },
                        },
                    },
                }
            },
        }
        if let Some(e) = fault {
            proof {
                lemma_logged_prefix(sv, pv, all, i + 1);
            }
            return Some(e);
        }
        i = i + 1;
    }
    assert(all.take(i as int) =~= all);
    match &c.identity {
        None => Some(ReplayError::NoIdentity),
        Some(h) => {
            let got = ContentHash::of(out.as_slice());
            if !got.same(h) {
                return Some(ReplayError::Identity);
            }
            None
        },
    }
}

fn check_values(
    s: &ReadStore,
    pending: &Vec<(PieceHash, Vec<u8>)>,
    contents: &Vec<Content>,
) -> (r: Option<ReplayError>)
    ensures
        r == frame_values_fault(
            s@,
            wire::novel_view(pending@),
            types::contents_view(contents@),
            contents@.len(),
        ),
{
    let ghost all = types::contents_view(contents@);
    let ghost pv = wire::novel_view(pending@);
    let mut i: usize = 0;
    while i < contents.len()
        invariant
            all == types::contents_view(contents@),
            pv == wire::novel_view(pending@),
            i <= contents@.len(),
            frame_values_fault(s@, pv, all, i as nat) is None,
        decreases contents.len() - i,
    {
        assert(all[i as int] == contents@[i as int]@);
        if let Some(e) = check_value(s, pending, &contents[i]) {
            proof {
                lemma_values_prefix(s@, pv, all, (i + 1) as nat, all.len());
            }
            return Some(e);
        }
        i = i + 1;
    }
    None
}

/// Check a log against the store beside it: sequences, introduced pieces, and the identity of
/// every value.
pub fn verify_replay_identities(frames: &Vec<Frame>, current: &ReadStore) -> (r: Result<
    (),
    ReplayError,
>)
    ensures
        ({
            let out = walk(current@, wal::frames_view(frames@), frames@.len());
            match r {
                Ok(()) => out is Ok,
                Err(e) => out == Err::<WalkView, ReplayError>(e),
            }
        }),
{
    let ghost all = wal::frames_view(frames@);
    let ghost s = current@;
    let published: u64 = current.manifest.next_seq;
    let committed = current.manifest.commit != 0;
    let mut saw_pending = false;
    let mut pending: Vec<(PieceHash, Vec<u8>)> = Vec::new();
    let mut i: usize = 0;
    assert(wire::novel_view(pending@) =~= Seq::<(Seq<u8>, Seq<u8>)>::empty());
    while i < frames.len()
        invariant
            all == wal::frames_view(frames@),
            s == current@,
            published == s.manifest.next_seq,
            committed == (s.manifest.commit != 0),
            i <= frames@.len(),
            walk(s, all, i as nat) == Ok::<WalkView, ReplayError>(
                WalkView { saw_pending, pending: wire::novel_view(pending@) },
            ),
        decreases frames.len() - i,
    {
        let f = &frames[i];
        assert(all[i as int] == f@);
        let old = committed && f.seq == published;
        let new = published < u64::MAX && f.seq == published + 1;
        let mut fault: Option<ReplayError> = None;
        if !old && !new {
            fault = Some(ReplayError::Sequence { found: f.seq, published });
        } else if old && saw_pending {
            fault = Some(ReplayError::Returns);
        } else {
            match introduce(&mut pending, &f.novel) {
                Err(e) => {
                    fault = Some(e);
                },
                Ok(()) => {
                    fault = check_values(current, &pending, &f.record.contents);
                },
            }
        }
        if let Some(e) = fault {
            proof {
                lemma_walk_prefix(s, all, (i + 1) as nat, all.len());
            }
            return Err(e);
        }
        saw_pending = saw_pending || new;
        i = i + 1;
    }
    Ok(())
}

// ---------------------------------------------------------------------------------------------
// Staging the log again.
// ---------------------------------------------------------------------------------------------
/// Whether a piece needs no second copy: it is in the window, or some part holds it at a place
/// that was not given up.
pub open spec fn known(parts: Seq<PartView>, w: WriterView, h: Seq<u8>) -> bool {
    ||| part::find_loc(w.window, h) is Some
    ||| exists|p: int|
        0 <= p < parts.len() && (part::find_loc((#[trigger] parts[p]).pieces, h) matches Some(loc)
            && !fold::in_ranges(w.fold.punched, loc.block_id))
}

/// A writer after the first `n` introduced pieces of a frame were folded again.
pub open spec fn refolded(parts: Seq<PartView>, w: WriterView, novel: Novel, n: nat) -> Result<
    WriterView,
    StageError,
>
    decreases n,
{
    if n == 0 {
        Ok(w)
    } else {
        match refolded(parts, w, novel, (n - 1) as nat) {
            Err(e) => Err(e),
            Ok(before) => {
                let (h, b) = novel[n - 1];
                if known(parts, before, h) {
                    Ok(before)
                } else {
                    match writer::appended(before, h, b) {
                        Some((after, _)) => Ok(after),
                        None => Err(StageError::Full),
                    }
                }
            },
        }
    }
}

/// What the log stages: a writer, the rows, and their weight.
pub struct StagedView {
    pub writer: WriterView,
    pub mem: Seq<RowView>,
    pub mem_bytes: usize,
}

/// The row a frame stages.
pub open spec fn frame_row(f: FrameView) -> RowView {
    RowView {
        id: f.record.id,
        record: if f.tomb {
            None
        } else {
            Some(f.record)
        },
    }
}

/// The state after the first `n` frames; those that are already published stage nothing.
pub open spec fn staged_log(
    s: ReadStoreView,
    w: WriterView,
    frames: Seq<FrameView>,
    n: nat,
) -> Result<StagedView, StageError>
    decreases n,
{
    if n == 0 {
        Ok(StagedView { writer: w, mem: Seq::empty(), mem_bytes: 0 })
    } else {
        match staged_log(s, w, frames, (n - 1) as nat) {
            Err(e) => Err(e),
            Ok(at) => {
                let f = frames[n - 1];
                if redundant(s.manifest, f.seq) {
                    Ok(at)
                } else {
                    match refolded(s.parts, at.writer, f.novel, f.novel.len()) {
                        Err(e) => Err(e),
                        Ok(after) => Ok(
                            StagedView {
                                writer: after,
                                mem: memtable::rows_put(at.mem, frame_row(f)),
                                mem_bytes: engine::heavier(
                                    at.mem_bytes,
                                    engine::record_weight(f.record),
                                ),
                            },
                        ),
                    }
                }
            },
        }
    }
}

proof fn lemma_refolded_prefix(parts: Seq<PartView>, w: WriterView, novel: Novel, k: nat, n: nat)
    requires
        k <= n,
        refolded(parts, w, novel, k) is Err,
    ensures
        refolded(parts, w, novel, n) == refolded(parts, w, novel, k),
    decreases n,
{
    if k < n {
        lemma_refolded_prefix(parts, w, novel, k, (n - 1) as nat);
    }
}

proof fn lemma_staged_log_prefix(
    s: ReadStoreView,
    w: WriterView,
    frames: Seq<FrameView>,
    k: nat,
    n: nat,
)
    requires
        k <= n,
        staged_log(s, w, frames, k) is Err,
    ensures
        staged_log(s, w, frames, n) == staged_log(s, w, frames, k),
    decreases n,
{
    if k < n {
        lemma_staged_log_prefix(s, w, frames, k, (n - 1) as nat);
    }
}

/// Every piece that a checked log introduces has its identity.
pub proof fn lemma_introduced_sound(pending: Novel, novel: Novel, n: nat, i: int)
    requires
        introduced(pending, novel, n) is Ok,
        0 <= i < n,
    ensures
        novel_sound(novel[i].0, novel[i].1),
    decreases n,
{
    if i < n - 1 {
        lemma_introduced_sound(pending, novel, (n - 1) as nat, i);
    }
}

/// A checked log's frames each passed the walk.
pub proof fn lemma_walk_each(s: ReadStoreView, frames: Seq<FrameView>, n: nat, k: int)
    requires
        walk(s, frames, n) is Ok,
        0 <= k < n,
    ensures
        walk(s, frames, k as nat) is Ok,
        walked(s, walk(s, frames, k as nat)->Ok_0, frames[k]) is Ok,
    decreases n,
{
    if k < n - 1 {
        lemma_walk_each(s, frames, (n - 1) as nat, k);
    }
}

fn is_known(parts: &Vec<Part>, w: &FoldWriter, h: &PieceHash) -> (r: bool)
    ensures
        r == known(part::parts_view(parts@), w@, h@),
{
    if part::lookup(&w.window, h).is_some() {
        return true;
    }
    let ghost pv = part::parts_view(parts@);
    let mut i: usize = parts.len();
    while i > 0
        invariant
            pv == part::parts_view(parts@),
            i <= parts@.len(),
            part::find_loc(w@.window, h@) is None,
            forall|p: int|
                i <= p < pv.len() ==> !(part::find_loc((#[trigger] pv[p]).pieces, h@) matches Some(
                    loc,
                ) && !fold::in_ranges(w@.fold.punched, loc.block_id)),
        decreases i,
    {
        i = i - 1;
        assert(pv[i as int] == parts@[i as int]@);
        if let Some(loc) = parts[i].find_piece(h) {
            if !w.fold.is_punched(loc.block_id) {
                return true;
            }
        }
    }
    false
}

fn refold_novel(parts: &Vec<Part>, w: &mut FoldWriter, novel: &Vec<(PieceHash, Vec<u8>)>) -> (r: Result<
    (),
    StageError,
>)
    requires
        writer::writer_ok(old(w)@),
        forall|i: int|
            0 <= i < novel@.len() ==> novel_sound(
                (#[trigger] wire::novel_view(novel@)[i]).0,
                wire::novel_view(novel@)[i].1,
            ),
    ensures
        writer::writer_ok(final(w)@),
        writer::extends(old(w)@.fold, final(w)@.fold),
        ({
            let all = wire::novel_view(novel@);
            let out = refolded(part::parts_view(parts@), old(w)@, all, all.len());
            match r {
                Ok(()) => out == Ok::<WriterView, StageError>(final(w)@),
                Err(e) => out == Err::<WriterView, StageError>(e),
            }
        }),
{
    let ghost all = wire::novel_view(novel@);
    let ghost pv = part::parts_view(parts@);
    let ghost w0 = w@;
    let mut i: usize = 0;
    while i < novel.len()
        invariant
            all == wire::novel_view(novel@),
            pv == part::parts_view(parts@),
            w0 == old(w)@,
            forall|k: int|
                0 <= k < novel@.len() ==> novel_sound((#[trigger] all[k]).0, all[k].1),
            i <= novel@.len(),
            writer::writer_ok(w@),
            writer::extends(w0.fold, w@.fold),
            refolded(pv, w0, all, i as nat) == Ok::<WriterView, StageError>(w@),
        decreases novel.len() - i,
    {
        let h = novel[i].0;
        assert(all[i as int] == (h@, novel@[i as int].1@));
        if !is_known(parts, w, &h) {
            let ghost before = w@;
            proof {
                assert(novel_sound(all[i as int].0, all[i as int].1));
                if writer::appended(before, h@, all[i as int].1) is Some {
                    writer::lemma_appended(before, all[i as int].1);
                }
            }
            if let Err(e) = w.put_hashed(novel[i].1.as_slice(), h) {
                proof {
                    lemma_refolded_prefix(pv, w0, all, (i + 1) as nat, all.len());
                }
                return Err(e);
            }
        }
        i = i + 1;
    }
    Ok(())
}

fn stage_log(s: &ReadStore, w: &mut FoldWriter, frames: &Vec<Frame>) -> (r: Result<
    (Vec<Row>, usize),
    StageError,
>)
    requires
        writer::writer_ok(old(w)@),
        old(w)@.window.len() == 0,
        walk(s@, wal::frames_view(frames@), frames@.len()) is Ok,
    ensures
        writer::writer_ok(final(w)@),
        final(w)@.fold.punched == old(w)@.fold.punched,
        r matches Ok((mem, _)) ==> (mem@.len() == 0 ==> final(w)@.window.len() == 0),
        ({
            let all = wal::frames_view(frames@);
            let out = staged_log(s@, old(w)@, all, all.len());
            match r {
                Ok((mem, mem_bytes)) => {
                    &&& out == Ok::<StagedView, StageError>(
                        StagedView {
                            writer: final(w)@,
                            mem: part::rows_view(mem@),
                            mem_bytes,
                        },
                    )
                    &&& part::ids_ascending(part::rows_view(mem@))
                    &&& part::ids_agree(part::rows_view(mem@))
                },
                Err(e) => out == Err::<StagedView, StageError>(e),
            }
        }),
{
    let ghost all = wal::frames_view(frames@);
    let ghost sv = s@;
    let ghost w0 = w@;
    let committed = s.manifest.commit != 0;
    let mut mem: Vec<Row> = Vec::new();
    let mut mem_bytes: usize = 0;
    let mut i: usize = 0;
    assert(part::rows_view(mem@) =~= Seq::<RowView>::empty());
    while i < frames.len()
        invariant
            all == wal::frames_view(frames@),
            sv == s@,
            w0 == old(w)@,
            committed == (sv.manifest.commit != 0),
            walk(sv, all, all.len()) is Ok,
            i <= frames@.len(),
            writer::writer_ok(w@),
            w@.fold.punched == w0.fold.punched,
            mem@.len() == 0 ==> w@.window.len() == 0,
            part::ids_ascending(part::rows_view(mem@)),
            part::ids_agree(part::rows_view(mem@)),
            staged_log(sv, w0, all, i as nat) == Ok::<StagedView, StageError>(
                StagedView { writer: w@, mem: part::rows_view(mem@), mem_bytes },
            ),
        decreases frames.len() - i,
    {
        let f = &frames[i];
        assert(all[i as int] == f@);
        if !(committed && f.seq == s.manifest.next_seq) {
            proof {
                lemma_walk_each(sv, all, all.len(), i as int);
                let at = walk(sv, all, i as nat)->Ok_0;
                let news = f@.novel;
                assert forall|k: int| 0 <= k < news.len() implies novel_sound(
                    (#[trigger] news[k]).0,
                    news[k].1,
                ) by {
                    lemma_introduced_sound(at.pending, news, news.len(), k);
                }
            }
            if let Err(e) = refold_novel(&s.parts, w, &f.novel) {
                proof {
                    lemma_staged_log_prefix(sv, w0, all, (i + 1) as nat, all.len());
                }
                return Err(e);
            }
            let weight: usize = engine::approx_bytes(&f.record);
            mem_bytes = audit::add_fit(mem_bytes, weight, Ghost(mem_bytes as nat));
            let row = Row {
                id: f.record.id.clone(),
                record: if f.tomb {
                    None
                } else {
                    Some(f.record.clone())
                },
            };
            proof {
                assert(row@ == frame_row(f@));
                memtable::lemma_rows_put(part::rows_view(mem@), row@);
                memtable::lemma_put_agrees(part::rows_view(mem@), row@);
            }
            memtable::put_row(&mut mem, row);
            assert(part::rows_view(mem@).len() == mem@.len());
        }
        i = i + 1;
    }
    Ok((mem, mem_bytes))
}

// ---------------------------------------------------------------------------------------------
// Opening.
// ---------------------------------------------------------------------------------------------
/// Why a store does not open for writing.
#[derive(Debug)]
pub enum OpenStoreError {
    /// Another store would take the name for its own protocol state.
    Reserved,
    /// The write policy admits nothing.
    Limits(WriteAdmissionError),
    /// The current authority does not open.
    Authority(OpenError),
    /// The log does not read.
    Wal(WalError),
    /// The log does not belong to this store.
    Replay(ReplayError),
    /// The retained chain does not hold.
    Chain(ChainError),
    /// Deep verification found a fault.
    Artifact(ArtifactError),
    /// A block that was given up is not a block of the fold.
    PunchedOutside,
    /// The fold has more blocks than ids.
    TooManyBlocks,
    /// The log's pieces could not be folded again.
    Stage(StageError),
}

/// View of an [`OpenStoreError`].
pub enum OpenStoreFault {
    Reserved,
    Limits(RefusalView),
    Authority(OpenError),
    Wal(WalError),
    Replay(ReplayError),
    Chain(ChainError),
    Artifact(ArtifactError),
    PunchedOutside,
    TooManyBlocks,
    Stage(StageError),
}

impl View for OpenStoreError {
    type V = OpenStoreFault;

    open spec fn view(&self) -> OpenStoreFault {
        match self {
            OpenStoreError::Reserved => OpenStoreFault::Reserved,
            OpenStoreError::Limits(e) => OpenStoreFault::Limits(e@),
            OpenStoreError::Authority(e) => OpenStoreFault::Authority(*e),
            OpenStoreError::Wal(e) => OpenStoreFault::Wal(*e),
            OpenStoreError::Replay(e) => OpenStoreFault::Replay(*e),
            OpenStoreError::Chain(e) => OpenStoreFault::Chain(*e),
            OpenStoreError::Artifact(e) => OpenStoreFault::Artifact(*e),
            OpenStoreError::PunchedOutside => OpenStoreFault::PunchedOutside,
            OpenStoreError::TooManyBlocks => OpenStoreFault::TooManyBlocks,
            OpenStoreError::Stage(e) => OpenStoreFault::Stage(*e),
        }
    }
}

/// Whether every given-up block is a block of the fold.
pub open spec fn punched_inside(f: FoldView) -> bool {
    forall|i: int| 0 <= i < f.punched.len() ==> (#[trigger] f.punched[i]).1 < f.blocks.len()
}

/// The writer a committed fold opens as.
pub open spec fn opened_writer(f: FoldView, target: u32) -> WriterView {
    WriterView { fold: f, sealed: f.blocks.len(), window: Seq::empty(), target }
}

/// What is wrong with the committed state before the log is staged, in the order it is judged.
#[verifier::opaque]
pub open spec fn preflight_fault(
    c: ContainerView,
    log: Seq<u8>,
    o: StoreOptions,
) -> Option<OpenStoreFault> {
    let deep = o.open_verification == OpenVerification::Deep;
    let commits = chain::retained_commits(c.members);
    if admission::limits_fault(o.write_limits) is Some {
        Some(
            OpenStoreFault::Limits(
                RefusalView::InvalidLimits(admission::limits_fault(o.write_limits)->0),
            ),
        )
    } else {
        match open::current_view(c, o.read_limits) {
            Err(e) => Some(OpenStoreFault::Authority(e)),
            Ok(s) => match wal::replay_from(log, wal::replay_start(), o.read_limits) {
                Err(e) => Some(OpenStoreFault::Wal(e)),
                Ok(st) => match walk(s, st.applied, st.applied.len()) {
                    Err(e) => Some(OpenStoreFault::Replay(e)),
                    Ok(_) => if chain::chain_fault(c, deep) is Some {
                        Some(OpenStoreFault::Chain(chain::chain_fault(c, deep)->0))
                    } else if deep && artifact::committed(
                        s.parts,
                        s.fold,
                        chain::chain_report(c, deep),
                    ) is Err {
                        Some(
                            OpenStoreFault::Artifact(
                                artifact::committed(
                                    s.parts,
                                    s.fold,
                                    chain::chain_report(c, deep),
                                )->Err_0,
                            ),
                        )
                    } else if deep && artifact::retained_all(
                        c.members,
                        s.manifest,
                        o.read_limits,
                        commits,
                        commits.len(),
                    ) is Some {
                        Some(
                            OpenStoreFault::Artifact(
                                artifact::retained_all(
                                    c.members,
                                    s.manifest,
                                    o.read_limits,
                                    commits,
                                    commits.len(),
                                )->0,
                            ),
                        )
                    } else if s.fold.blocks.len() > u32::MAX {
                        Some(OpenStoreFault::TooManyBlocks)
                    } else if !punched_inside(s.fold) {
                        Some(OpenStoreFault::PunchedOutside)
                    } else {
                        None
                    },
                },
            },
        }
    }
}

/// What opening does: a fault, or the committed state with the log's pending mutations staged.
pub open spec fn open_outcome(
    c: ContainerView,
    log: Seq<u8>,
    o: StoreOptions,
    r: Result<(StoreView, bool), OpenStoreFault>,
) -> bool {
    match preflight_fault(c, log, o) {
        Some(e) => r == Err::<(StoreView, bool), OpenStoreFault>(e),
        None => {
            let s = open::current_view(c, o.read_limits)->Ok_0;
            let st = wal::replay_from(log, wal::replay_start(), o.read_limits)->Ok_0;
            let w = opened_writer(s.fold, o.block_target_bytes);
            match staged_log(s, w, st.applied, st.applied.len()) {
                Err(e) => r == Err::<(StoreView, bool), OpenStoreFault>(OpenStoreFault::Stage(e)),
                Ok(at) => match r {
                    Err(_) => false,
                    Ok((t, cut)) => {
                        &&& cut == (wal::valid_bytes(st) < log.len())
                        &&& t.writer == at.writer
                        &&& t.parts == s.parts
                        &&& t.manifest == s.manifest
                        &&& t.mem == at.mem
                        &&& t.mem_bytes == at.mem_bytes
                        &&& t.wal.wf()
                        &&& t.wal.written() == wal::valid_bytes(st)
                        &&& t.wal.buffered() == Seq::<u8>::empty()
                        &&& t.wal.frames() == wal::valid_frames(st)
                        &&& t.wal.limits() == o.read_limits
                        &&& t.write_limits == o.write_limits
                        &&& t.read_limits == o.read_limits
                        &&& t.retained_commit_count == chain::retained_commits(c.members).len()
                        &&& !t.requires_reopen
                        &&& !t.unsynced
                    },
                },
            }
        },
    }
}

/// What opening a store of a name does: a reserved name is refused from the name alone.
pub open spec fn named_outcome(
    name: Seq<u8>,
    c: ContainerView,
    log: Seq<u8>,
    o: StoreOptions,
    r: Result<(StoreView, bool), OpenStoreFault>,
) -> bool {
    if debris::reserved(name) {
        r == Err::<(StoreView, bool), OpenStoreFault>(OpenStoreFault::Reserved)
    } else {
        open_outcome(c, log, o, r)
    }
}

fn check_punched(f: &Fold) -> (r: bool)
    ensures
        r == punched_inside(f@),
{
    let mut i: usize = 0;
    while i < f.punched.len()
        invariant
            i <= f.punched@.len(),
            forall|k: int| 0 <= k < i ==> (#[trigger] f.punched@[k]).1 < f.blocks@.len(),
        decreases f.punched.len() - i,
    {
        if f.punched[i].1 as u64 >= f.blocks.len() as u64 {
            assert(f@.punched[i as int].1 >= f@.blocks.len());
            return false;
        }
        i = i + 1;
    }
    true
}

/// Judge the committed state and the log.
fn preflight(c: &Container, log: &[u8], options: &StoreOptions) -> (r: Result<
    (ReadStore, wal::ReplayState),
    OpenStoreError,
>)
    ensures
        match r {
            Ok((s, replay)) => {
                &&& preflight_fault(c@, log@, *options) is None
                &&& open::current_view(c@, options.read_limits) == Ok::<ReadStoreView, OpenError>(
                    s@,
                )
                &&& part::parts_sound(s@.parts)
                &&& wal::replay_from(log@, wal::replay_start(), options.read_limits) matches Ok(st)
                &&& wal::frames_view(replay.frames@) == st.applied
                &&& replay.valid_bytes == wal::valid_bytes(st)
                &&& replay.physical_frames == wal::valid_frames(st)
                &&& wal::valid_bytes(st) <= log@.len()
                &&& wal::valid_frames(st) <= options.read_limits.max_wal_frames
                &&& walk(s@, st.applied, st.applied.len()) is Ok
                &&& s@.parts.len() == s@.manifest.parts.len()
                &&& s@.fold.punched == s@.manifest.punched
                &&& s@.fold.blocks.len() <= u32::MAX
                &&& punched_inside(s@.fold)
            },
            Err(e) => preflight_fault(c@, log@, *options) == Some(e@),
        },
{
    reveal(preflight_fault);
    if let Err(e) = options.write_limits.validate() {
        return Err(OpenStoreError::Limits(e));
    }
    let read_limits = options.read_limits;
    let current = match open::open_read_container_source(c, read_limits) {
        Ok(s) => s,
        Err(e) => {
            return Err(OpenStoreError::Authority(e));
        },
    };
    let replay = match Wal::replay_state_with_limits(log, &read_limits) {
        Ok(r) => r,
        Err(e) => {
            return Err(OpenStoreError::Wal(e));
        },
    };
    if let Err(e) = verify_replay_identities(&replay.frames, &current) {
        return Err(OpenStoreError::Replay(e));
    }
    let deep = match options.open_verification {
        OpenVerification::Deep => true,
        OpenVerification::Structure => false,
    };
    let report = match chain::verify_chain_container_scoped(c, deep) {
        Ok(report) => report,
        Err(e) => {
            return Err(OpenStoreError::Chain(e));
        },
    };
    if deep {
        if let Err(e) = artifact::verify_committed_store(
            &current.parts,
            &current.fold,
            report,
        ) {
            return Err(OpenStoreError::Artifact(e));
        }
        if let Err(e) = artifact::verify_retained_piece_dictionaries(
            c,
            &current.manifest,
            read_limits,
        ) {
            return Err(OpenStoreError::Artifact(e));
        }
    }
    if current.fold.blocks.len() as u64 > u32::MAX as u64 {
        return Err(OpenStoreError::TooManyBlocks);
    }
    if !check_punched(&current.fold) {
        return Err(OpenStoreError::PunchedOutside);
    }
    proof {
        log_laws::lemma_replay_bounds(log@, wal::replay_start(), read_limits);
        lemma_opened_len(c@, read_limits);
    }
    Ok((current, replay))
}

fn writer_over(f: &Fold, target: u32) -> (w: FoldWriter)
    requires
        f@.blocks.len() <= u32::MAX,
        punched_inside(f@),
    ensures
        w@ == opened_writer(f@, target),
        writer::writer_ok(w@),
{
    let w = FoldWriter {
        fold: Fold {
            blocks: fold::clone_blocks(&f.blocks),
            segments: fold::clone_segments(&f.segments),
            punched: manifest::clone_ranges(&f.punched),
        },
        sealed: f.blocks.len(),
        window: Vec::new(),
        target,
    };
    proof {
        assert(part::dictionary_view(w.window@) =~= Seq::<(Seq<u8>, Loc)>::empty());
        assert forall|id: u32| #[trigger] fold::in_ranges(w@.fold.punched, id) implies id
            < w@.sealed by {
            let i = choose|i: int|
                0 <= i < w@.fold.punched.len() && (#[trigger] w@.fold.punched[i]).0 <= id
                    <= w@.fold.punched[i].1;
            assert(f@.punched[i].1 < f@.blocks.len());
        }
    }
    w
}

/// The parts an opened view has are those its manifest names.
proof fn lemma_opened_len(c: ContainerView, limits: ReadLimits)
    requires
        open::current_view(c, limits) is Ok,
    ensures
        ({
            let s = open::current_view(c, limits)->Ok_0;
            s.parts.len() == s.manifest.parts.len() && s.fold.punched == s.manifest.punched
        }),
{
    let m = open::current_view(c, limits)->Ok_0.manifest;
    lemma_opened_parts_len(c.members, m, m.parts.len());
}

proof fn lemma_opened_parts_len(
    ms: Seq<crate::container::MemberView>,
    m: ManifestView,
    n: nat,
)
    requires
        open::opened_parts(ms, m, n) is Ok,
    ensures
        open::opened_parts(ms, m, n)->Ok_0.len() == n,
    decreases n,
{
    if n > 0 {
        lemma_opened_parts_len(ms, m, (n - 1) as nat);
    }
}

impl Store {
    /// Open a store for writing: judge the committed state and the log, and stage what the log
    /// holds beyond the published sequence. The flag says whether the log file must first be cut
    /// back to its valid length.
    #[verifier::rlimit(40)]
    pub fn open_file_with_options(
        name: &[u8],
        c: &Container,
        log: &[u8],
        options: &StoreOptions,
    ) -> (r: Result<(Store, bool), OpenStoreError>)
        ensures
            named_outcome(
                name@,
                c@,
                log@,
                *options,
                match r {
                    Ok((s, cut)) => Ok((s@, cut)),
                    Err(e) => Err(e@),
                },
            ),
            r matches Ok((s, _)) ==> engine::store_ok(s@),
    {
        if debris::validate_store_path(name).is_err() {
            return Err(OpenStoreError::Reserved);
        }
        let (current, replay) = match preflight(c, log, options) {
            Ok(found) => found,
            Err(e) => {
                return Err(e);
            },
        };
        let read_limits = options.read_limits;
        let retained = chain::container_retained_commits(c);
        let mut w = writer_over(&current.fold, options.block_target_bytes);
        let (mem, mem_bytes) = match stage_log(&current, &mut w, &replay.frames) {
            Ok(staged) => staged,
            Err(e) => {
                return Err(OpenStoreError::Stage(e));
            },
        };
        let (log_writer, cut) = match Wal::open_recovered(
            read_limits,
            replay.physical_frames,
            replay.valid_bytes,
            log.len() as u64,
        ) {
            Ok(opened) => opened,
            Err(e) => {
                return Err(OpenStoreError::Wal(e));
            },
        };
        let store = Store {
            writer: w,
            parts: current.parts,
            manifest: current.manifest,
            mem,
            mem_bytes,
            wal: log_writer,
            write_limits: options.write_limits,
            read_limits,
            retained_commit_count: retained.len(),
            requires_reopen: false,
            unsynced: false,
        };
        Ok((store, cut))
    }

    /// Open with default limits over a fold configuration.
    pub fn open_file(name: &[u8], c: &Container, log: &[u8], block_target_bytes: u32) -> (r: Result<
        (Store, bool),
        OpenStoreError,
    >)
        ensures
            named_outcome(
                name@,
                c@,
                log@,
                StoreOptions {
                    block_target_bytes,
                    write_limits: WriteLimits {
                        max_record_bytes: 67_108_864,
                        max_batch_bytes: 268_435_456,
                        max_batch_records: 4_096,
                        max_identifier_bytes: 4_096,
                    },
                    read_limits: open::default_limits(),
                    open_verification: OpenVerification::Structure,
                },
                match r {
                    Ok((s, cut)) => Ok((s@, cut)),
                    Err(e) => Err(e@),
                },
            ),
            r matches Ok((s, _)) ==> engine::store_ok(s@),
    {
        let options = StoreOptions::new(block_target_bytes);
        Self::open_file_with_options(name, c, log, &options)
    }

    /// Open with an explicit write policy.
    pub fn open_file_with_limits(
        name: &[u8],
        c: &Container,
        log: &[u8],
        block_target_bytes: u32,
        write_limits: WriteLimits,
    ) -> (r: Result<(Store, bool), OpenStoreError>)
        ensures
            named_outcome(
                name@,
                c@,
                log@,
                StoreOptions {
                    block_target_bytes,
                    write_limits,
                    read_limits: open::default_limits(),
                    open_verification: OpenVerification::Structure,
                },
                match r {
                    Ok((s, cut)) => Ok((s@, cut)),
                    Err(e) => Err(e@),
                },
            ),
            r matches Ok((s, _)) ==> engine::store_ok(s@),
    {
        let mut options = StoreOptions::new(block_target_bytes);
        options.write_limits = write_limits;
        Self::open_file_with_options(name, c, log, &options)
    }
}

} // verus!
