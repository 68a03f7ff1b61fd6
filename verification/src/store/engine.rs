//! The writer: accepted mutations over committed parts.
//!
//! A mutation is judged, folded, logged and staged, in that order. Nothing changes before it is
//! judged. A failure after folding began leaves pieces no log frame owns, so it closes the writer
//! for every further mutation until the store is opened again.

use crate::memtable;
use crate::part;
use crate::part::{Part, PartView, Row, RowView};
use crate::read_limits::ReadLimits;
use crate::store::admission;
use crate::store::admission::{
    ContentSpans, Span, SpanView, SpansView, WriteError, WriteFault, WriteLimits,
};
use crate::store::audit;
use crate::store::carve;
use crate::store::manifest;
use crate::store::manifest::{Manifest, ManifestView};
use crate::store::wal;
use crate::store::wal::{Wal, WalError};
use crate::store::wire;
use crate::store::wire::WireError;
use crate::store::writer;
use crate::store::writer::{FoldWriter, Novel, StageError, WriterView};
use crate::types;
use crate::types::{
    AttrValue, AttrView, Content, ContentOp, ContentView, OpView, PieceHash, Record, RecordView,
    BODY_CONTENT,
};
use vstd::prelude::*;
use vstd::utf8::*;

verus! {

/// A store opened for writing.
pub struct Store {
    pub writer: FoldWriter,
    /// Committed parts, oldest first.
    pub parts: Vec<Part>,
    pub manifest: Manifest,
    /// Uncommitted rows, last write wins.
    pub mem: Vec<Row>,
    pub mem_bytes: usize,
    pub wal: Wal,
    pub write_limits: WriteLimits,
    pub read_limits: ReadLimits,
    pub retained_commit_count: usize,
    /// Only a reopen restores a coherent acceptance boundary.
    pub requires_reopen: bool,
    /// The container's state was selected, and it is not known to survive a crash.
    pub unsynced: bool,
}

/// View of a [`Store`].
pub struct StoreView {
    pub writer: WriterView,
    pub parts: Seq<PartView>,
    pub manifest: ManifestView,
    pub mem: Seq<RowView>,
    pub mem_bytes: usize,
    pub wal: Wal,
    pub write_limits: WriteLimits,
    pub read_limits: ReadLimits,
    pub retained_commit_count: usize,
    pub requires_reopen: bool,
    pub unsynced: bool,
}

impl View for Store {
    type V = StoreView;

    open spec fn view(&self) -> StoreView {
        StoreView {
            writer: self.writer@,
            parts: part::parts_view(self.parts@),
            manifest: self.manifest@,
            mem: part::rows_view(self.mem@),
            mem_bytes: self.mem_bytes,
            wal: self.wal,
            write_limits: self.write_limits,
            read_limits: self.read_limits,
            retained_commit_count: self.retained_commit_count,
            requires_reopen: self.requires_reopen,
            unsynced: self.unsynced,
        }
    }
}

/// Every store keeps this, also while a mutation is on its way.
pub open spec fn store_base(s: StoreView) -> bool {
    &&& writer::writer_ok(s.writer)
    &&& part::parts_sound(s.parts)
    &&& s.parts.len() == s.manifest.parts.len()
    &&& s.writer.fold.punched == s.manifest.punched
    &&& manifest::ranges_ok(s.manifest.punched)
    &&& part::ids_ascending(s.mem)
    &&& part::ids_agree(s.mem)
    &&& s.wal.wf()
}

/// Every store keeps this. Without staged rows the window is empty.
pub open spec fn store_ok(s: StoreView) -> bool {
    &&& store_base(s)
    &&& s.mem.len() == 0 && !s.requires_reopen ==> s.writer.window.len() == 0
}

/// Why a store refuses a mutation.
#[derive(Debug)]
pub enum StoreError {
    /// An earlier failure left unowned content behind.
    RequiresReopen,
    /// The mutation is not admitted.
    Write(WriteError),
    /// No sequence is left.
    SequenceExhausted,
    /// The log refuses the mutation.
    Wal(WalError),
    /// Content could not be folded.
    Stage(StageError),
}

/// View of a [`StoreError`].
pub enum StoreFault {
    RequiresReopen,
    Write(WriteFault),
    SequenceExhausted,
    Wal(WalError),
    Stage(StageError),
}

impl View for StoreError {
    type V = StoreFault;

    open spec fn view(&self) -> StoreFault {
        match self {
            StoreError::RequiresReopen => StoreFault::RequiresReopen,
            StoreError::Write(e) => StoreFault::Write(e@),
            StoreError::SequenceExhausted => StoreFault::SequenceExhausted,
            StoreError::Wal(e) => StoreFault::Wal(*e),
            StoreError::Stage(e) => StoreFault::Stage(*e),
        }
    }
}

/// Views of an outcome.
pub open spec fn outcome_view(r: Result<(), StoreError>) -> Result<(), StoreFault> {
    match r {
        Ok(()) => Ok(()),
        Err(e) => Err(e@),
    }
}

// ---------------------------------------------------------------------------------------------
// How much a staged row weighs.
// ---------------------------------------------------------------------------------------------
/// The weight of a program.
pub open spec fn ops_weight(ops: Seq<OpView>) -> nat
    decreases ops.len(),
{
    if ops.len() == 0 {
        0
    } else {
        ops_weight(ops.drop_last()) + match ops.last() {
            OpView::Lit(b) => b.len() + 8,
            OpView::Piece { .. } => 40nat,
        }
    }
}

/// The weight of content values.
pub open spec fn contents_weight(contents: Seq<ContentView>) -> nat
    decreases contents.len(),
{
    if contents.len() == 0 {
        0
    } else {
        contents_weight(contents.drop_last()) + encode_utf8(contents.last().name).len()
            + ops_weight(contents.last().ops)
    }
}

/// The weight of attributes.
pub open spec fn attrs_weight(attrs: Seq<(Seq<char>, AttrView)>) -> nat
    decreases attrs.len(),
{
    if attrs.len() == 0 {
        0
    } else {
        attrs_weight(attrs.drop_last()) + encode_utf8(attrs.last().0).len() + 24
    }
}

/// The weight of a record.
pub open spec fn record_weight(r: RecordView) -> nat {
    encode_utf8(r.id).len() + contents_weight(r.contents) + attrs_weight(r.attrs)
}

/// The weight of a staged deletion.
pub open spec fn deletion_weight(id: Seq<char>) -> nat {
    encode_utf8(id).len() + 32
}

fn add_ops(total: usize, ops: &Vec<ContentOp>, Ghost(n): Ghost<nat>) -> (r: usize)
    requires
        total == audit::fit(n),
    ensures
        r == audit::fit(n + ops_weight(types::ops_view(ops@))),
{
    let ghost all = types::ops_view(ops@);
    let mut sum: usize = total;
    let mut i: usize = 0;
    assert(all.take(0) =~= Seq::<OpView>::empty());
    while i < ops.len()
        invariant
            all == types::ops_view(ops@),
            i <= ops@.len(),
            sum == audit::fit(n + ops_weight(all.take(i as int))),
        decreases ops.len() - i,
    {
        let ghost next = all.take(i + 1);
        let ghost so_far = n + ops_weight(all.take(i as int));
        assert(next.drop_last() =~= all.take(i as int));
        assert(next.last() == ops@[i as int]@);
        match &ops[i] {
            ContentOp::Lit(b) => {
                sum = audit::add_fit(sum, b.len(), Ghost(so_far));
                sum = audit::add_fit(sum, 8, Ghost(so_far + b@.len()));
            },
            ContentOp::Piece { .. } => {
                sum = audit::add_fit(sum, 40, Ghost(so_far));
            },
        }
        i = i + 1;
    }
    assert(all.take(i as int) =~= all);
    sum
}

/// The weight of a record, up to the largest count.
pub fn approx_bytes(r: &Record) -> (n: usize)
    ensures
        n == audit::fit(record_weight(r@)),
{
    let ghost cs = types::contents_view(r.contents@);
    let ghost ats = types::attrs_view(r.attrs@);
    let ghost id_len = encode_utf8(r.id@).len();
    let mut sum: usize = audit::add_fit(0, r.id.as_str().as_bytes().len(), Ghost(0nat));
    let mut i: usize = 0;
    assert(cs.take(0) =~= Seq::<ContentView>::empty());
    while i < r.contents.len()
        invariant
            cs == types::contents_view(r.contents@),
            i <= r.contents@.len(),
            sum == audit::fit(id_len + contents_weight(cs.take(i as int))),
        decreases r.contents.len() - i,
    {
        let ghost so_far = id_len + contents_weight(cs.take(i as int));
        let ghost next = cs.take(i + 1);
        assert(next.drop_last() =~= cs.take(i as int));
        assert(next.last() == r.contents@[i as int]@);
        let c = &r.contents[i];
        sum = audit::add_fit(sum, c.name.as_str().as_bytes().len(), Ghost(so_far));
        sum = add_ops(sum, &c.ops, Ghost(so_far + encode_utf8(c.name@).len()));
        i = i + 1;
    }
    assert(cs.take(i as int) =~= cs);
    let ghost base = id_len + contents_weight(cs);
    let mut k: usize = 0;
    assert(ats.take(0) =~= Seq::<(Seq<char>, AttrView)>::empty());
    while k < r.attrs.len()
        invariant
            ats == types::attrs_view(r.attrs@),
            k <= r.attrs@.len(),
            sum == audit::fit(base + attrs_weight(ats.take(k as int))),
        decreases r.attrs.len() - k,
    {
        let ghost so_far = base + attrs_weight(ats.take(k as int));
        let ghost next = ats.take(k + 1);
        assert(next.drop_last() =~= ats.take(k as int));
        assert(next.last() == ats[k as int]);
        let name = &r.attrs[k].0;
        sum = audit::add_fit(sum, name.as_str().as_bytes().len(), Ghost(so_far));
        sum = audit::add_fit(sum, 24, Ghost(so_far + encode_utf8(name@).len()));
        k = k + 1;
    }
    assert(ats.take(k as int) =~= ats);
    sum
}

/// A weight added to another, up to the largest count.
pub open spec fn heavier(mem_bytes: usize, weight: nat) -> usize {
    audit::fit(mem_bytes as nat + audit::fit(weight) as nat)
}

// ---------------------------------------------------------------------------------------------
// Accepting one mutation.
// ---------------------------------------------------------------------------------------------
/// Why a mutation of so many log frames is refused before anything changes.
pub open spec fn entry_refusal(s: StoreView, admission: Option<WriteFault>, frames: nat) -> Option<
    StoreFault,
> {
    if s.requires_reopen {
        Some(StoreFault::RequiresReopen)
    } else {
        match admission {
            Some(e) => Some(StoreFault::Write(e)),
            None => if s.manifest.next_seq == u64::MAX {
                Some(StoreFault::SequenceExhausted)
            } else {
                match wal::frames_refusal(s.wal.frames(), frames, s.wal.limits()) {
                    Some(e) => Some(StoreFault::Wal(e)),
                    None => None,
                }
            },
        }
    }
}

/// The sequence of pending mutations.
pub open spec fn pending_seq(s: StoreView) -> u64 {
    (s.manifest.next_seq + 1) as u64
}

/// The record that carved inputs become.
pub open spec fn carved_record(
    id: Seq<char>,
    contents: Seq<SpansView>,
    attrs: Seq<(Seq<char>, AttrView)>,
    r: RecordView,
) -> bool {
    &&& r.id == id
    &&& types::canonical_of(carve::carved_all(contents), r.contents)
    &&& r.attrs == attrs
}

/// What logging a record does to the log.
pub open spec fn log_outcome(
    before: Wal,
    after: Wal,
    seq: u64,
    r: RecordView,
    novel: Novel,
    res: Result<(), WalError>,
) -> bool {
    &&& after.wf()
    &&& after.limits() == before.limits()
    &&& after.written() == before.written()
    &&& match res {
        Ok(()) => {
            &&& wire::wal_fault(r, novel) is None
            &&& wire::all_identified(r.contents)
            &&& after.frames() == before.frames() + 1
            &&& exists|payload: Seq<u8>| #[trigger]
                wire::encodes(payload, r, novel) && wal::member_fits(payload, r, novel, false)
                    && after.buffered() == before.buffered() + wal::frame_wire(
                    wal::RECORD_TAG,
                    seq,
                    payload,
                )
        },
        Err(e) => {
            &&& after.buffered() == before.buffered()
            &&& after.frames() == before.frames()
            &&& match wire::wal_fault(r, novel) {
                Some(f) => e == WalError::Wire(f),
                None => if !wire::all_identified(r.contents) {
                    e == WalError::Wire(WireError::MissingIdentity)
                } else {
                    exists|payload: Seq<u8>| #[trigger]
                        wire::encodes(payload, r, novel) && wal::append_refusal(
                            before,
                            payload.len(),
                            e,
                        )
                },
            }
        },
    }
}

/// What putting a record does: refused untouched, closed by a fold or log failure, or staged.
pub open spec fn put_outcome(
    s: StoreView,
    t: StoreView,
    id: Seq<char>,
    contents: Seq<SpansView>,
    attrs: Seq<(Seq<char>, AttrView)>,
    r: Result<(), StoreFault>,
) -> bool {
    let fault = admission::record_fault(
        id,
        contents,
        attrs,
        s.write_limits,
        s.read_limits,
        None,
        true,
    );
    match entry_refusal(s, fault, 1) {
        Some(e) => r == Err::<(), StoreFault>(e) && t == s,
        None => match writer::folded_contents(s.parts, s.writer, contents, contents.len()) {
            Err(e) => {
                &&& r == Err::<(), StoreFault>(StoreFault::Stage(e))
                &&& t == StoreView { writer: t.writer, requires_reopen: true, ..s }
            },
            Ok((after, novel)) => exists|rec: RecordView|
                {
                    &&& #[trigger] carved_record(id, contents, attrs, rec)
                    &&& match r {
                        Ok(()) => {
                            &&& log_outcome(s.wal, t.wal, pending_seq(s), rec, novel, Ok(()))
                            &&& t == StoreView {
                                writer: after,
                                wal: t.wal,
                                mem: memtable::rows_put(
                                    s.mem,
                                    RowView { id, record: Some(rec) },
                                ),
                                mem_bytes: heavier(s.mem_bytes, record_weight(rec)),
                                ..s
                            }
                        },
                        Err(StoreFault::Wal(e)) => {
                            &&& log_outcome(s.wal, t.wal, pending_seq(s), rec, novel, Err(e))
                            &&& t == StoreView {
                                writer: after,
                                wal: t.wal,
                                requires_reopen: true,
                                ..s
                            }
                        },
                        _ => false,
                    }
                },
        },
    }
}

/// What a deletion does.
pub open spec fn delete_outcome(s: StoreView, t: StoreView, id: Seq<char>, r: Result<(), StoreFault>) -> bool {
    match entry_refusal(s, admission::delete_fault(id, s.write_limits, s.read_limits, None), 1) {
        Some(e) => r == Err::<(), StoreFault>(e) && t == s,
        None => {
            &&& t.wal.wf()
            &&& t.wal.limits() == s.wal.limits()
            &&& t.wal.written() == s.wal.written()
            &&& match r {
                Ok(()) => {
                    &&& encode_utf8(id).len() <= u32::MAX
                    &&& t.wal.buffered() == s.wal.buffered() + wal::frame_wire(
                        wal::TOMB_TAG,
                        pending_seq(s),
                        encode_utf8(id),
                    )
                    &&& t.wal.frames() == s.wal.frames() + 1
                    &&& t == StoreView {
                        wal: t.wal,
                        mem: memtable::rows_put(s.mem, RowView { id, record: None }),
                        mem_bytes: heavier(s.mem_bytes, deletion_weight(id)),
                        ..s
                    }
                },
                Err(StoreFault::Wal(e)) => {
                    &&& wal::append_refusal(s.wal, encode_utf8(id).len(), e)
                    &&& t.wal.buffered() == s.wal.buffered()
                    &&& t.wal.frames() == s.wal.frames()
                    &&& t == StoreView { wal: t.wal, ..s }
                },
                _ => false,
            }
        },
    }
}

/// Admitted contents have names that are non-empty and pairwise different, and no piece is too
/// long.
pub proof fn lemma_admitted(
    contents: Seq<SpansView>,
    limits: WriteLimits,
    read_limits: ReadLimits,
    item: Option<usize>,
    lengths_first: bool,
)
    requires
        admission::inputs_fault(contents, limits, read_limits, item, lengths_first) is None,
    ensures
        types::contents_fault(carve::carved_all(contents)) is None,
        forall|i: int|
            0 <= i < contents.len() ==> !admission::any_too_long((#[trigger] contents[i]).spans),
    decreases contents.len(),
{
    let all = carve::carved_all(contents);
    if contents.len() > 0 {
        let front = contents.drop_last();
        lemma_admitted(front, limits, read_limits, item, lengths_first);
        let c = contents.last();
        lemma_spans_short(c.spans, read_limits);
        assert(all.drop_last() =~= carve::carved_all(front));
        if types::name_repeats(all, all.len() - 1) {
            let j = choose|j: int|
                0 <= j < all.len() - 1 && #[trigger] all[j].name == all[all.len() - 1].name;
            assert(contents[j].name == contents[contents.len() - 1].name);
        }
        assert forall|i: int| 0 <= i < contents.len() implies !admission::any_too_long(
            (#[trigger] contents[i]).spans,
        ) by {
            if i < contents.len() - 1 {
                assert(front[i] == contents[i]);
            }
        }
    }
}

proof fn lemma_spans_short(spans: Seq<SpanView>, read_limits: ReadLimits)
    requires
        admission::spans_fault(spans, read_limits) is None,
    ensures
        !admission::any_too_long(spans),
    decreases spans.len(),
{
    if spans.len() > 0 {
        lemma_spans_short(spans.drop_last(), read_limits);
        assert forall|i: int| 0 <= i < spans.len() implies !admission::span_too_long(
            #[trigger] spans[i],
        ) by {
            if i < spans.len() - 1 {
                assert(spans.drop_last()[i] == spans[i]);
                assert(!admission::span_too_long(spans.drop_last()[i]));
            } else {
                assert(admission::span_fault(spans.last(), read_limits) is None);
            }
        }
    }
}

pub(crate) fn carve_all<'a>(contents: &[ContentSpans<'a>]) -> (r: Vec<Content>)
    requires
        forall|i: int|
            0 <= i < contents@.len() ==> !admission::any_too_long(
                (#[trigger] admission::inputs_view(contents@)[i]).spans,
            ),
    ensures
        types::contents_view(r@) == carve::carved_all(admission::inputs_view(contents@)),
{
    let ghost all = admission::inputs_view(contents@);
    let mut out: Vec<Content> = Vec::new();
    let mut i: usize = 0;
    while i < contents.len()
        invariant
            all == admission::inputs_view(contents@),
            forall|k: int|
                0 <= k < contents@.len() ==> !admission::any_too_long((#[trigger] all[k]).spans),
            i <= contents@.len(),
            out@.len() == i,
            forall|k: int| 0 <= k < i ==> (#[trigger] out@[k])@ == carve::carved(all[k]),
        decreases contents.len() - i,
    {
        assert(all[i as int] == contents@[i as int]@);
        out.push(carve::carve_content(&contents[i]));
        i = i + 1;
    }
    assert(types::contents_view(out@) =~= carve::carved_all(all));
    out
}

impl Store {
    /// The policy for further writes.
    pub fn write_limits(&self) -> (r: WriteLimits)
        ensures
            r == self@.write_limits,
    {
        self.write_limits
    }

    /// The ceilings on stored frames.
    pub fn read_limits(&self) -> (r: ReadLimits)
        ensures
            r == self@.read_limits,
    {
        self.read_limits
    }

    /// The sequence of pending mutations, and room for their frames in the log.
    pub(crate) fn pending_sequence(&self, frames: u64) -> (r: Result<u64, StoreError>)
        ensures
            match r {
                Ok(seq) => {
                    &&& self@.manifest.next_seq < u64::MAX
                    &&& seq == pending_seq(self@)
                    &&& wal::frames_refusal(
                        self@.wal.frames(),
                        frames as nat,
                        self@.wal.limits(),
                    ) is None
                },
                Err(e) => if self@.manifest.next_seq == u64::MAX {
                    e@ == StoreFault::SequenceExhausted
                } else {
                    e@ is Wal && wal::frames_refusal(
                        self@.wal.frames(),
                        frames as nat,
                        self@.wal.limits(),
                    ) == Some(e@->Wal_0)
                },
            },
    {
        if self.manifest.next_seq == u64::MAX {
            return Err(StoreError::SequenceExhausted);
        }
        match self.wal.admit_additional_frames(frames) {
            Ok(()) => Ok(self.manifest.next_seq + 1),
            Err(e) => Err(StoreError::Wal(e)),
        }
    }

    /// Log a record and stage it.
    fn stage_record(&mut self, sequence: u64, rec: Record, novel: Vec<(PieceHash, Vec<u8>)>) -> (r:
        Result<(), StoreError>)
        requires
            store_base(old(self)@),
        ensures
            store_ok(final(self)@),
            ({
                let s = old(self)@;
                let t = final(self)@;
                let news = wire::novel_view(novel@);
                match r {
                    Ok(()) => {
                        &&& log_outcome(s.wal, t.wal, sequence, rec@, news, Ok(()))
                        &&& t == StoreView {
                            wal: t.wal,
                            mem: memtable::rows_put(
                                s.mem,
                                RowView { id: rec@.id, record: Some(rec@) },
                            ),
                            mem_bytes: heavier(s.mem_bytes, record_weight(rec@)),
                            ..s
                        }
                    },
                    Err(e) => {
                        &&& e@ is Wal
                        &&& log_outcome(s.wal, t.wal, sequence, rec@, news, Err(e@->Wal_0))
                        &&& t == StoreView { wal: t.wal, requires_reopen: true, ..s }
                    },
                }
            }),
    {
        match self.wal.append(sequence, &rec, novel.as_slice()) {
            Err(e) => {
                self.requires_reopen = true;
                Err(StoreError::Wal(e))
            },
            Ok(()) => {
                let weight: usize = approx_bytes(&rec);
                self.mem_bytes = audit::add_fit(
                    self.mem_bytes,
                    weight,
                    Ghost(self.mem_bytes as nat),
                );
                let row = Row { id: rec.id.clone(), record: Some(rec) };
                proof {
                    memtable::lemma_rows_put(self@.mem, row@);
                    memtable::lemma_put_agrees(self@.mem, row@);
                }
                memtable::put_row(&mut self.mem, row);
                Ok(())
            },
        }
    }

    /// Fold, log and stage a record with independently named content values.
    pub fn put_record<'a>(
        &mut self,
        id: &str,
        contents: &[ContentSpans<'a>],
        attrs: Vec<(String, AttrValue)>,
    ) -> (r: Result<(), StoreError>)
        requires
            store_ok(old(self)@),
        ensures
            store_ok(final(self)@),
            put_outcome(
                old(self)@,
                final(self)@,
                id@,
                admission::inputs_view(contents@),
                types::attrs_view(attrs@),
                outcome_view(r),
            ),
    {
        if self.requires_reopen {
            return Err(StoreError::RequiresReopen);
        }
        let ghost s = self@;
        let ghost inputs = admission::inputs_view(contents@);
        let ghost ats = types::attrs_view(attrs@);
        match admission::input_record_admission_bytes(
            id,
            contents,
            attrs.as_slice(),
            &self.write_limits,
            &self.read_limits,
            None,
        ) {
            Ok(_) => {},
            Err(e) => {
                return Err(StoreError::Write(e));
            },
        }
        let sequence: u64 = match self.pending_sequence(1) {
            Ok(q) => q,
            Err(e) => {
                return Err(e);
            },
        };
        proof {
            lemma_admitted(inputs, s.write_limits, s.read_limits, None, true);
        }
        let novel = match self.writer.fold_contents(&self.parts, contents) {
            Ok(n) => n,
            Err(e) => {
                self.requires_reopen = true;
                return Err(StoreError::Stage(e));
            },
        };
        let carved = carve_all(contents);
        let rec = match Record::new(id, carved, attrs) {
            Ok(rec) => rec,
            // Admission refuses every content map that a record does.
            Err(_) => {
                return Err(StoreError::RequiresReopen);
            },
        };
        assert(carved_record(id@, inputs, ats, rec@));
        self.stage_record(sequence, rec, novel)
    }

    /// Fold, log and stage a record with one body.
    pub fn put<'a>(&mut self, id: &str, spans: &[Span<'a>], attrs: Vec<(String, AttrValue)>) -> (r:
        Result<(), StoreError>)
        requires
            store_ok(old(self)@),
        ensures
            store_ok(final(self)@),
            put_outcome(
                old(self)@,
                final(self)@,
                id@,
                seq![
                    SpansView { name: BODY_CONTENT@, spans: admission::spans_view(spans@) },
                ],
                types::attrs_view(attrs@),
                outcome_view(r),
            ),
    {
        let mut copied: Vec<Span<'a>> = Vec::new();
        let mut i: usize = 0;
        while i < spans.len()
            invariant
                i <= spans@.len(),
                copied@ == spans@.take(i as int),
            decreases spans.len() - i,
        {
            copied.push(spans[i]);
            i = i + 1;
            assert(copied@ =~= spans@.take(i as int));
        }
        assert(copied@ =~= spans@);
        let mut input: Vec<ContentSpans<'a>> = Vec::new();
        input.push(ContentSpans::new(BODY_CONTENT, copied));
        proof {
            assert(admission::inputs_view(input@) =~= seq![
                SpansView { name: BODY_CONTENT@, spans: admission::spans_view(spans@) },
            ]);
        }
        self.put_record(id, input.as_slice(), attrs)
    }

    /// Log and stage a deletion.
    ///
    /// Older parts still hold the record, so a deletion is a newer version that says "absent".
    pub fn delete(&mut self, id: &str) -> (r: Result<(), StoreError>)
        requires
            store_ok(old(self)@),
        ensures
            store_ok(final(self)@),
            delete_outcome(old(self)@, final(self)@, id@, outcome_view(r)),
    {
        if self.requires_reopen {
            return Err(StoreError::RequiresReopen);
        }
        match admission::delete_admission_bytes(id, &self.write_limits, &self.read_limits, None) {
            Ok(_) => {},
            Err(e) => {
                return Err(StoreError::Write(e));
            },
        }
        let sequence: u64 = match self.pending_sequence(1) {
            Ok(q) => q,
            Err(e) => {
                return Err(e);
            },
        };
        match self.wal.append_tomb(sequence, id) {
            Err(e) => {
                return Err(StoreError::Wal(e));
            },
            Ok(()) => {},
        }
        let id_len: usize = id.as_bytes().len();
        let weight: usize = audit::add_fit(
            audit::add_fit(0, id_len, Ghost(0nat)),
            32,
            Ghost(id_len as nat),
        );
        self.mem_bytes = audit::add_fit(self.mem_bytes, weight, Ghost(self.mem_bytes as nat));
        let row = Row { id: id.to_owned(), record: None };
        proof {
            memtable::lemma_rows_put(self@.mem, row@);
            memtable::lemma_put_agrees(self@.mem, row@);
        }
        memtable::put_row(&mut self.mem, row);
        Ok(())
    }
}

} // verus!
