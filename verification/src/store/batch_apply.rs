//! Applying a batch: every member, or across a crash none.
//!
//! The whole batch is judged before any member is folded. All members are folded before the first
//! is logged. The members and their completion reach the log in one append.

use crate::memtable;
use crate::part::{PartView, Row, RowView};
use crate::store::admission;
use crate::store::admission::{ContentSpans, OwnedContent, WriteLimits};
use crate::store::audit;
use crate::store::carve;
use crate::store::carve::{Batch, BatchItem, ItemView};
use crate::store::engine;
use crate::store::engine::{Store, StoreError, StoreFault, StoreView};
use crate::store::wal;
use crate::store::wal::{FramedRecord, Wal, WalError};
use crate::store::wire;
use crate::store::wire::WireError;
use crate::store::writer;
use crate::store::writer::{Novel, StageError, WriterView};
use crate::read_limits::ReadLimits;
use crate::types;
use crate::types::{Content, PieceHash, Record, RecordView};
use crate::varint;
use vstd::prelude::*;

verus! {

/// A logged member: record, novel pieces, and whether it deletes.
pub type MemberView = (RecordView, Novel, bool);

/// What folding the first `n` members does: the writer after them, and each member's novel pieces.
pub open spec fn folded_items(
    parts: Seq<PartView>,
    w: WriterView,
    items: Seq<ItemView>,
    n: nat,
) -> Result<(WriterView, Seq<Novel>), StageError>
    decreases n,
{
    if n == 0 {
        Ok((w, Seq::empty()))
    } else {
        match folded_items(parts, w, items, (n - 1) as nat) {
            Err(e) => Err(e),
            Ok((before, news)) => match items[n - 1] {
                ItemView::Delete { .. } => Ok((before, news.push(Seq::empty()))),
                ItemView::Put { contents, .. } => match writer::folded_contents(
                    parts,
                    before,
                    contents,
                    contents.len(),
                ) {
                    Err(e) => Err(e),
                    Ok((after, novel)) => Ok((after, news.push(novel))),
                },
            },
        }
    }
}

/// The member an item becomes.
pub open spec fn framed(item: ItemView, novel: Novel, m: MemberView) -> bool {
    match item {
        ItemView::Delete { id } => m == (wal::bare_record(id), Seq::<(Seq<u8>, Seq<u8>)>::empty(), true),
        ItemView::Put { id, contents, attrs } => {
            &&& engine::carved_record(id, contents, attrs, m.0)
            &&& m.1 == novel
            &&& !m.2
        },
    }
}

/// The members that items become.
pub open spec fn all_framed(items: Seq<ItemView>, news: Seq<Novel>, members: Seq<MemberView>) -> bool {
    &&& members.len() <= items.len()
    &&& members.len() <= news.len()
    &&& forall|i: int|
        0 <= i < members.len() ==> framed(items[i], news[i], #[trigger] members[i])
}

/// The row a member stages.
pub open spec fn member_row(m: MemberView) -> RowView {
    RowView {
        id: m.0.id,
        record: if m.2 {
            None
        } else {
            Some(m.0)
        },
    }
}

/// The weight of a member.
pub open spec fn member_weight(m: MemberView) -> nat {
    if m.2 {
        engine::deletion_weight(m.0.id)
    } else {
        engine::record_weight(m.0)
    }
}

/// The memtable after the first `n` members: later members win.
pub open spec fn staged(mem: Seq<RowView>, members: Seq<MemberView>, n: nat) -> Seq<RowView>
    decreases n,
{
    if n == 0 {
        mem
    } else {
        memtable::rows_put(staged(mem, members, (n - 1) as nat), member_row(members[n - 1]))
    }
}

/// The weight after the first `n` members.
pub open spec fn weighed(mem_bytes: usize, members: Seq<MemberView>, n: nat) -> usize
    decreases n,
{
    if n == 0 {
        mem_bytes
    } else {
        engine::heavier(
            weighed(mem_bytes, members, (n - 1) as nat),
            member_weight(members[n - 1]),
        )
    }
}

/// What logging a batch does to the log.
pub open spec fn batch_log_outcome(
    before: Wal,
    after: Wal,
    seq: u64,
    members: Seq<MemberView>,
    res: Result<(), WalError>,
) -> bool {
    &&& after.wf()
    &&& after.limits() == before.limits()
    &&& after.written() == before.written()
    &&& match res {
        Ok(()) => {
            &&& wal::batch_fault(members) is None
            &&& after.frames() == before.frames() + members.len() + 1
            &&& exists|payloads: Seq<Seq<u8>>|
                {
                    &&& payloads.len() == members.len()
                    &&& #[trigger] wal::batch_payloads(members, payloads)
                    &&& wal::batch_fits(members, payloads)
                    &&& after.buffered() == before.buffered() + wal::members_wire(
                        members,
                        seq,
                        payloads,
                    ) + wal::frame_wire(
                        wal::BATCH_COMPLETE_TAG,
                        seq,
                        varint::varint(members.len()),
                    )
                }
        },
        Err(e) => match wal::batch_fault(members) {
            Some(f) => {
                &&& e == f
                &&& after.buffered() == before.buffered()
                &&& after.frames() == before.frames()
            },
            None => {
                &&& e == WalError::PayloadTooLarge || e == WalError::LengthOverflow || e
                    == WalError::Wire(WireError::MissingIdentity)
                &&& exists|payloads: Seq<Seq<u8>>|
                    {
                        &&& payloads.len() <= members.len()
                        &&& #[trigger] wal::batch_payloads(members, payloads)
                        &&& after.frames() == before.frames() + payloads.len()
                        &&& after.buffered() == before.buffered() + wal::members_wire(
                            members,
                            seq,
                            payloads,
                        )
                    }
            },
        },
    }
}

/// Why a batch is refused before anything changes. An empty batch is not refused.
pub open spec fn batch_refusal(s: StoreView, items: Seq<ItemView>) -> Option<StoreFault> {
    if s.requires_reopen {
        Some(StoreFault::RequiresReopen)
    } else if items.len() == 0 {
        None
    } else {
        engine::entry_refusal(
            s,
            carve::batch_admission_fault(items, s.write_limits, s.read_limits),
            items.len() + 1,
        )
    }
}

/// What applying a batch does.
pub open spec fn apply_outcome(
    s: StoreView,
    t: StoreView,
    items: Seq<ItemView>,
    r: Result<(), StoreFault>,
) -> bool {
    match batch_refusal(s, items) {
        Some(e) => r == Err::<(), StoreFault>(e) && t == s,
        None => if items.len() == 0 {
            r == Ok::<(), StoreFault>(()) && t == s
        } else {
            match folded_items(s.parts, s.writer, items, items.len()) {
                Err(e) => {
                    &&& r == Err::<(), StoreFault>(StoreFault::Stage(e))
                    &&& t == StoreView { writer: t.writer, requires_reopen: true, ..s }
                },
                Ok((after, news)) => exists|members: Seq<MemberView>|
                    {
                        &&& members.len() == items.len()
                        &&& #[trigger] all_framed(items, news, members)
                        &&& match r {
                            Ok(()) => {
                                &&& batch_log_outcome(
                                    s.wal,
                                    t.wal,
                                    engine::pending_seq(s),
                                    members,
                                    Ok(()),
                                )
                                &&& t == StoreView {
                                    writer: after,
                                    wal: t.wal,
                                    mem: staged(s.mem, members, members.len()),
                                    mem_bytes: weighed(s.mem_bytes, members, members.len()),
                                    ..s
                                }
                            },
                            Err(StoreFault::Wal(e)) => {
                                &&& batch_log_outcome(
                                    s.wal,
                                    t.wal,
                                    engine::pending_seq(s),
                                    members,
                                    Err(e),
                                )
                                &&& t == StoreView {
                                    writer: after,
                                    wal: t.wal,
                                    requires_reopen: true,
                                    ..s
                                }
                            },
                            _ => false,
                        }
                    },
            }
        },
    }
}

proof fn lemma_items_prefix(parts: Seq<PartView>, w: WriterView, items: Seq<ItemView>, k: nat, n: nat)
    requires
        k <= n,
        folded_items(parts, w, items, k) is Err,
    ensures
        folded_items(parts, w, items, n) == folded_items(parts, w, items, k),
    decreases n,
{
    if k < n {
        lemma_items_prefix(parts, w, items, k, (n - 1) as nat);
    }
}

/// No admitted member is refused by itself.
pub proof fn lemma_item_admitted(
    items: Seq<ItemView>,
    limits: WriteLimits,
    read_limits: ReadLimits,
    i: int,
)
    requires
        carve::items_fault(items, limits, read_limits) is None,
        0 <= i < items.len(),
    ensures
        carve::item_fault(items[i], limits, read_limits, i as usize) is None,
    decreases items.len(),
{
    if i < items.len() - 1 {
        lemma_item_admitted(items.drop_last(), limits, read_limits, i);
    }
}

fn lend<'a>(contents: &'a Vec<OwnedContent>) -> (r: Vec<ContentSpans<'a>>)
    ensures
        admission::inputs_view(r@) == admission::owned_view(contents@),
{
    let mut lent: Vec<ContentSpans<'a>> = Vec::new();
    let mut i: usize = 0;
    while i < contents.len()
        invariant
            i <= contents@.len(),
            lent@.len() == i,
            forall|k: int| 0 <= k < i ==> (#[trigger] lent@[k])@ == contents@[k]@,
        decreases contents.len() - i,
    {
        lent.push(contents[i].borrowed());
        i = i + 1;
    }
    assert(admission::inputs_view(lent@) =~= admission::owned_view(contents@));
    lent
}

impl Store {
    /// Fold one member and build what the log takes.
    fn frame_item(&mut self, item: &BatchItem) -> (r: Result<FramedRecord, StageError>)
        requires
            engine::store_base(old(self)@),
            item@ matches ItemView::Put { id, contents, attrs } ==> {
                &&& id.len() > 0
                &&& types::contents_fault(carve::carved_all(contents)) is None
                &&& forall|k: int|
                    0 <= k < contents.len() ==> !admission::any_too_long(
                        (#[trigger] contents[k]).spans,
                    )
            },
        ensures
            engine::store_base(final(self)@),
            final(self)@ == (StoreView { writer: final(self)@.writer, ..old(self)@ }),
            match r {
                Ok(f) => {
                    &&& framed(
                        item@,
                        wire::novel_view(f.1@),
                        (f.0@, wire::novel_view(f.1@), f.2),
                    )
                    &&& match item@ {
                        ItemView::Delete { .. } => final(self)@.writer == old(self)@.writer,
                        ItemView::Put { contents, .. } => writer::folded_contents(
                            old(self)@.parts,
                            old(self)@.writer,
                            contents,
                            contents.len(),
                        ) == Ok::<(WriterView, Novel), StageError>(
                            (final(self)@.writer, wire::novel_view(f.1@)),
                        ),
                    }
                },
                Err(e) => match item@ {
                    ItemView::Delete { .. } => false,
                    ItemView::Put { contents, .. } => writer::folded_contents(
                        old(self)@.parts,
                        old(self)@.writer,
                        contents,
                        contents.len(),
                    ) == Err::<(WriterView, Novel), StageError>(e),
                },
            },
    {
        match item {
            BatchItem::Delete { id } => {
                let novel: Vec<(PieceHash, Vec<u8>)> = Vec::new();
                let contents: Vec<Content> = Vec::new();
                let rec = Record { id: id.clone(), contents, attrs: Vec::new() };
                proof {
                    assert(wire::novel_view(novel@) =~= Seq::<(Seq<u8>, Seq<u8>)>::empty());
                    assert(rec@.contents =~= wal::bare_record(id@).contents);
                    assert(rec@.attrs =~= wal::bare_record(id@).attrs);
                }
                Ok((rec, novel, true))
            },
            BatchItem::Put { id, contents, attrs } => {
                let lent = lend(contents);
                let novel = match self.writer.fold_contents(&self.parts, lent.as_slice()) {
                    Ok(n) => n,
                    Err(e) => {
                        return Err(e);
                    },
                };
                let carved = engine::carve_all(lent.as_slice());
                match Record::new(id.as_str(), carved, types::clone_attrs(attrs)) {
                    Ok(rec) => Ok((rec, novel, false)),
                    // Admission refuses every content map that a record does.
                    Err(_) => Err(StageError::Full),
                }
            },
        }
    }

    /// Fold every member.
    fn frame_items(&mut self, batch: &Batch) -> (r: Result<Vec<FramedRecord>, StageError>)
        requires
            engine::store_base(old(self)@),
            carve::items_fault(batch@, old(self)@.write_limits, old(self)@.read_limits) is None,
        ensures
            engine::store_base(final(self)@),
            final(self)@ == (StoreView { writer: final(self)@.writer, ..old(self)@ }),
            ({
                let out = folded_items(
                    old(self)@.parts,
                    old(self)@.writer,
                    batch@,
                    batch@.len(),
                );
                match r {
                    Ok(fs) => {
                        &&& out matches Ok((w, news))
                        &&& w == final(self)@.writer
                        &&& fs@.len() == batch@.len()
                        &&& all_framed(batch@, news, wal::items_view(fs@))
                    },
                    Err(e) => out == Err::<(WriterView, Seq<Novel>), StageError>(e),
                }
            }),
    {
        let ghost s = self@;
        let ghost items = batch@;
        let mut out: Vec<FramedRecord> = Vec::new();
        let mut i: usize = 0;
        let ghost mut news: Seq<Novel> = Seq::empty();
        while i < batch.items.len()
            invariant
                items == batch@,
                s == old(self)@,
                i <= batch.items@.len(),
                carve::items_fault(items, s.write_limits, s.read_limits) is None,
                engine::store_base(self@),
                self@ == (StoreView { writer: self@.writer, ..s }),
                folded_items(s.parts, s.writer, items, i as nat) == Ok::<
                    (WriterView, Seq<Novel>),
                    StageError,
                >((self@.writer, news)),
                out@.len() == i,
                news.len() == i,
                all_framed(items, news, wal::items_view(out@)),
            decreases batch.items.len() - i,
        {
            proof {
                assert(items[i as int] == batch.items@[i as int]@);
                lemma_item_admitted(items, s.write_limits, s.read_limits, i as int);
                if let ItemView::Put { id, contents, attrs } = items[i as int] {
                    engine::lemma_admitted(
                        contents,
                        s.write_limits,
                        s.read_limits,
                        Some(i),
                        false,
                    );
                }
            }
            let ghost before = out@;
            let ghost news_before = news;
            match self.frame_item(&batch.items[i]) {
                Err(e) => {
                    proof {
                        lemma_items_prefix(s.parts, s.writer, items, (i + 1) as nat, items.len());
                    }
                    return Err(e);
                },
                Ok(f) => {
                    proof {
                        news = news.push(wire::novel_view(f.1@));
                    }
                    out.push(f);
                    proof {
                        let ms = wal::items_view(out@);
                        assert forall|k: int| 0 <= k < ms.len() implies framed(
                            items[k],
                            news[k],
                            #[trigger] ms[k],
                        ) by {
                            if k < i {
                                assert(wal::items_view(before)[k] == ms[k]);
                                assert(news[k] == news_before[k]);
                            }
                        }
                    }
                },
            }
            i = i + 1;
        }
        Ok(out)
    }

    /// Stage logged members, in order.
    fn stage_members(&mut self, members: Vec<FramedRecord>)
        requires
            engine::store_base(old(self)@),
        ensures
            engine::store_base(final(self)@),
            members@.len() > 0 ==> final(self)@.mem.len() > 0,
            ({
                let ms = wal::items_view(members@);
                final(self)@ == (StoreView {
                    mem: staged(old(self)@.mem, ms, ms.len()),
                    mem_bytes: weighed(old(self)@.mem_bytes, ms, ms.len()),
                    ..old(self)@
                })
            }),
    {
        let ghost s = self@;
        let ghost ms = wal::items_view(members@);
        let mut i: usize = 0;
        while i < members.len()
            invariant
                s == old(self)@,
                ms == wal::items_view(members@),
                i <= members@.len(),
                engine::store_base(self@),
                i > 0 ==> self@.mem.len() > 0,
                self@ == (StoreView {
                    mem: staged(s.mem, ms, i as nat),
                    mem_bytes: weighed(s.mem_bytes, ms, i as nat),
                    ..s
                }),
            decreases members.len() - i,
        {
            let m = &members[i];
            assert(ms[i as int] == (m.0@, wire::novel_view(m.1@), m.2));
            let row = if m.2 {
                let id_len: usize = m.0.id.as_str().as_bytes().len();
                let weight: usize = audit::add_fit(
                    audit::add_fit(0, id_len, Ghost(0nat)),
                    32,
                    Ghost(id_len as nat),
                );
                self.mem_bytes = audit::add_fit(
                    self.mem_bytes,
                    weight,
                    Ghost(self.mem_bytes as nat),
                );
                Row { id: m.0.id.clone(), record: None }
            } else {
                let weight: usize = engine::approx_bytes(&m.0);
                self.mem_bytes = audit::add_fit(
                    self.mem_bytes,
                    weight,
                    Ghost(self.mem_bytes as nat),
                );
                Row { id: m.0.id.clone(), record: Some(m.0.clone()) }
            };
            proof {
                assert(row@ == member_row(ms[i as int]));
                memtable::lemma_rows_put(self@.mem, row@);
                memtable::lemma_put_agrees(self@.mem, row@);
            }
            memtable::put_row(&mut self.mem, row);
            i = i + 1;
        }
    }

    /// Apply a batch: every member, or across a crash none. Within the batch a later member wins
    /// over an earlier one on the same id.
    pub fn apply(&mut self, batch: &Batch) -> (r: Result<(), StoreError>)
        requires
            engine::store_ok(old(self)@),
        ensures
            engine::store_ok(final(self)@),
            apply_outcome(old(self)@, final(self)@, batch@, engine::outcome_view(r)),
    {
        if self.requires_reopen {
            return Err(StoreError::RequiresReopen);
        }
        if batch.items.len() == 0 {
            return Ok(());
        }
        let ghost s = self@;
        match carve::batch_admission_bytes(batch, &self.write_limits, &self.read_limits) {
            Ok(_) => {},
            Err(e) => {
                return Err(StoreError::Write(e));
            },
        }
        let count: usize = batch.items.len();
        let frames: u64 = match (count as u64).checked_add(1) {
            Some(n) => n,
            None => {
                if self.manifest.next_seq == u64::MAX {
                    return Err(StoreError::SequenceExhausted);
                }
                return Err(StoreError::Wal(WalError::FrameCountOverflow));
            },
        };
        let sequence: u64 = match self.pending_sequence(frames) {
            Ok(q) => q,
            Err(e) => {
                return Err(e);
            },
        };
        let members = match self.frame_items(batch) {
            Ok(fs) => fs,
            Err(e) => {
                self.requires_reopen = true;
                return Err(StoreError::Stage(e));
            },
        };
        let ghost ms = wal::items_view(members@);
        match self.wal.append_batch(sequence, members.as_slice()) {
            Err(e) => {
                self.requires_reopen = true;
                assert(batch_log_outcome(s.wal, self.wal, sequence, ms, Err(e)));
                return Err(StoreError::Wal(e));
            },
            Ok(()) => {},
        }
        assert(batch_log_outcome(s.wal, self.wal, sequence, ms, Ok(())));
        self.stage_members(members);
        Ok(())
    }
}

} // verus!
