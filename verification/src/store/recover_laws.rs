//! What the log promises across a crash: reopening stages exactly the rows that were staged.

use crate::memtable;
use crate::part::RowView;
use crate::store::admission::SpansView;
use crate::store::batch_apply;
use crate::store::batch_apply::MemberView;
use crate::store::carve::ItemView;
use crate::store::engine;
use crate::store::engine::StoreView;
use crate::store::log_laws;
use crate::store::log_laws::Entry;
use crate::store::manifest::ManifestView;
use crate::store::open::ReadStoreView;
use crate::store::record_laws;
use crate::store::recover;
use crate::store::wal;
use crate::store::wal::{FrameView, RECORD_TAG};
use crate::store::wire;
use crate::store::writer;
use crate::store::writer::{Novel, StageError, WriterView};
use crate::types;
use crate::types::{AttrView, ContentView, RecordView};
use vstd::prelude::*;
use vstd::utf8::*;

verus! {

/// The rows that the first `n` frames stage: those that a revision already represents stage
/// nothing.
pub open spec fn rows_of(m: ManifestView, frames: Seq<FrameView>, n: nat) -> Seq<RowView>
    decreases n,
{
    if n == 0 {
        Seq::empty()
    } else {
        let before = rows_of(m, frames, (n - 1) as nat);
        if recover::redundant(m, frames[n - 1].seq) {
            before
        } else {
            memtable::rows_put(before, recover::frame_row(frames[n - 1]))
        }
    }
}

/// A log whose unpublished mutations are exactly what a store has staged. Its other frames are
/// published, and come first.
pub open spec fn covers(log: Seq<Entry>, s: StoreView) -> bool {
    let frames = log_laws::log_applied(log);
    &&& s.mem == rows_of(s.manifest, frames, frames.len())
    &&& forall|i: int|
        0 <= i < frames.len() ==> recover::redundant(s.manifest, (#[trigger] frames[i]).seq)
            || recover::is_pending(s.manifest, frames[i].seq)
    &&& forall|i: int, j: int|
        0 <= i < j < frames.len() && recover::redundant(s.manifest, (#[trigger] frames[j]).seq)
            ==> recover::redundant(s.manifest, (#[trigger] frames[i]).seq)
}

/// What a log stages again is what its unpublished frames say, each in its place.
pub proof fn lemma_reopen_rows(s: ReadStoreView, w: WriterView, frames: Seq<FrameView>, n: nat)
    requires
        n <= frames.len(),
        recover::staged_log(s, w, frames, n) is Ok,
    ensures
        recover::staged_log(s, w, frames, n)->Ok_0.mem == rows_of(s.manifest, frames, n),
    decreases n,
{
    if n > 0 {
        lemma_reopen_rows(s, w, frames, (n - 1) as nat);
    }
}

/// A store that crashed with its log intact reopens with the rows it had staged: whatever `covers`
/// says of the log, the reopened memtable is the one before the crash.
pub proof fn lemma_crash_keeps_rows(
    t: StoreView,
    log: Seq<Entry>,
    s: ReadStoreView,
    w: WriterView,
)
    requires
        covers(log, t),
        s.manifest == t.manifest,
        recover::staged_log(
            s,
            w,
            log_laws::log_applied(log),
            log_laws::log_applied(log).len(),
        ) is Ok,
    ensures
        recover::staged_log(
            s,
            w,
            log_laws::log_applied(log),
            log_laws::log_applied(log).len(),
        )->Ok_0.mem == t.mem,
{
    let frames = log_laws::log_applied(log);
    lemma_reopen_rows(s, w, frames, frames.len());
}

pub proof fn lemma_applied_append(log: Seq<Entry>, e: Entry)
    ensures
        log_laws::log_applied(log.push(e)) == log_laws::log_applied(log)
            + log_laws::entry_applied(e),
        log_laws::log_wire(log.push(e)) == log_laws::log_wire(log) + log_laws::entry_wire(e),
        log_laws::log_frames(log.push(e)) == log_laws::log_frames(log) + log_laws::entry_frames(e),
    decreases log.len(),
{
    let more = log.push(e);
    if log.len() == 0 {
        assert(more.drop_first() =~= log);
        assert(log_laws::log_applied(log) =~= Seq::<FrameView>::empty());
        assert(log_laws::entry_applied(e) + Seq::<FrameView>::empty() =~= Seq::<
            FrameView,
        >::empty() + log_laws::entry_applied(e));
        assert(log_laws::entry_wire(e) + Seq::<u8>::empty() =~= Seq::<u8>::empty()
            + log_laws::entry_wire(e));
        assert(log_laws::log_applied(more.drop_first()) =~= Seq::<FrameView>::empty());
        assert(log_laws::log_wire(more.drop_first()) =~= Seq::<u8>::empty());
        assert(log_laws::log_frames(more.drop_first()) == 0);
    } else {
        assert(more.drop_first() =~= log.drop_first().push(e));
        lemma_applied_append(log.drop_first(), e);
        assert(log_laws::log_applied(more) =~= log_laws::log_applied(log)
            + log_laws::entry_applied(e));
        assert(log_laws::log_wire(more) =~= log_laws::log_wire(log) + log_laws::entry_wire(e));
    }
}

proof fn lemma_rows_of_prefix(m: ManifestView, a: Seq<FrameView>, b: Seq<FrameView>, n: nat)
    requires
        n <= a.len(),
        n <= b.len(),
        forall|i: int| 0 <= i < n ==> a[i] == b[i],
    ensures
        rows_of(m, a, n) == rows_of(m, b, n),
    decreases n,
{
    if n > 0 {
        lemma_rows_of_prefix(m, a, b, (n - 1) as nat);
    }
}

/// A mutation that may be logged, whose payload fits its length field and whose digests have their
/// size.
pub open spec fn fits(fr: FrameView) -> bool {
    &&& wal::member_fits(log_laws::payload_of(fr), fr.record, fr.novel, fr.tomb)
    &&& !fr.tomb ==> wire::wal_fault(fr.record, fr.novel) is None
}

/// An accepted put adds one frame to the log, with the record it staged and the pieces it
/// introduced, and the log still covers the store.
pub proof fn lemma_put_logged(
    s: StoreView,
    t: StoreView,
    id: Seq<char>,
    contents: Seq<SpansView>,
    attrs: Seq<(Seq<char>, AttrView)>,
    log: Seq<Entry>,
)
    requires
        engine::store_ok(s),
        covers(log, s),
        engine::put_outcome(s, t, id, contents, attrs, Ok(())),
    ensures
        exists|fr: FrameView|
            {
                &&& #[trigger] covers(log.push(Entry::One(fr)), t)
                &&& fr.seq == engine::pending_seq(s)
                &&& !fr.tomb
                &&& engine::carved_record(id, contents, attrs, fr.record)
                &&& writer::folded_contents(s.parts, s.writer, contents, contents.len()) == Ok::<
                    (WriterView, Novel),
                    StageError,
                >((t.writer, fr.novel))
                &&& fits(fr)
                &&& t.wal.frames() == s.wal.frames() + 1
                &&& t.wal.limits() == s.wal.limits()
                &&& t.wal.buffered() == s.wal.buffered() + log_laws::entry_wire(Entry::One(fr))
                &&& log_laws::log_wire(log.push(Entry::One(fr))) == log_laws::log_wire(log)
                    + log_laws::entry_wire(Entry::One(fr))
            },
{
    let (after, novel) = writer::folded_contents(
        s.parts,
        s.writer,
        contents,
        contents.len(),
    )->Ok_0;
    let rec = choose|rec: RecordView|
        {
            &&& #[trigger] engine::carved_record(id, contents, attrs, rec)
            &&& engine::log_outcome(s.wal, t.wal, engine::pending_seq(s), rec, novel, Ok(()))
            &&& t == StoreView {
                writer: after,
                wal: t.wal,
                mem: memtable::rows_put(s.mem, RowView { id, record: Some(rec) }),
                mem_bytes: engine::heavier(s.mem_bytes, engine::record_weight(rec)),
                ..s
            }
        };
    let seq = engine::pending_seq(s);
    let payload = choose|payload: Seq<u8>| #[trigger]
        wire::encodes(payload, rec, novel) && wal::member_fits(payload, rec, novel, false)
            && t.wal.buffered() == s.wal.buffered() + wal::frame_wire(RECORD_TAG, seq, payload);
    let sorted = choose|sorted: Seq<ContentView>| #[trigger]
        types::canonical_of(rec.contents, sorted) && payload == wire::record_wire(
            RecordView { id: rec.id, contents: sorted, attrs: rec.attrs },
            novel,
        );
    record_laws::lemma_canonical_unique(rec.contents, sorted);
    let fr = FrameView { tomb: false, seq, record: rec, novel };
    assert(log_laws::mutation_wire(fr, false) == wal::frame_wire(RECORD_TAG, seq, payload));
    lemma_applied_append(log, Entry::One(fr));
    let before = log_laws::log_applied(log);
    let frames = log_laws::log_applied(log.push(Entry::One(fr)));
    assert(frames =~= before.push(fr));
    lemma_rows_of_prefix(s.manifest, before, frames, before.len());
    assert(covers(log.push(Entry::One(fr)), t));
}

/// An accepted deletion adds one frame to the log, and the log still covers the store.
pub proof fn lemma_delete_logged(s: StoreView, t: StoreView, id: Seq<char>, log: Seq<Entry>)
    requires
        engine::store_ok(s),
        covers(log, s),
        engine::delete_outcome(s, t, id, Ok(())),
    ensures
        ({
            let fr = FrameView {
                tomb: true,
                seq: engine::pending_seq(s),
                record: wal::bare_record(id),
                novel: Seq::empty(),
            };
            &&& covers(log.push(Entry::One(fr)), t)
            &&& fits(fr)
            &&& t.wal.buffered() == s.wal.buffered() + log_laws::entry_wire(Entry::One(fr))
            &&& log_laws::log_wire(log.push(Entry::One(fr))) == log_laws::log_wire(log)
                + log_laws::entry_wire(Entry::One(fr))
        }),
{
    let fr = FrameView {
        tomb: true,
        seq: engine::pending_seq(s),
        record: wal::bare_record(id),
        novel: Seq::empty(),
    };
    lemma_applied_append(log, Entry::One(fr));
    let before = log_laws::log_applied(log);
    let frames = log_laws::log_applied(log.push(Entry::One(fr)));
    assert(frames =~= before.push(fr));
    lemma_rows_of_prefix(s.manifest, before, frames, before.len());
}

/// The frames that a batch's members are.
pub open spec fn member_frames(members: Seq<MemberView>, seq: u64) -> Seq<FrameView> {
    Seq::new(
        members.len(),
        |i: int|
            FrameView {
                tomb: members[i].2,
                seq,
                record: members[i].0,
                novel: members[i].1,
            },
    )
}

proof fn lemma_staged_rows(
    m: ManifestView,
    mem: Seq<RowView>,
    before: Seq<FrameView>,
    members: Seq<MemberView>,
    seq: u64,
    n: nat,
)
    requires
        n <= members.len(),
        !recover::redundant(m, seq),
        mem == rows_of(m, before, before.len()),
    ensures
        batch_apply::staged(mem, members, n) == rows_of(
            m,
            before + member_frames(members, seq),
            before.len() + n,
        ),
    decreases n,
{
    let all = before + member_frames(members, seq);
    if n == 0 {
        lemma_rows_of_prefix(m, before, all, before.len());
    } else {
        lemma_staged_rows(m, mem, before, members, seq, (n - 1) as nat);
        assert(all[before.len() + n - 1] == member_frames(members, seq)[n - 1]);
    }
}

proof fn lemma_members_wire(
    members: Seq<MemberView>,
    seq: u64,
    payloads: Seq<Seq<u8>>,
)
    requires
        payloads.len() <= members.len(),
        wal::batch_payloads(members, payloads),
        forall|i: int|
            0 <= i < members.len() && !(#[trigger] members[i]).2 ==> types::names_ascending(
                members[i].0.contents,
            ),
    ensures
        wal::members_wire(members, seq, payloads) == log_laws::members_log(
            member_frames(members, seq).take(payloads.len() as int),
        ),
    decreases payloads.len(),
{
    let frames = member_frames(members, seq);
    if payloads.len() == 0 {
        assert(frames.take(0) =~= Seq::<FrameView>::empty());
    } else {
        let k = payloads.len() - 1;
        let front = payloads.drop_last();
        assert(wal::batch_payloads(members, front)) by {
            assert forall|i: int| 0 <= i < front.len() implies wal::member_payload(
                #[trigger] front[i],
                members[i].0,
                members[i].1,
                members[i].2,
            ) by {
                assert(front[i] == payloads[i]);
            }
        }
        lemma_members_wire(members, seq, front);
        let m = members[k];
        assert(wal::member_payload(payloads[k], m.0, m.1, m.2));
        if !m.2 {
            let sorted = choose|sorted: Seq<ContentView>| #[trigger]
                types::canonical_of(m.0.contents, sorted) && payloads[k] == wire::record_wire(
                    RecordView { id: m.0.id, contents: sorted, attrs: m.0.attrs },
                    m.1,
                );
            record_laws::lemma_canonical_unique(m.0.contents, sorted);
        }
        let fr = frames[k];
        assert(log_laws::mutation_wire(fr, true) == wal::frame_wire(
            wal::member_tag(m.2),
            seq,
            payloads[k],
        ));
        assert(frames.take(k + 1) =~= frames.take(k).push(fr));
        lemma_members_log_push(frames.take(k), fr);
        assert(payloads.last() == payloads[k]);
    }
}

proof fn lemma_members_log_push(frames: Seq<FrameView>, fr: FrameView)
    ensures
        log_laws::members_log(frames.push(fr)) == log_laws::members_log(frames)
            + log_laws::mutation_wire(fr, true),
    decreases frames.len(),
{
    let more = frames.push(fr);
    if frames.len() == 0 {
        assert(more.drop_first() =~= frames);
        assert(log_laws::members_log(more.drop_first()) =~= Seq::<u8>::empty());
        assert(log_laws::members_log(more) =~= log_laws::members_log(frames)
            + log_laws::mutation_wire(fr, true));
    } else {
        assert(more.drop_first() =~= frames.drop_first().push(fr));
        lemma_members_log_push(frames.drop_first(), fr);
        assert(log_laws::members_log(more) =~= log_laws::members_log(frames)
            + log_laws::mutation_wire(fr, true));
    }
}

/// Frames that a folded batch's items became.
pub open spec fn frames_of(
    s: StoreView,
    after: WriterView,
    items: Seq<ItemView>,
    frames: Seq<FrameView>,
) -> bool {
    let out = batch_apply::folded_items(s.parts, s.writer, items, items.len());
    &&& out matches Ok((w, news))
    &&& w == after
    &&& forall|i: int|
        0 <= i < frames.len() ==> (#[trigger] frames[i]).seq == engine::pending_seq(s)
            && batch_apply::framed(
            items[i],
            out->Ok_0.1[i],
            (frames[i].record, frames[i].novel, frames[i].tomb),
        )
}

/// An accepted batch adds its members and their completion to the log, and the log still covers
/// the store.
pub proof fn lemma_apply_logged(s: StoreView, t: StoreView, items: Seq<ItemView>, log: Seq<Entry>)
    requires
        engine::store_ok(s),
        covers(log, s),
        items.len() > 0,
        batch_apply::apply_outcome(s, t, items, Ok(())),
    ensures
        exists|frames: Seq<FrameView>|
            {
                &&& frames.len() == items.len()
                &&& #[trigger] covers(
                    log.push(Entry::Batch { seq: engine::pending_seq(s), members: frames }),
                    t,
                )
                &&& frames_of(s, t.writer, items, frames)
                &&& forall|i: int| 0 <= i < frames.len() ==> fits(#[trigger] frames[i])
                &&& t.wal.written() == s.wal.written()
                &&& t.wal.frames() == s.wal.frames() + items.len() + 1
                &&& t.wal.limits() == s.wal.limits()
                &&& t.wal.buffered() == s.wal.buffered() + log_laws::entry_wire(
                    Entry::Batch { seq: engine::pending_seq(s), members: frames },
                )
            },
{
    let seq = engine::pending_seq(s);
    let (after, news) = batch_apply::folded_items(s.parts, s.writer, items, items.len())->Ok_0;
    let members = choose|members: Seq<MemberView>|
        {
            &&& members.len() == items.len()
            &&& #[trigger] batch_apply::all_framed(items, news, members)
            &&& batch_apply::batch_log_outcome(s.wal, t.wal, seq, members, Ok(()))
            &&& t == StoreView {
                writer: after,
                wal: t.wal,
                mem: batch_apply::staged(s.mem, members, members.len()),
                mem_bytes: batch_apply::weighed(s.mem_bytes, members, members.len()),
                ..s
            }
        };
    let payloads = choose|payloads: Seq<Seq<u8>>|
        {
            &&& payloads.len() == members.len()
            &&& #[trigger] wal::batch_payloads(members, payloads)
            &&& wal::batch_fits(members, payloads)
            &&& t.wal.buffered() == s.wal.buffered() + wal::members_wire(members, seq, payloads)
                + wal::frame_wire(
                wal::BATCH_COMPLETE_TAG,
                seq,
                crate::varint::varint(members.len()),
            )
        };
    let frames = member_frames(members, seq);
    let e = Entry::Batch { seq, members: frames };
    assert forall|i: int| 0 <= i < members.len() && !(
    #[trigger] members[i]).2 implies types::names_ascending(members[i].0.contents) by {
        assert(batch_apply::framed(items[i], news[i], members[i]));
    }
    lemma_members_wire(members, seq, payloads);
    assert(frames.take(payloads.len() as int) =~= frames);
    assert(t.wal.buffered() =~= s.wal.buffered() + log_laws::entry_wire(e));
    lemma_applied_append(log, e);
    let before = log_laws::log_applied(log);
    lemma_staged_rows(s.manifest, s.mem, before, members, seq, members.len());
    assert(log_laws::log_applied(log.push(e)) =~= before + frames);
    assert(covers(log.push(e), t));
    assert forall|i: int| 0 <= i < frames.len() implies fits(#[trigger] frames[i]) by {
        let m = members[i];
        assert(wal::member_payload(payloads[i], m.0, m.1, m.2));
        assert(wal::member_fits(payloads[i], m.0, m.1, m.2));
        wal::lemma_batch_fault_member(members, i);
        if !m.2 {
            assert(types::names_ascending(members[i].0.contents));
            let sorted = choose|sorted: Seq<ContentView>| #[trigger]
                types::canonical_of(m.0.contents, sorted) && payloads[i] == wire::record_wire(
                    RecordView { id: m.0.id, contents: sorted, attrs: m.0.attrs },
                    m.1,
                );
            record_laws::lemma_canonical_unique(m.0.contents, sorted);
        }
    }
    assert forall|i: int| 0 <= i < frames.len() implies (#[trigger] frames[i]).seq
        == engine::pending_seq(s) && batch_apply::framed(
        items[i],
        news[i],
        (frames[i].record, frames[i].novel, frames[i].tomb),
    ) by {
        assert(batch_apply::framed(items[i], news[i], members[i]));
    }
}

} // verus!
