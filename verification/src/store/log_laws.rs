//! What replay promises of a log that was written by [`crate::store::wal::Wal`].
//!
//! A log is a run of entries: standalone mutations, completed batches, and runs of members whose
//! completion never arrived. Replay gives back the mutations of the first two kinds, in order,
//! and nothing of the third. Cutting a log anywhere inside its last entry leaves the replay of
//! the entries before it.

use crate::read_limits;
use crate::read_limits::ReadLimits;
use crate::store::wal::{
    FrameView, ReplayView, WalError, BATCH_COMPLETE_TAG, BATCH_RECORD_TAG, BATCH_TOMB_TAG, CRC, HDR,
    RECORD_TAG, TOMB_TAG,
};
use crate::store::wal;
use crate::store::wire;
use crate::types;
use crate::varint;
use vstd::bytes::*;
use vstd::prelude::*;
use vstd::utf8::*;

verus! {

/// One thing a writer did to a log.
pub enum Entry {
    /// A standalone record or deletion.
    One(FrameView),
    /// A batch whose completion was written.
    Batch { seq: u64, members: Seq<FrameView> },
    /// Members whose completion was never written.
    Abandoned { members: Seq<FrameView> },
}

/// The payload of a mutation.
pub open spec fn payload_of(fr: FrameView) -> Seq<u8> {
    if fr.tomb {
        encode_utf8(fr.record.id)
    } else {
        wire::record_wire(fr.record, fr.novel)
    }
}

/// The tag of a mutation.
pub open spec fn tag_of(fr: FrameView, in_batch: bool) -> u8 {
    if fr.tomb {
        if in_batch {
            BATCH_TOMB_TAG
        } else {
            TOMB_TAG
        }
    } else {
        if in_batch {
            BATCH_RECORD_TAG
        } else {
            RECORD_TAG
        }
    }
}

/// The frame of a mutation.
pub open spec fn mutation_wire(fr: FrameView, in_batch: bool) -> Seq<u8> {
    wal::frame_wire(tag_of(fr, in_batch), fr.seq, payload_of(fr))
}

/// A payload that fits its length field and the reader's ceilings.
pub open spec fn payload_fits(payload: Seq<u8>, limits: ReadLimits) -> bool {
    &&& payload.len() <= u32::MAX
    &&& payload.len() <= usize::MAX
    &&& read_limits::frame_refusal(limits, payload.len() as u64, payload.len() as u64) is None
}

/// A mutation the writer accepts and the reader admits.
pub open spec fn loggable(fr: FrameView, limits: ReadLimits) -> bool {
    &&& payload_fits(payload_of(fr), limits)
    &&& if fr.tomb {
        &&& fr.record == wal::bare_record(fr.record.id)
        &&& fr.record.id.len() > 0
        &&& fr.novel == Seq::<(Seq<u8>, Seq<u8>)>::empty()
    } else {
        &&& wire::wal_fault(fr.record, fr.novel) is None
        &&& types::names_ascending(fr.record.contents)
        &&& wire::contents_sized(fr.record.contents)
        &&& wire::novel_sized(fr.novel)
    }
}

/// Every member is loggable.
pub open spec fn all_loggable(members: Seq<FrameView>, limits: ReadLimits) -> bool {
    forall|i: int| 0 <= i < members.len() ==> loggable(#[trigger] members[i], limits)
}

/// Member frames, in order.
pub open spec fn members_log(members: Seq<FrameView>) -> Seq<u8>
    decreases members.len(),
{
    if members.len() == 0 {
        Seq::empty()
    } else {
        mutation_wire(members[0], true) + members_log(members.drop_first())
    }
}

/// The completion frame of a batch of `n` members.
pub open spec fn marker_wire(seq: u64, n: nat) -> Seq<u8> {
    wal::frame_wire(BATCH_COMPLETE_TAG, seq, varint::varint(n))
}

/// A whole batch.
pub open spec fn batch_wire(seq: u64, members: Seq<FrameView>) -> Seq<u8> {
    members_log(members) + marker_wire(seq, members.len())
}

/// A batch the writer accepts and the reader admits.
pub open spec fn batch_ok(seq: u64, members: Seq<FrameView>, limits: ReadLimits) -> bool {
    &&& members.len() > 0
    &&& members.len() <= usize::MAX
    &&& all_loggable(members, limits)
    &&& forall|i: int| 0 <= i < members.len() ==> (#[trigger] members[i]).seq == seq
    &&& payload_fits(varint::varint(members.len()), limits)
}

/// An entry the writer accepts and the reader admits.
pub open spec fn entry_ok(e: Entry, limits: ReadLimits) -> bool {
    match e {
        Entry::One(fr) => loggable(fr, limits),
        Entry::Batch { seq, members } => batch_ok(seq, members, limits),
        Entry::Abandoned { members } => all_loggable(members, limits),
    }
}

/// The bytes of an entry.
pub open spec fn entry_wire(e: Entry) -> Seq<u8> {
    match e {
        Entry::One(fr) => mutation_wire(fr, false),
        Entry::Batch { seq, members } => batch_wire(seq, members),
        Entry::Abandoned { members } => members_log(members),
    }
}

/// The frames of an entry.
pub open spec fn entry_frames(e: Entry) -> nat {
    match e {
        Entry::One(fr) => 1,
        Entry::Batch { seq, members } => members.len() + 1,
        Entry::Abandoned { members } => members.len(),
    }
}

/// The mutations an entry applies.
pub open spec fn entry_applied(e: Entry) -> Seq<FrameView> {
    match e {
        Entry::One(fr) => seq![fr],
        Entry::Batch { seq, members } => members,
        Entry::Abandoned { members } => Seq::empty(),
    }
}

/// The bytes of a log.
pub open spec fn log_wire(log: Seq<Entry>) -> Seq<u8>
    decreases log.len(),
{
    if log.len() == 0 {
        Seq::empty()
    } else {
        entry_wire(log[0]) + log_wire(log.drop_first())
    }
}

/// The frames of a log.
pub open spec fn log_frames(log: Seq<Entry>) -> nat
    decreases log.len(),
{
    if log.len() == 0 {
        0
    } else {
        entry_frames(log[0]) + log_frames(log.drop_first())
    }
}

/// The mutations a log applies.
pub open spec fn log_applied(log: Seq<Entry>) -> Seq<FrameView>
    decreases log.len(),
{
    if log.len() == 0 {
        Seq::empty()
    } else {
        entry_applied(log[0]) + log_applied(log.drop_first())
    }
}

/// Every entry is accepted and admitted.
pub open spec fn log_ok(log: Seq<Entry>, limits: ReadLimits) -> bool {
    forall|i: int| 0 <= i < log.len() ==> entry_ok(#[trigger] log[i], limits)
}

proof fn lemma_split(b: Seq<u8>, at: int, e1: Seq<u8>, e2: Seq<u8>)
    requires
        wire::holds(b, at, e1 + e2),
    ensures
        wire::holds(b, at, e1),
        wire::holds(b, at + e1.len(), e2),
{
    wire::lemma_holds_split(b, at, e1, e2);
}

/// A whole frame in the log is applied.
proof fn lemma_step(
    b: Seq<u8>,
    st: ReplayView,
    tag: u8,
    seq: u64,
    payload: Seq<u8>,
    limits: ReadLimits,
)
    requires
        wire::holds(b, st.off as int, wal::frame_wire(tag, seq, payload)),
        wal::known_tag(tag),
        payload_fits(payload, limits),
        st.physical + 1 <= limits.max_wal_frames,
        b.len() <= u64::MAX,
    ensures
        wal::replay_step(b, st, limits) == (match wal::apply_frame(
            st,
            tag,
            seq,
            payload,
            (st.off + HDR + payload.len() + CRC) as nat,
        ) {
            Ok(next) => Ok::<Option<ReplayView>, WalError>(Some(next)),
            Err(e) => Err(e),
        }),
{
    reveal(wal::replay_step);
    lemma_auto_spec_u64_to_from_le_bytes();
    lemma_auto_spec_u32_to_from_le_bytes();
    wal::lemma_frame_len(tag, seq, payload);
    let off = st.off as int;
    let head = wal::header_wire(tag, seq, payload.len() as u32);
    let crc = spec_u32_to_le_bytes(crate::hash::crc32_of(head + payload));
    lemma_split(b, off, head + payload, crc);
    lemma_split(b, off, head, payload);
    let hdr = b.subrange(off, off + HDR);
    assert(hdr == head);
    assert(hdr.subrange(9, 13) =~= spec_u32_to_le_bytes(payload.len() as u32));
    assert(hdr.subrange(1, 9) =~= spec_u64_to_le_bytes(seq));
    assert(hdr[0] == tag);
    let plen = payload.len() as int;
    assert(b.subrange(off + HDR, off + HDR + plen) == payload);
    assert(b.subrange(off + HDR + plen, off + HDR + plen + CRC) == crc);
}

/// Replay moves past a whole frame that it applies.
proof fn lemma_advance(
    b: Seq<u8>,
    st: ReplayView,
    tag: u8,
    seq: u64,
    payload: Seq<u8>,
    next: ReplayView,
    limits: ReadLimits,
)
    requires
        wire::holds(b, st.off as int, wal::frame_wire(tag, seq, payload)),
        wal::known_tag(tag),
        payload_fits(payload, limits),
        st.physical + 1 <= limits.max_wal_frames,
        b.len() <= u64::MAX,
        wal::apply_frame(st, tag, seq, payload, (st.off + HDR + payload.len() + CRC) as nat) == Ok::<
            ReplayView,
            WalError,
        >(next),
    ensures
        wal::replay_from(b, st, limits) == wal::replay_from(b, next, limits),
        next.off == st.off + wal::frame_wire(tag, seq, payload).len(),
{
    lemma_step(b, st, tag, seq, payload, limits);
    wal::lemma_frame_len(tag, seq, payload);
    assert(next.off == st.off + HDR + payload.len() + CRC);
}

/// A loggable mutation is applied as itself.
proof fn lemma_apply_mutation(
    st: ReplayView,
    fr: FrameView,
    in_batch: bool,
    end: nat,
    limits: ReadLimits,
)
    requires
        loggable(fr, limits),
    ensures
        wal::known_tag(tag_of(fr, in_batch)),
        wal::apply_frame(st, tag_of(fr, in_batch), fr.seq, payload_of(fr), end) == Ok::<
            ReplayView,
            WalError,
        >(wal::push_frame(st, fr, in_batch, end)),
{
    if fr.tomb {
        encode_utf8_valid_utf8(fr.record.id);
        encode_utf8_decode_utf8(fr.record.id);
        crate::bytes::lemma_utf8_empty(fr.record.id);
    } else {
        wire::lemma_record_round_trip(fr.record, fr.novel);
    }
}

/// Replay moves past a loggable mutation.
proof fn lemma_take_mutation(
    b: Seq<u8>,
    st: ReplayView,
    fr: FrameView,
    in_batch: bool,
    limits: ReadLimits,
)
    requires
        wire::holds(b, st.off as int, mutation_wire(fr, in_batch)),
        loggable(fr, limits),
        st.physical + 1 <= limits.max_wal_frames,
        b.len() <= u64::MAX,
    ensures
        wal::replay_from(b, st, limits) == wal::replay_from(
            b,
            wal::push_frame(st, fr, in_batch, st.off + mutation_wire(fr, in_batch).len()),
            limits,
        ),
{
    let end = st.off + mutation_wire(fr, in_batch).len();
    wal::lemma_frame_len(tag_of(fr, in_batch), fr.seq, payload_of(fr));
    lemma_apply_mutation(st, fr, in_batch, end, limits);
    let next = wal::push_frame(st, fr, in_batch, end);
    lemma_advance(b, st, tag_of(fr, in_batch), fr.seq, payload_of(fr), next, limits);
}

/// Where replay stands after waiting members.
pub open spec fn after_members(st: ReplayView, members: Seq<FrameView>) -> ReplayView {
    if members.len() == 0 {
        st
    } else {
        ReplayView {
            applied: st.applied,
            pending: st.pending + members,
            pending_start: if st.pending.len() == 0 {
                Some((st.off, st.physical))
            } else {
                st.pending_start
            },
            physical: st.physical + members.len(),
            off: st.off + members_log(members).len(),
        }
    }
}

proof fn lemma_members(b: Seq<u8>, st: ReplayView, members: Seq<FrameView>, limits: ReadLimits)
    requires
        wire::holds(b, st.off as int, members_log(members)),
        all_loggable(members, limits),
        st.physical + members.len() <= limits.max_wal_frames,
        b.len() <= u64::MAX,
    ensures
        wal::replay_from(b, st, limits) == wal::replay_from(b, after_members(st, members), limits),
    decreases members.len(),
{
    if members.len() > 0 {
        let fr = members[0];
        let tail = members.drop_first();
        let w = mutation_wire(fr, true);
        lemma_split(b, st.off as int, w, members_log(tail));
        let next = wal::push_frame(st, fr, true, st.off + w.len());
        lemma_take_mutation(b, st, fr, true, limits);
        assert forall|i: int| 0 <= i < tail.len() implies loggable(#[trigger] tail[i], limits) by {
            assert(tail[i] == members[i + 1]);
        }
        lemma_members(b, next, tail, limits);
        let done = after_members(st, members);
        let again = after_members(next, tail);
        assert(again.pending =~= done.pending) by {
            assert(members =~= seq![fr] + tail);
        }
        assert(again == done);
    }
}

proof fn lemma_entry(b: Seq<u8>, st: ReplayView, e: Entry, limits: ReadLimits) -> (next: ReplayView)
    requires
        wire::holds(b, st.off as int, entry_wire(e)),
        entry_ok(e, limits),
        st.physical + entry_frames(e) <= limits.max_wal_frames,
        b.len() <= u64::MAX,
    ensures
        wal::replay_from(b, st, limits) == wal::replay_from(b, next, limits),
        next.applied == st.applied + entry_applied(e),
        next.off == st.off + entry_wire(e).len(),
        next.physical == st.physical + entry_frames(e),
        !(e is Abandoned) ==> next.pending.len() == 0 && next.pending_start is None,
{
    match e {
        Entry::One(fr) => {
            let next = wal::push_frame(st, fr, false, st.off + mutation_wire(fr, false).len());
            lemma_take_mutation(b, st, fr, false, limits);
            assert(st.applied.push(fr) =~= st.applied + seq![fr]);
            next
        },
        Entry::Batch { seq, members } => {
            let n = members.len();
            let payload = varint::varint(n);
            lemma_split(b, st.off as int, members_log(members), marker_wire(seq, n));
            lemma_members(b, st, members, limits);
            let mid = after_members(st, members);
            wal::lemma_frame_len(BATCH_COMPLETE_TAG, seq, payload);
            let end = (mid.off + HDR + payload.len() + CRC) as nat;
            varint::lemma_cap_is_u64();
            varint::lemma_varint_round_trip(n, Seq::empty(), 0);
            assert(payload + Seq::<u8>::empty() =~= payload);
            let k = mid.pending.len() - n;
            assert(k == st.pending.len());
            assert(mid.pending.skip(k) =~= members);
            assert forall|i: int| k <= i < mid.pending.len() implies (
            #[trigger] mid.pending[i]).seq == seq by {
                assert(mid.pending[i] == members[i - k]);
            }
            let next = ReplayView {
                applied: mid.applied + mid.pending.skip(k),
                pending: Seq::empty(),
                pending_start: None,
                physical: mid.physical + 1,
                off: end,
            };
            lemma_advance(b, mid, BATCH_COMPLETE_TAG, seq, payload, next, limits);
            next
        },
        Entry::Abandoned { members } => {
            lemma_members(b, st, members, limits);
            assert(st.applied + Seq::<FrameView>::empty() =~= st.applied);
            after_members(st, members)
        },
    }
}

proof fn lemma_log(b: Seq<u8>, st: ReplayView, log: Seq<Entry>, limits: ReadLimits) -> (next:
    ReplayView)
    requires
        wire::holds(b, st.off as int, log_wire(log)),
        log_ok(log, limits),
        st.physical + log_frames(log) <= limits.max_wal_frames,
        b.len() <= u64::MAX,
    ensures
        wal::replay_from(b, st, limits) == wal::replay_from(b, next, limits),
        next.applied == st.applied + log_applied(log),
        next.off == st.off + log_wire(log).len(),
        next.physical == st.physical + log_frames(log),
        log.len() == 0 ==> next == st,
        log.len() > 0 && !(log.last() is Abandoned) ==> next.pending_start is None,
    decreases log.len(),
{
    if log.len() == 0 {
        assert(st.applied + Seq::<FrameView>::empty() =~= st.applied);
        st
    } else {
        let tail = log.drop_first();
        lemma_split(b, st.off as int, entry_wire(log[0]), log_wire(tail));
        let mid = lemma_entry(b, st, log[0], limits);
        assert forall|i: int| 0 <= i < tail.len() implies entry_ok(#[trigger] tail[i], limits) by {
            assert(tail[i] == log[i + 1]);
        }
        let next = lemma_log(b, mid, tail, limits);
        assert(st.applied + entry_applied(log[0]) + log_applied(tail) =~= st.applied + (
        entry_applied(log[0]) + log_applied(tail)));
        next
    }
}

/// A log replays as the mutations of its standalone frames and completed batches, in the order
/// they were written, and nothing of an abandoned run.
pub proof fn lemma_log_replays(log: Seq<Entry>, limits: ReadLimits)
    requires
        log_ok(log, limits),
        log_frames(log) <= limits.max_wal_frames,
        log_wire(log).len() <= u64::MAX,
    ensures
        wal::replay_from(log_wire(log), wal::replay_start(), limits) matches Ok(st) && {
            &&& st.applied == log_applied(log)
            &&& st.off == log_wire(log).len()
            &&& st.physical == log_frames(log)
            &&& log.len() == 0 || !(log.last() is Abandoned) ==> {
                &&& wal::valid_bytes(st) == log_wire(log).len()
                &&& wal::valid_frames(st) == log_frames(log)
            }
        },
{
    let b = log_wire(log);
    assert(b.subrange(0, b.len() as int) =~= b);
    let st = lemma_log(b, wal::replay_start(), log, limits);
    assert(wal::replay_start().applied + log_applied(log) =~= log_applied(log));
    reveal(wal::replay_step);
    assert(wal::replay_step(b, st, limits) == Ok::<Option<ReplayView>, WalError>(None));
}

/// The log ends where the next frame is incomplete.
proof fn lemma_torn(
    b: Seq<u8>,
    st: ReplayView,
    tag: u8,
    seq: u64,
    payload: Seq<u8>,
    k: int,
    limits: ReadLimits,
)
    requires
        0 <= k < wal::frame_wire(tag, seq, payload).len(),
        b.len() == st.off + k,
        wire::holds(b, st.off as int, wal::frame_wire(tag, seq, payload).take(k)),
        payload.len() <= u32::MAX,
        st.off + wal::frame_wire(tag, seq, payload).len() <= u64::MAX,
    ensures
        wal::replay_from(b, st, limits) == Ok::<ReplayView, WalError>(st),
{
    reveal(wal::replay_step);
    lemma_auto_spec_u64_to_from_le_bytes();
    lemma_auto_spec_u32_to_from_le_bytes();
    wal::lemma_frame_len(tag, seq, payload);
    if k >= HDR + CRC {
        let off = st.off as int;
        let w = wal::frame_wire(tag, seq, payload);
        let head = wal::header_wire(tag, seq, payload.len() as u32);
        let hdr = b.subrange(off, off + HDR);
        assert(hdr =~= head) by {
            assert forall|i: int| 0 <= i < HDR implies hdr[i] == head[i] by {
                assert(b.subrange(off, off + k)[i] == w.take(k)[i]);
            }
        }
        assert(hdr.subrange(9, 13) =~= spec_u32_to_le_bytes(payload.len() as u32));
    }
    assert(wal::replay_step(b, st, limits) == Ok::<Option<ReplayView>, WalError>(None));
}

/// A batch that was cut before its end applies nothing.
proof fn lemma_cut_batch(
    b: Seq<u8>,
    st: ReplayView,
    seq: u64,
    members: Seq<FrameView>,
    n: nat,
    k: int,
    limits: ReadLimits,
)
    requires
        0 <= k < (members_log(members) + marker_wire(seq, n)).len(),
        b.len() == st.off + k,
        wire::holds(b, st.off as int, (members_log(members) + marker_wire(seq, n)).take(k)),
        all_loggable(members, limits),
        payload_fits(varint::varint(n), limits),
        st.physical + members.len() + 1 <= limits.max_wal_frames,
        st.off + (members_log(members) + marker_wire(seq, n)).len() <= u64::MAX,
    ensures
        wal::replay_from(b, st, limits) matches Ok(end) && end.applied == st.applied,
    decreases members.len(),
{
    let w = members_log(members) + marker_wire(seq, n);
    if members.len() == 0 {
        assert(w =~= marker_wire(seq, n));
        lemma_torn(b, st, BATCH_COMPLETE_TAG, seq, varint::varint(n), k, limits);
    } else {
        let fr = members[0];
        let tail = members.drop_first();
        let f = mutation_wire(fr, true);
        let rest = members_log(tail) + marker_wire(seq, n);
        wal::lemma_frame_len(tag_of(fr, true), fr.seq, payload_of(fr));
        assert(w =~= f + rest);
        if k < f.len() {
            assert(w.take(k) =~= f.take(k));
            lemma_torn(b, st, tag_of(fr, true), fr.seq, payload_of(fr), k, limits);
        } else {
            assert(w.take(k) =~= f + rest.take(k - f.len()));
            lemma_split(b, st.off as int, f, rest.take(k - f.len()));
            let next = wal::push_frame(st, fr, true, st.off + f.len());
            lemma_take_mutation(b, st, fr, true, limits);
            assert forall|i: int| 0 <= i < tail.len() implies loggable(
                #[trigger] tail[i],
                limits,
            ) by {
                assert(tail[i] == members[i + 1]);
            }
            lemma_cut_batch(b, next, seq, tail, n, k - f.len(), limits);
        }
    }
}

/// A batch replays whole or not at all: a log cut anywhere before the end of its last batch
/// replays as the entries before that batch.
pub proof fn lemma_batch_all_or_nothing(
    log: Seq<Entry>,
    seq: u64,
    members: Seq<FrameView>,
    k: int,
    limits: ReadLimits,
)
    requires
        log_ok(log, limits),
        batch_ok(seq, members, limits),
        0 <= k < batch_wire(seq, members).len(),
        log_frames(log) + members.len() + 1 <= limits.max_wal_frames,
        log_wire(log).len() + batch_wire(seq, members).len() <= u64::MAX,
    ensures
        wal::replay_from(
            log_wire(log) + batch_wire(seq, members).take(k),
            wal::replay_start(),
            limits,
        ) matches Ok(st) && st.applied == log_applied(log),
{
    let torn = batch_wire(seq, members).take(k);
    let b = log_wire(log) + torn;
    assert(b.subrange(0, b.len() as int) =~= b);
    lemma_split(b, 0, log_wire(log), torn);
    let st = lemma_log(b, wal::replay_start(), log, limits);
    assert(wal::replay_start().applied + log_applied(log) =~= log_applied(log));
    lemma_cut_batch(b, st, seq, members, members.len(), k, limits);
}

/// A torn standalone frame at the end of a log is the end of the log, not an error.
pub proof fn lemma_torn_tail(log: Seq<Entry>, fr: FrameView, k: int, limits: ReadLimits)
    requires
        log_ok(log, limits),
        loggable(fr, limits),
        0 <= k < mutation_wire(fr, false).len(),
        log_frames(log) <= limits.max_wal_frames,
        log_wire(log).len() + mutation_wire(fr, false).len() <= u64::MAX,
    ensures
        wal::replay_from(
            log_wire(log) + mutation_wire(fr, false).take(k),
            wal::replay_start(),
            limits,
        ) matches Ok(st) && st.applied == log_applied(log) && st.off == log_wire(log).len(),
{
    let torn = mutation_wire(fr, false).take(k);
    let b = log_wire(log) + torn;
    assert(b.subrange(0, b.len() as int) =~= b);
    wal::lemma_frame_len(tag_of(fr, false), fr.seq, payload_of(fr));
    lemma_split(b, 0, log_wire(log), torn);
    let st = lemma_log(b, wal::replay_start(), log, limits);
    assert(wal::replay_start().applied + log_applied(log) =~= log_applied(log));
    lemma_torn(b, st, tag_of(fr, false), fr.seq, payload_of(fr), k, limits);
}

/// A replay never keeps more bytes or frames than the log has and the ceilings allow.
pub proof fn lemma_replay_bounds(b: Seq<u8>, st: ReplayView, limits: ReadLimits)
    requires
        st.off <= b.len(),
        st.physical <= limits.max_wal_frames,
        st.pending_start matches Some((off, frames)) ==> off <= st.off && frames <= st.physical,
        wal::replay_from(b, st, limits) is Ok,
    ensures
        ({
            let end = wal::replay_from(b, st, limits)->Ok_0;
            wal::valid_bytes(end) <= b.len() && wal::valid_frames(end) <= limits.max_wal_frames
        }),
    decreases b.len() - st.off,
{
    reveal(wal::replay_step);
    if let Ok(Some(next)) = wal::replay_step(b, st, limits) {
        if st.off < next.off <= b.len() {
            lemma_replay_bounds(b, next, limits);
        }
    }
}

} // verus!
