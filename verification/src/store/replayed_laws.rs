//! Laws of replay: it reads frames end to end, each under its own checksum; damage before later
//! bytes is refused; and what it keeps of a log replays as the whole log did.

use crate::hash;
use crate::read_limits::ReadLimits;
use crate::store::wal;
use crate::store::wal::{FrameView, ReplayView, WalError, CRC, HDR};
use vstd::bytes::*;
use vstd::prelude::*;

verus! {

/// One frame as it lies in a log: tag, sequence and payload.
pub type Framed = (u8, u64, Seq<u8>);

/// The bytes of frames, end to end.
pub open spec fn frames_wire(fs: Seq<Framed>) -> Seq<u8> {
    fs.fold_left(
        Seq::empty(),
        |b: Seq<u8>, f: Framed| b + wal::frame_wire(f.0, f.1, f.2),
    )
}

proof fn lemma_frames_push(fs: Seq<Framed>, f: Framed)
    ensures
        frames_wire(fs.push(f)) == frames_wire(fs) + wal::frame_wire(f.0, f.1, f.2),
        frames_wire(Seq::empty()) == Seq::<u8>::empty(),
{
    assert(fs.push(f).drop_last() =~= fs);
}

/// One step of a replay reads one whole frame, under its own checksum, with a tag that is known and
/// a payload that a reader admits.
pub proof fn lemma_step_reads_frame(b: Seq<u8>, st: ReplayView, limits: ReadLimits) -> (f: Framed)
    requires
        wal::replay_step(b, st, limits) matches Ok(Some(_)),
    ensures
        ({
            let next = (wal::replay_step(b, st, limits)->Ok_0)->0;
            &&& st.off < next.off <= b.len()
            &&& b.subrange(st.off as int, next.off as int) == wal::frame_wire(f.0, f.1, f.2)
            &&& wal::known_tag(f.0)
            &&& f.2.len() <= limits.max_stored_frame_bytes
            &&& f.2.len() <= limits.max_decoded_frame_bytes
            &&& next.physical == st.physical + 1
            &&& next.physical <= limits.max_wal_frames
            &&& next.off == st.off + HDR + f.2.len() + CRC
        }),
{
    reveal(wal::replay_step);
    lemma_auto_spec_u64_to_from_le_bytes();
    lemma_auto_spec_u32_to_from_le_bytes();
    let off = st.off as int;
    let hdr = b.subrange(off, off + HDR);
    let n = wal::header_len(hdr) as int;
    let payload = b.subrange(off + HDR, off + HDR + n);
    let tail = b.subrange(off + HDR + n, off + HDR + n + CRC);
    let (tag, seq) = (hdr[0], wal::header_seq(hdr));
    assert(hdr.subrange(9, 13).len() == 4 && hdr.subrange(1, 9).len() == 8 && tail.len() == 4);
    assert(wal::header_wire(tag, seq, n as u32) =~= hdr) by {
        assert(spec_u64_to_le_bytes(seq) == hdr.subrange(1, 9));
        assert(spec_u32_to_le_bytes(n as u32) == hdr.subrange(9, 13));
    }
    assert(payload.len() == n);
    assert(spec_u32_to_le_bytes(spec_u32_from_le_bytes(tail)) == tail);
    assert(hash::crc32_of(hdr + payload) == spec_u32_from_le_bytes(tail));
    let next = (wal::replay_step(b, st, limits)->Ok_0)->0;
    assert(b.subrange(off, off + HDR + n + CRC) =~= hdr + payload + tail);
    (tag, seq, payload)
}

/// What a replay reads of a log are frames end to end: from where it starts to where it stops the
/// log is the bytes of as many frames as it counted, each under its own checksum.
pub proof fn lemma_replay_reads_frames(b: Seq<u8>, st: ReplayView, limits: ReadLimits) -> (fs: Seq<
    Framed,
>)
    requires
        st.off <= b.len(),
        wal::replay_from(b, st, limits) is Ok,
    ensures
        ({
            let end = wal::replay_from(b, st, limits)->Ok_0;
            &&& st.off <= end.off <= b.len()
            &&& b.subrange(st.off as int, end.off as int) == frames_wire(fs)
            &&& end.physical == st.physical + fs.len()
            &&& forall|i: int| 0 <= i < fs.len() ==> wal::known_tag((#[trigger] fs[i]).0)
        }),
    decreases b.len() - st.off,
{
    lemma_frames_push(Seq::empty(), (0, 0, Seq::empty()));
    match wal::replay_step(b, st, limits) {
        Ok(Some(next)) => {
            let f = lemma_step_reads_frame(b, st, limits);
            let rest = lemma_replay_reads_frames(b, next, limits);
            let end = wal::replay_from(b, st, limits)->Ok_0;
            let fs = seq![f] + rest;
            lemma_frames_join(f, rest);
            assert(b.subrange(st.off as int, end.off as int) =~= b.subrange(
                st.off as int,
                next.off as int,
            ) + b.subrange(next.off as int, end.off as int));
            assert forall|i: int| 0 <= i < fs.len() implies wal::known_tag((#[trigger] fs[i]).0) by {
                if i > 0 {
                    assert(fs[i] == rest[i - 1]);
                }
            }
            fs
        },
        _ => {
            assert(b.subrange(st.off as int, st.off as int) =~= Seq::<u8>::empty());
            Seq::empty()
        },
    }
}

proof fn lemma_frames_join(f: Framed, rest: Seq<Framed>)
    ensures
        frames_wire(seq![f] + rest) == wal::frame_wire(f.0, f.1, f.2) + frames_wire(rest),
    decreases rest.len(),
{
    lemma_frames_push(Seq::empty(), f);
    if rest.len() == 0 {
        assert(seq![f] + rest =~= Seq::<Framed>::empty().push(f));
        assert(rest =~= Seq::<Framed>::empty());
        assert(frames_wire(seq![f] + rest) =~= wal::frame_wire(f.0, f.1, f.2) + frames_wire(rest));
    } else {
        let front = rest.drop_last();
        let last = rest.last();
        lemma_frames_join(f, front);
        assert(seq![f] + rest =~= (seq![f] + front).push(last));
        assert(rest =~= front.push(last));
        lemma_frames_push(seq![f] + front, last);
        lemma_frames_push(front, last);
        assert(frames_wire(seq![f] + rest) =~= wal::frame_wire(f.0, f.1, f.2) + frames_wire(rest));
    }
}

/// A frame whose checksum does not hold, with more bytes behind it, is damage: the replay is refused
/// there, and names the place. At the very end of a log it is where the log ends.
pub proof fn lemma_damage(
    b: Seq<u8>,
    st: ReplayView,
    limits: ReadLimits,
    payload: Seq<u8>,
    head: Seq<u8>,
    stored: Seq<u8>,
    later: Seq<u8>,
)
    requires
        head.len() == HDR,
        stored.len() == CRC,
        wal::header_len(head) == payload.len(),
        st.off <= b.len() <= u64::MAX,
        b.skip(st.off as int) == head + payload + stored + later,
        hash::crc32_of(head + payload) != spec_u32_from_le_bytes(stored),
        st.physical < limits.max_wal_frames,
        payload.len() <= limits.max_stored_frame_bytes,
        payload.len() <= limits.max_decoded_frame_bytes,
    ensures
        later.len() > 0 ==> wal::replay_from(b, st, limits) == Err::<ReplayView, WalError>(
            WalError::ChecksumBeforeLaterBytes { offset: st.off as u64, later: later.len() as u64 },
        ),
        later.len() == 0 ==> wal::replay_from(b, st, limits) == Ok::<ReplayView, WalError>(st),
{
    reveal(wal::replay_step);
    let off = st.off as int;
    let n = payload.len() as int;
    let whole = head + payload + stored + later;
    assert(b.skip(off).len() == b.len() - off);
    assert(whole.len() == HDR + n + CRC + later.len());
    assert forall|i: int| 0 <= i < whole.len() implies #[trigger] b[off + i] == whole[i] by {
        assert(b.skip(off)[i] == whole[i]);
    }
    assert(b.subrange(off, off + HDR) =~= head);
    assert(b.subrange(off + HDR, off + HDR + n) =~= payload) by {
        assert forall|i: int| 0 <= i < n implies b[off + HDR + i] == payload[i] by {
            assert(b[off + (HDR + i)] == whole[HDR + i]);
        }
    }
    assert(b.subrange(off + HDR + n, off + HDR + n + CRC) =~= stored) by {
        assert forall|i: int| 0 <= i < CRC implies b[off + HDR + n + i] == stored[i] by {
            assert(b[off + (HDR + n + i)] == whole[HDR + n + i]);
        }
    }
}

// ---------------------------------------------------------------------------------------------
// What is kept.
// ---------------------------------------------------------------------------------------------
/// Where a run of batch members waits, the state says where it began.
pub open spec fn coherent(st: ReplayView) -> bool {
    &&& st.pending.len() == 0 <==> st.pending_start is None
    &&& st.pending_start matches Some((off, frames)) ==> off < st.off && frames < st.physical
}

proof fn lemma_waiting(b: Seq<u8>, st: ReplayView, limits: ReadLimits)
    requires
        coherent(st),
        wal::replay_step(b, st, limits) matches Ok(Some(_)),
    ensures
        ({
            let next = (wal::replay_step(b, st, limits)->Ok_0)->0;
            &&& coherent(next)
            &&& next.off > st.off
            &&& next.pending_start matches Some((off, frames)) ==> {
                &&& next.applied == st.applied
                &&& off == wal::valid_bytes(st)
                &&& frames == wal::valid_frames(st)
            }
            &&& next.pending_start is None ==> wal::valid_bytes(next) == next.off
        }),
{
    reveal(wal::replay_step);
}

/// The kept length of a log is no less than what was kept before, and where it is the same nothing
/// was applied since.
proof fn lemma_kept(b: Seq<u8>, st: ReplayView, limits: ReadLimits)
    requires
        coherent(st),
        wal::replay_from(b, st, limits) is Ok,
    ensures
        ({
            let end = wal::replay_from(b, st, limits)->Ok_0;
            &&& coherent(end)
            &&& wal::valid_bytes(end) == wal::valid_bytes(st) || wal::valid_bytes(end) > st.off
            &&& wal::valid_bytes(end) == wal::valid_bytes(st) ==> end.applied == st.applied
        }),
    decreases b.len() - st.off,
{
    if let Ok(Some(next)) = wal::replay_step(b, st, limits) {
        lemma_waiting(b, st, limits);
        if next.off <= b.len() {
            lemma_kept(b, next, limits);
        }
    }
}

/// A step over a log is the same step over any shorter log that still holds the whole frame.
proof fn lemma_step_shorter(b: Seq<u8>, st: ReplayView, limits: ReadLimits, v: nat)
    requires
        v <= b.len(),
        wal::replay_step(b, st, limits) matches Ok(Some(_)),
        (wal::replay_step(b, st, limits)->Ok_0)->0.off <= v,
    ensures
        wal::replay_step(b.take(v as int), st, limits) == wal::replay_step(b, st, limits),
{
    let f = lemma_step_reads_frame(b, st, limits);
    reveal(wal::replay_step);
    let off = st.off as int;
    let c = b.take(v as int);
    let hdr = b.subrange(off, off + HDR);
    let n = wal::header_len(hdr) as int;
    assert(c.subrange(off, off + HDR) =~= hdr);
    let next = (wal::replay_step(b, st, limits)->Ok_0)->0;
    assert(next.off == off + HDR + n + CRC);
    assert(c.subrange(off + HDR, off + HDR + n) =~= b.subrange(off + HDR, off + HDR + n));
    assert(c.subrange(off + HDR + n, off + HDR + n + CRC) =~= b.subrange(
        off + HDR + n,
        off + HDR + n + CRC,
    ));
}

/// A log cut to what a replay keeps of it replays as the whole log did, and nothing waits in it: so
/// a cut loses nothing, and a second replay keeps it all.
pub proof fn lemma_kept_replays_same(b: Seq<u8>, st: ReplayView, limits: ReadLimits)
    requires
        coherent(st),
        st.off <= b.len(),
        wal::replay_from(b, st, limits) is Ok,
        wal::valid_bytes(wal::replay_from(b, st, limits)->Ok_0) >= st.off,
    ensures
        ({
            let end = wal::replay_from(b, st, limits)->Ok_0;
            let v = wal::valid_bytes(end);
            &&& v <= b.len()
            &&& wal::replay_from(b.take(v as int), st, limits) matches Ok(again)
                && again.applied == end.applied && again.off == v && wal::valid_bytes(again)
                == wal::valid_bytes(end)
        }),
    decreases b.len() - st.off,
{
    let end = wal::replay_from(b, st, limits)->Ok_0;
    let v = wal::valid_bytes(end);
    lemma_kept(b, st, limits);
    lemma_valid_inside(b, st, limits);
    let c = b.take(v as int);
    if v == st.off {
        // Nothing waits where the kept length is where the replay stands.
        assert(st.pending_start is None);
        assert(end.applied == st.applied);
        assert(wal::replay_step(c, st, limits) == Ok::<Option<ReplayView>, WalError>(None)) by {
            reveal(wal::replay_step);
        }
    } else {
        assert(wal::replay_step(b, st, limits) matches Ok(Some(_)));
        let next = (wal::replay_step(b, st, limits)->Ok_0)->0;
        let f = lemma_step_reads_frame(b, st, limits);
        lemma_waiting(b, st, limits);
        lemma_kept(b, next, limits);
        if v >= next.off {
            lemma_step_shorter(b, st, limits, v);
            lemma_kept_replays_same(b, next, limits);
        } else {
            assert(wal::valid_bytes(next) == wal::valid_bytes(st));
        }
    }
}

proof fn lemma_valid_inside(b: Seq<u8>, st: ReplayView, limits: ReadLimits)
    requires
        coherent(st),
        st.off <= b.len(),
        wal::replay_from(b, st, limits) is Ok,
    ensures
        wal::valid_bytes(wal::replay_from(b, st, limits)->Ok_0) <= b.len(),
    decreases b.len() - st.off,
{
    if let Ok(Some(next)) = wal::replay_step(b, st, limits) {
        lemma_waiting(b, st, limits);
        if next.off <= b.len() {
            lemma_valid_inside(b, next, limits);
        }
    }
}

/// A whole log, cut to what its replay keeps, replays as it did.
pub proof fn lemma_log_kept(b: Seq<u8>, limits: ReadLimits)
    requires
        wal::replay_from(b, wal::replay_start(), limits) is Ok,
    ensures
        ({
            let end = wal::replay_from(b, wal::replay_start(), limits)->Ok_0;
            let v = wal::valid_bytes(end);
            &&& v <= b.len()
            &&& wal::replay_from(b.take(v as int), wal::replay_start(), limits) matches Ok(again)
                && again.applied == end.applied && wal::valid_bytes(again) == v
        }),
{
    lemma_kept_replays_same(b, wal::replay_start(), limits);
}

// ---------------------------------------------------------------------------------------------
// Batches.
// ---------------------------------------------------------------------------------------------
/// Members of a batch wait: they are not applied when they arrive. A mutation of its own is applied
/// when it arrives, and gives up whatever waited.
pub proof fn lemma_arrives(st: ReplayView, f: FrameView, in_batch: bool, end: nat)
    ensures
        ({
            let next = wal::push_frame(st, f, in_batch, end);
            &&& in_batch ==> next.applied == st.applied && next.pending == st.pending.push(f)
            &&& !in_batch ==> next.applied == st.applied.push(f) && next.pending.len() == 0
            &&& next.off == end
        }),
{
}

/// A completion applies the members it counts, which arrived last before it and have its sequence,
/// in their order, and gives up any other that waited.
pub proof fn lemma_completes(st: ReplayView, seq: u64, payload: Seq<u8>, end: nat)
    requires
        wal::complete_batch(st, seq, payload, end) is Ok,
    ensures
        ({
            let next = wal::complete_batch(st, seq, payload, end)->Ok_0;
            let n = next.applied.len() - st.applied.len();
            &&& 1 <= n <= st.pending.len()
            &&& next.applied.take(st.applied.len() as int) == st.applied
            &&& next.applied.skip(st.applied.len() as int) == st.pending.skip(
                st.pending.len() - n,
            )
            &&& forall|i: int|
                st.pending.len() - n <= i < st.pending.len() ==> (#[trigger] st.pending[i]).seq
                    == seq
            &&& next.pending.len() == 0
        }),
{
    let next = wal::complete_batch(st, seq, payload, end)->Ok_0;
    let n = next.applied.len() - st.applied.len();
    assert(next.applied.take(st.applied.len() as int) =~= st.applied);
    assert(next.applied.skip(st.applied.len() as int) =~= st.pending.skip(st.pending.len() - n));
}

} // verus!
