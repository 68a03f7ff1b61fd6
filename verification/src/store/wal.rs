//! The write-ahead log: the point at which a write is accepted.
//!
//! ```text
//! frame:  tag(1) | seq(8) | len(4) | payload(len) | crc32(4)
//! ```
//!
//! A batch is its member frames followed by one completion frame. Replay applies the members
//! only when the completion frame arrived, so a batch replays whole or not at all.

use crate::bytes;
use crate::hash;
use crate::read_limits;
use crate::read_limits::{ReadAdmissionError, ReadLimits};
use crate::store::open;
use crate::store::wire;
use crate::store::wire::WireError;
use crate::types::{ContentView, PieceHash, Record, RecordView};
use crate::varint;
use crate::varint::VarintError;
use vstd::bytes::*;
use vstd::prelude::*;
use vstd::slice::slice_subrange;
use vstd::utf8::*;

pub use crate::store::wire::{decode_record, encode_record, CarvedRecord};

verus! {

/// A deletion. Its payload is the id alone.
pub const TOMB_TAG: u8 = 0xD1;

/// A batch completion. Its payload is the member count, checked against what precedes it.
pub const BATCH_COMPLETE_TAG: u8 = 0xD2;

/// A deletion inside a batch.
pub const BATCH_TOMB_TAG: u8 = 0xD3;

/// A record.
pub const RECORD_TAG: u8 = 0xD4;

/// A record inside a batch.
pub const BATCH_RECORD_TAG: u8 = 0xD5;

/// Bytes before a payload: tag, sequence and length.
pub const HDR: usize = 13;

/// Bytes after a payload.
pub const CRC: usize = 4;

/// A host writes the buffer out once it would hold this much.
pub const BUF_FLUSH: usize = 0x10_0000;

/// A carved record and whether it is a tombstone: the unit a batch frames.
pub type FramedRecord = (Record, Vec<(PieceHash, Vec<u8>)>, bool);

/// One replayed mutation.
#[derive(Debug, PartialEq, Eq)]
pub struct Frame {
    /// True when this frame deletes `record.id`. The record's content and attributes are empty.
    pub tomb: bool,
    pub seq: u64,
    pub record: Record,
    /// Identity and bytes of the pieces this frame introduced.
    pub novel: Vec<(PieceHash, Vec<u8>)>,
}

/// Why the log refuses a write, or a reader refuses the log.
#[derive(Clone, Copy, Debug, PartialEq, Eq, Structural)]
pub enum WalError {
    /// A payload exceeds the 32-bit length field.
    PayloadTooLarge,
    /// The frame counter would overflow.
    FrameCountOverflow,
    /// The log would outgrow its length counter or the address space.
    LengthOverflow,
    /// A read ceiling refuses the frame.
    Admission(ReadAdmissionError),
    /// A record cannot be logged, or a frame's payload is not a record.
    Wire(WireError),
    /// A deletion names no record.
    EmptyId,
    /// A batch has no members.
    EmptyBatch,
    /// A batched deletion carries more than an id.
    TombstonePayload,
    /// A frame fails its checksum although later bytes follow it.
    ChecksumBeforeLaterBytes { offset: u64, later: u64 },
    /// A frame checksums but has a tag this build does not know.
    UnknownTag(u8),
    /// A frame's end overflows the offset space.
    EndOverflow,
    /// A completion's member count cannot be read.
    MarkerCount(VarintError),
    /// Bytes follow a completion's member count.
    MarkerTrailing,
    /// A completion's member count exceeds the address space.
    MarkerTooLarge,
    /// A completion names zero members.
    MarkerEmpty,
    /// A completion names more members than precede it.
    MarkerUncovered,
    /// A completion's sequence differs from one or more member sequences.
    MarkerSequence,
    /// A deletion's id is not UTF-8.
    TombNotUtf8,
    /// A deletion's id is empty.
    TombEmpty,
    /// The replayed length runs past the file.
    ReplayBoundary,
}

/// View of a [`Frame`].
pub struct FrameView {
    pub tomb: bool,
    pub seq: u64,
    pub record: RecordView,
    pub novel: Seq<(Seq<u8>, Seq<u8>)>,
}

impl View for Frame {
    type V = FrameView;

    open spec fn view(&self) -> FrameView {
        FrameView {
            tomb: self.tomb,
            seq: self.seq,
            record: self.record@,
            novel: wire::novel_view(self.novel@),
        }
    }
}

/// Views of frames.
pub open spec fn frames_view(frames: Seq<Frame>) -> Seq<FrameView> {
    Seq::new(frames.len(), |i: int| frames[i]@)
}

/// A record that carries only an id.
pub open spec fn bare_record(id: Seq<char>) -> RecordView {
    RecordView { id, contents: Seq::empty(), attrs: Seq::empty() }
}

/// The header of a frame.
pub open spec fn header_wire(tag: u8, seq: u64, len: u32) -> Seq<u8> {
    seq![tag] + spec_u64_to_le_bytes(seq) + spec_u32_to_le_bytes(len)
}

/// A whole frame. The checksum covers the header as well as the payload.
pub open spec fn frame_wire(tag: u8, seq: u64, payload: Seq<u8>) -> Seq<u8> {
    let head = header_wire(tag, seq, payload.len() as u32);
    head + payload + spec_u32_to_le_bytes(hash::crc32_of(head + payload))
}

/// Whether replay knows a tag.
pub open spec fn known_tag(tag: u8) -> bool {
    tag == TOMB_TAG || tag == BATCH_COMPLETE_TAG || tag == BATCH_TOMB_TAG || tag == RECORD_TAG
        || tag == BATCH_RECORD_TAG
}

// ---------------------------------------------------------------------------------------------
// Replay, as a function of the log's bytes.
// ---------------------------------------------------------------------------------------------
/// Where replay stands: what was applied, which batch members wait for their completion, where
/// the waiting run began, and how far the log was read.
pub struct ReplayView {
    pub applied: Seq<FrameView>,
    pub pending: Seq<FrameView>,
    /// Byte offset and frame number of the first waiting member.
    pub pending_start: Option<(nat, nat)>,
    pub physical: nat,
    pub off: nat,
}

/// The state before the first byte.
pub open spec fn replay_start() -> ReplayView {
    ReplayView {
        applied: Seq::empty(),
        pending: Seq::empty(),
        pending_start: None,
        physical: 0,
        off: 0,
    }
}

/// The payload length a header announces.
pub open spec fn header_len(hdr: Seq<u8>) -> u32 {
    spec_u32_from_le_bytes(hdr.subrange(9, 13))
}

/// The sequence a header carries.
pub open spec fn header_seq(hdr: Seq<u8>) -> u64 {
    spec_u64_from_le_bytes(hdr.subrange(1, 9))
}

/// What a header at `off` allows: the end of the log (`None`), or a payload to read.
pub open spec fn header_verdict(
    hdr: Seq<u8>,
    off: nat,
    physical: nat,
    len: nat,
    limits: ReadLimits,
) -> Result<Option<nat>, WalError> {
    let plen = header_len(hdr) as nat;
    let end = off + HDR + plen + CRC;
    if end > u64::MAX {
        Err(WalError::EndOverflow)
    } else if end > len {
        Ok(None)
    } else if physical + 1 > limits.max_wal_frames {
        Err(
            WalError::Admission(
                ReadAdmissionError::TooManyWalFrames {
                    actual: (physical + 1) as u64,
                    allowed: limits.max_wal_frames,
                },
            ),
        )
    } else {
        match read_limits::frame_refusal(limits, plen as u64, plen as u64) {
            Some(e) => Err(WalError::Admission(e)),
            None => Ok(Some(plen)),
        }
    }
}

/// One mutation arrives. A member waits; a standalone frame abandons whatever waited.
pub open spec fn push_frame(st: ReplayView, fr: FrameView, in_batch: bool, end: nat) -> ReplayView {
    if in_batch {
        ReplayView {
            applied: st.applied,
            pending: st.pending.push(fr),
            pending_start: if st.pending.len() == 0 {
                Some((st.off, st.physical))
            } else {
                st.pending_start
            },
            physical: st.physical + 1,
            off: end,
        }
    } else {
        ReplayView {
            applied: st.applied.push(fr),
            pending: Seq::empty(),
            pending_start: None,
            physical: st.physical + 1,
            off: end,
        }
    }
}

/// A completion arrives: it applies the `n` members just before it, and abandons the others.
pub open spec fn complete_batch(st: ReplayView, seq: u64, payload: Seq<u8>, end: nat) -> Result<
    ReplayView,
    WalError,
> {
    match varint::read_varint(payload, 0) {
        Err(e) => Err(WalError::MarkerCount(e)),
        Ok((n, used)) => if used != payload.len() {
            Err(WalError::MarkerTrailing)
        } else if n > usize::MAX {
            Err(WalError::MarkerTooLarge)
        } else if n == 0 {
            Err(WalError::MarkerEmpty)
        } else if n > st.pending.len() {
            Err(WalError::MarkerUncovered)
        } else if exists|i: int|
            st.pending.len() - n <= i < st.pending.len() && (#[trigger] st.pending[i]).seq
                != seq {
            Err(WalError::MarkerSequence)
        } else {
            Ok(
                ReplayView {
                    applied: st.applied + st.pending.skip(st.pending.len() - n),
                    pending: Seq::empty(),
                    pending_start: None,
                    physical: st.physical + 1,
                    off: end,
                },
            )
        },
    }
}

/// A checksummed frame with a known tag arrives.
pub open spec fn apply_frame(
    st: ReplayView,
    tag: u8,
    seq: u64,
    payload: Seq<u8>,
    end: nat,
) -> Result<ReplayView, WalError> {
    if tag == BATCH_COMPLETE_TAG {
        complete_batch(st, seq, payload, end)
    } else if tag == TOMB_TAG || tag == BATCH_TOMB_TAG {
        if !valid_utf8(payload) {
            Err(WalError::TombNotUtf8)
        } else if payload.len() == 0 {
            Err(WalError::TombEmpty)
        } else {
            let fr = FrameView {
                tomb: true,
                seq,
                record: bare_record(decode_utf8(payload)),
                novel: Seq::empty(),
            };
            Ok(push_frame(st, fr, tag == BATCH_TOMB_TAG, end))
        }
    } else {
        match wire::read_record(payload) {
            Err(e) => Err(WalError::Wire(e)),
            Ok((record, novel)) => Ok(
                push_frame(
                    st,
                    FrameView { tomb: false, seq, record, novel },
                    tag == BATCH_RECORD_TAG,
                    end,
                ),
            ),
        }
    }
}

/// A complete frame was read: the log ends here (`None`), or replay moves on.
pub open spec fn frame_verdict(
    st: ReplayView,
    hdr: Seq<u8>,
    payload: Seq<u8>,
    stored: u32,
    len: nat,
) -> Result<Option<ReplayView>, WalError> {
    let end = st.off + HDR + payload.len() + CRC;
    if hash::crc32_of(hdr + payload) != stored {
        if end == len {
            Ok(None)
        } else {
            Err(
                WalError::ChecksumBeforeLaterBytes {
                    offset: st.off as u64,
                    later: (len - end) as u64,
                },
            )
        }
    } else if !known_tag(hdr[0]) {
        Err(WalError::UnknownTag(hdr[0]))
    } else {
        match apply_frame(st, hdr[0], header_seq(hdr), payload, end as nat) {
            Ok(next) => Ok(Some(next)),
            Err(e) => Err(e),
        }
    }
}

/// One step over the log's bytes.
#[verifier::opaque]
pub open spec fn replay_step(b: Seq<u8>, st: ReplayView, limits: ReadLimits) -> Result<
    Option<ReplayView>,
    WalError,
> {
    if b.len() - st.off < HDR + CRC {
        Ok(None)
    } else {
        let off = st.off as int;
        let hdr = b.subrange(off, off + HDR);
        match header_verdict(hdr, st.off, st.physical, b.len(), limits) {
            Err(e) => Err(e),
            Ok(None) => Ok(None),
            Ok(Some(plen)) => frame_verdict(
                st,
                hdr,
                b.subrange(off + HDR, off + HDR + plen),
                spec_u32_from_le_bytes(b.subrange(off + HDR + plen, off + HDR + plen + CRC)),
                b.len(),
            ),
        }
    }
}

/// Replay from a state to the end of the log.
pub open spec fn replay_from(b: Seq<u8>, st: ReplayView, limits: ReadLimits) -> Result<
    ReplayView,
    WalError,
>
    decreases b.len() - st.off,
{
    match replay_step(b, st, limits) {
        Err(e) => Err(e),
        Ok(None) => Ok(st),
        Ok(Some(next)) => if st.off < next.off <= b.len() {
            replay_from(b, next, limits)
        } else {
            Ok(st)
        },
    }
}

/// The length of the log that is worth keeping: a waiting run at the end never completed.
pub open spec fn valid_bytes(st: ReplayView) -> nat {
    match st.pending_start {
        Some((off, frames)) => off,
        None => st.off,
    }
}

/// The frames in that length.
pub open spec fn valid_frames(st: ReplayView) -> nat {
    match st.pending_start {
        Some((off, frames)) => frames,
        None => st.physical,
    }
}

/// A replay in progress.
pub struct Replay {
    applied: Vec<Frame>,
    pending: Vec<Frame>,
    pending_start: Option<(u64, u64)>,
    physical: u64,
    off: u64,
}

/// What a completed replay found.
pub struct ReplayState {
    pub frames: Vec<Frame>,
    pub physical_frames: u64,
    pub valid_bytes: u64,
}

impl Replay {
    /// Frames are at least seventeen bytes, so the counter stays below the offset.
    pub closed spec fn wf(self) -> bool {
        self.physical * 17 <= self.off
    }

    /// The state this replay is in.
    pub closed spec fn state(self) -> ReplayView {
        ReplayView {
            applied: frames_view(self.applied@),
            pending: frames_view(self.pending@),
            pending_start: match self.pending_start {
                Some((off, frames)) => Some((off as nat, frames as nat)),
                None => None,
            },
            physical: self.physical as nat,
            off: self.off as nat,
        }
    }

    /// A replay that has read nothing.
    pub fn new() -> (r: Replay)
        ensures
            r.wf(),
            r.state() == replay_start(),
    {
        let r = Replay {
            applied: Vec::new(),
            pending: Vec::new(),
            pending_start: None,
            physical: 0,
            off: 0,
        };
        assert(frames_view(r.applied@) =~= Seq::<FrameView>::empty());
        r
    }

    /// Where the next frame would begin.
    pub fn offset(&self) -> (r: u64)
        ensures
            r == self.state().off,
    {
        self.off
    }

    /// Judge a header before its payload is read. `None` ends the log.
    pub fn header(&self, hdr: &[u8], len: u64, limits: &ReadLimits) -> (r: Result<
        Option<u32>,
        WalError,
    >)
        requires
            self.wf(),
            hdr@.len() == HDR,
            self.state().off + HDR + CRC <= len,
        ensures
            match r {
                Ok(Some(n)) => header_verdict(
                    hdr@,
                    self.state().off,
                    self.state().physical,
                    len as nat,
                    *limits,
                ) == Ok::<Option<nat>, WalError>(Some(n as nat)),
                Ok(None) => header_verdict(
                    hdr@,
                    self.state().off,
                    self.state().physical,
                    len as nat,
                    *limits,
                ) == Ok::<Option<nat>, WalError>(None),
                Err(e) => header_verdict(
                    hdr@,
                    self.state().off,
                    self.state().physical,
                    len as nat,
                    *limits,
                ) == Err::<Option<nat>, WalError>(e),
            },
    {
        let plen: u32 = u32_from_le_bytes(slice_subrange(hdr, 9, 13));
        let end: u64 = match self.off.checked_add(17) {
            Some(e) => match e.checked_add(plen as u64) {
                Some(e) => e,
                None => {
                    return Err(WalError::EndOverflow);
                },
            },
            None => {
                return Err(WalError::EndOverflow);
            },
        };
        if end > len {
            return Ok(None);
        }
        match limits.admit_wal_frames(self.physical + 1) {
            Ok(()) => {},
            Err(e) => {
                return Err(WalError::Admission(e));
            },
        }
        match limits.admit_frame(plen as u64, plen as u64) {
            Ok(()) => Ok(Some(plen)),
            Err(e) => Err(WalError::Admission(e)),
        }
    }

    fn push(&mut self, fr: Frame, in_batch: bool, end: u64)
        requires
            old(self).wf(),
            old(self).state().off + 17 <= end,
        ensures
            final(self).wf(),
            final(self).state() == push_frame(old(self).state(), fr@, in_batch, end as nat),
    {
        let ghost before = self.state();
        let ghost v = fr@;
        if in_batch {
            if self.pending.len() == 0 {
                self.pending_start = Some((self.off, self.physical));
            }
            self.pending.push(fr);
            assert(frames_view(self.pending@) =~= before.pending.push(v));
        } else {
            self.pending.clear();
            self.pending_start = None;
            self.applied.push(fr);
            assert(frames_view(self.applied@) =~= before.applied.push(v));
            assert(frames_view(self.pending@) =~= Seq::<FrameView>::empty());
        }
        self.physical = self.physical + 1;
        self.off = end;
    }

    fn complete(&mut self, seq: u64, payload: &[u8], end: u64) -> (r: Result<(), WalError>)
        requires
            old(self).wf(),
            old(self).state().off + 17 <= end,
        ensures
            final(self).wf(),
            match r {
                Ok(()) => complete_batch(old(self).state(), seq, payload@, end as nat) == Ok::<
                    ReplayView,
                    WalError,
                >(final(self).state()),
                Err(e) => complete_batch(old(self).state(), seq, payload@, end as nat) == Err::<
                    ReplayView,
                    WalError,
                >(e) && final(self).state() == old(self).state(),
            },
    {
        let ghost before = self.state();
        let mut at: usize = 0;
        assert(payload@.skip(0) =~= payload@);
        let n: u64 = match varint::get_varint(payload, &mut at) {
            Ok(n) => n,
            Err(e) => {
                return Err(WalError::MarkerCount(e));
            },
        };
        if at != payload.len() {
            return Err(WalError::MarkerTrailing);
        }
        if n > usize::MAX as u64 {
            return Err(WalError::MarkerTooLarge);
        }
        if n == 0 {
            return Err(WalError::MarkerEmpty);
        }
        if n as usize > self.pending.len() {
            return Err(WalError::MarkerUncovered);
        }
        let start: usize = self.pending.len() - n as usize;
        let mut i: usize = start;
        while i < self.pending.len()
            invariant
                start <= i <= self.pending@.len(),
                start == self.pending@.len() - n,
                *self == *old(self),
                self.wf(),
                before == self.state(),
                varint::read_varint(payload@, 0) == Ok::<(nat, nat), VarintError>(
                    (n as nat, payload@.len()),
                ),
                0 < n <= usize::MAX,
                forall|k: int| start <= k < i ==> (#[trigger] before.pending[k]).seq == seq,
            decreases self.pending.len() - i,
        {
            if self.pending[i].seq != seq {
                assert(before.pending[i as int].seq != seq);
                return Err(WalError::MarkerSequence);
            }
            i = i + 1;
        }
        let mut run = self.pending.split_off(start);
        let ghost tail = run@;
        self.applied.append(&mut run);
        self.pending.clear();
        self.pending_start = None;
        self.physical = self.physical + 1;
        self.off = end;
        proof {
            assert(frames_view(tail) =~= before.pending.skip(start as int));
            assert(frames_view(self.applied@) =~= before.applied + before.pending.skip(
                start as int,
            ));
            assert(frames_view(self.pending@) =~= Seq::<FrameView>::empty());
        }
        Ok(())
    }

    /// Take a complete frame. `false` ends the log at a torn final frame.
    pub fn accept(&mut self, hdr: &[u8], payload: &[u8], stored: u32, len: u64) -> (r: Result<
        bool,
        WalError,
    >)
        requires
            old(self).wf(),
            hdr@.len() == HDR,
            old(self).state().off + HDR + payload@.len() + CRC <= len,
        ensures
            final(self).wf(),
            match r {
                Ok(true) => frame_verdict(
                    old(self).state(),
                    hdr@,
                    payload@,
                    stored,
                    len as nat,
                ) == Ok::<Option<ReplayView>, WalError>(Some(final(self).state())),
                Ok(false) => frame_verdict(
                    old(self).state(),
                    hdr@,
                    payload@,
                    stored,
                    len as nat,
                ) == Ok::<Option<ReplayView>, WalError>(None) && final(self).state() == old(self).state(),
                Err(e) => frame_verdict(
                    old(self).state(),
                    hdr@,
                    payload@,
                    stored,
                    len as nat,
                ) == Err::<Option<ReplayView>, WalError>(e) && final(self).state() == old(self).state(),
            },
    {
        let end: u64 = self.off + 13 + payload.len() as u64 + 4;
        let mut covered: Vec<u8> = Vec::new();
        bytes::append_bytes(&mut covered, hdr);
        bytes::append_bytes(&mut covered, payload);
        assert(covered@ =~= hdr@ + payload@);
        if hash::crc32(covered.as_slice()) != stored {
            if end == len {
                return Ok(false);
            }
            return Err(WalError::ChecksumBeforeLaterBytes { offset: self.off, later: len - end });
        }
        let tag: u8 = hdr[0];
        let seq: u64 = u64_from_le_bytes(slice_subrange(hdr, 1, 9));
        if tag == BATCH_COMPLETE_TAG {
            match self.complete(seq, payload, end) {
                Ok(()) => Ok(true),
                Err(e) => Err(e),
            }
        } else if tag == TOMB_TAG || tag == BATCH_TOMB_TAG {
            match bytes::utf8_text(payload) {
                None => Err(WalError::TombNotUtf8),
                Some(id) => {
                    if payload.len() == 0 {
                        return Err(WalError::TombEmpty);
                    }
                    proof {
                        encode_utf8_decode_utf8(id@);
                    }
                    let record = Record { id, contents: Vec::new(), attrs: Vec::new() };
                    let novel: Vec<(PieceHash, Vec<u8>)> = Vec::new();
                    proof {
                        assert(record@.contents =~= Seq::<ContentView>::empty());
                        assert(record@.attrs =~= Seq::empty());
                        assert(wire::novel_view(novel@) =~= Seq::empty());
                    }
                    self.push(Frame { tomb: true, seq, record, novel }, tag == BATCH_TOMB_TAG, end);
                    Ok(true)
                },
            }
        } else if tag == RECORD_TAG || tag == BATCH_RECORD_TAG {
            match wire::decode_record(payload) {
                Err(e) => Err(WalError::Wire(e)),
                Ok((record, novel)) => {
                    self.push(
                        Frame { tomb: false, seq, record, novel },
                        tag == BATCH_RECORD_TAG,
                        end,
                    );
                    Ok(true)
                },
            }
        } else {
            Err(WalError::UnknownTag(tag))
        }
    }

    /// What the replay found.
    pub fn finish(self) -> (r: ReplayState)
        ensures
            frames_view(r.frames@) == self.state().applied,
            r.valid_bytes == valid_bytes(self.state()),
            r.physical_frames == valid_frames(self.state()),
    {
        let (valid_bytes, physical_frames): (u64, u64) = match self.pending_start {
            Some((off, frames)) => (off, frames),
            None => (self.off, self.physical),
        };
        ReplayState { frames: self.applied, physical_frames, valid_bytes }
    }
}

// ---------------------------------------------------------------------------------------------
// Writing.
// ---------------------------------------------------------------------------------------------
/// The log as its writer sees it: how much the file holds, and which accepted frames a host has
/// not written out yet.
pub struct Wal {
    file_len: u64,
    buf: Vec<u8>,
    frame_count: u64,
    read_limits: ReadLimits,
}

/// The payload a batch member has.
pub open spec fn member_payload(
    payload: Seq<u8>,
    r: RecordView,
    novel: Seq<(Seq<u8>, Seq<u8>)>,
    tomb: bool,
) -> bool {
    if tomb {
        payload == encode_utf8(r.id)
    } else {
        wire::encodes(payload, r, novel)
    }
}

/// A payload that fits its length field, of digests that have their size.
pub open spec fn member_fits(
    payload: Seq<u8>,
    r: RecordView,
    novel: Seq<(Seq<u8>, Seq<u8>)>,
    tomb: bool,
) -> bool {
    &&& payload.len() <= u32::MAX
    &&& !tomb ==> wire::contents_sized(r.contents) && wire::novel_sized(novel)
}

/// The tag of a batch member.
pub open spec fn member_tag(tomb: bool) -> u8 {
    if tomb {
        BATCH_TOMB_TAG
    } else {
        BATCH_RECORD_TAG
    }
}

/// The frames of batch members with the given payloads.
pub open spec fn members_wire(
    items: Seq<(RecordView, Seq<(Seq<u8>, Seq<u8>)>, bool)>,
    seq: u64,
    payloads: Seq<Seq<u8>>,
) -> Seq<u8>
    decreases payloads.len(),
{
    if payloads.len() == 0 {
        Seq::empty()
    } else {
        let k = payloads.len() - 1;
        members_wire(items, seq, payloads.drop_last()) + frame_wire(
            member_tag(items[k].2),
            seq,
            payloads.last(),
        )
    }
}

/// Views of batch members.
pub open spec fn items_view(items: Seq<FramedRecord>) -> Seq<
    (RecordView, Seq<(Seq<u8>, Seq<u8>)>, bool),
> {
    Seq::new(items.len(), |i: int| (items[i].0@, wire::novel_view(items[i].1@), items[i].2))
}

/// Why one batch member is refused before anything is buffered.
pub open spec fn member_fault(
    r: RecordView,
    novel: Seq<(Seq<u8>, Seq<u8>)>,
    tomb: bool,
) -> Option<WalError> {
    if r.id.len() == 0 {
        Some(WalError::EmptyId)
    } else if tomb {
        if r.contents.len() > 0 || r.attrs.len() > 0 || novel.len() > 0 {
            Some(WalError::TombstonePayload)
        } else {
            None
        }
    } else {
        match wire::wal_fault(r, novel) {
            Some(e) => Some(WalError::Wire(e)),
            None => None,
        }
    }
}

/// The first refusal among batch members.
pub open spec fn batch_fault(
    items: Seq<(RecordView, Seq<(Seq<u8>, Seq<u8>)>, bool)>,
) -> Option<WalError>
    decreases items.len(),
{
    if items.len() == 0 {
        None
    } else {
        match member_fault(items[0].0, items[0].1, items[0].2) {
            Some(e) => Some(e),
            None => batch_fault(items.drop_first()),
        }
    }
}

/// Why a number of further frames is refused.
pub open spec fn frames_refusal(count: nat, additional: nat, limits: ReadLimits) -> Option<
    WalError,
> {
    if count + additional > u64::MAX {
        Some(WalError::FrameCountOverflow)
    } else if count + additional > limits.max_wal_frames {
        Some(
            WalError::Admission(
                ReadAdmissionError::TooManyWalFrames {
                    actual: (count + additional) as u64,
                    allowed: limits.max_wal_frames,
                },
            ),
        )
    } else {
        None
    }
}

impl Wal {
    /// Bytes the file holds.
    pub closed spec fn written(self) -> nat {
        self.file_len as nat
    }

    /// Accepted frames that are not in the file yet.
    pub closed spec fn buffered(self) -> Seq<u8> {
        self.buf@
    }

    /// Frames in the log.
    pub closed spec fn frames(self) -> nat {
        self.frame_count as nat
    }

    /// The ceilings the log's readers will apply.
    pub closed spec fn limits(self) -> ReadLimits {
        self.read_limits
    }

    /// The log's length fits its counter.
    pub open spec fn wf(self) -> bool {
        self.written() + self.buffered().len() <= u64::MAX
    }

    /// Continue a log after replay, and say whether the file must first be cut back to the
    /// replayed length.
    pub fn open_recovered(
        read_limits: ReadLimits,
        frame_count: u64,
        valid_bytes: u64,
        file_len: u64,
    ) -> (r: Result<(Wal, bool), WalError>)
        ensures
            match r {
                Ok((wal, cut)) => {
                    &&& wal.wf()
                    &&& frame_count <= read_limits.max_wal_frames
                    &&& valid_bytes <= file_len
                    &&& cut == (valid_bytes < file_len)
                    &&& wal.written() == valid_bytes
                    &&& wal.buffered() == Seq::<u8>::empty()
                    &&& wal.frames() == frame_count
                    &&& wal.limits() == read_limits
                },
                Err(e) => if frame_count > read_limits.max_wal_frames {
                    e == WalError::Admission(
                        ReadAdmissionError::TooManyWalFrames {
                            actual: frame_count,
                            allowed: read_limits.max_wal_frames,
                        },
                    )
                } else {
                    valid_bytes > file_len && e == WalError::ReplayBoundary
                },
            },
    {
        match read_limits.admit_wal_frames(frame_count) {
            Ok(()) => {},
            Err(e) => {
                return Err(WalError::Admission(e));
            },
        }
        if valid_bytes > file_len {
            return Err(WalError::ReplayBoundary);
        }
        let wal = Wal { file_len: valid_bytes, buf: Vec::new(), frame_count, read_limits };
        Ok((wal, valid_bytes < file_len))
    }

    /// Whether `additional` frames may still be logged.
    pub fn admit_additional_frames(&self, additional: u64) -> (r: Result<(), WalError>)
        ensures
            match r {
                Ok(()) => frames_refusal(self.frames(), additional as nat, self.limits()) is None,
                Err(e) => frames_refusal(self.frames(), additional as nat, self.limits()) == Some(
                    e,
                ),
            },
    {
        match self.frame_count.checked_add(additional) {
            None => Err(WalError::FrameCountOverflow),
            Some(proposed) => match self.read_limits.admit_wal_frames(proposed) {
                Ok(()) => Ok(()),
                Err(e) => Err(WalError::Admission(e)),
            },
        }
    }

    /// Frames in the log.
    pub fn frame_count(&self) -> (r: u64)
        ensures
            r == self.frames(),
    {
        self.frame_count
    }

    /// Bytes in the log, written out or not.
    pub fn bytes(&self) -> (r: u64)
        requires
            self.wf(),
        ensures
            r == self.written() + self.buffered().len(),
    {
        self.file_len + self.buf.len() as u64
    }

    /// Where and what a host has to write so that the file holds every accepted frame.
    pub fn unflushed(&self) -> (r: (u64, &[u8]))
        ensures
            r.0 == self.written(),
            r.1@ == self.buffered(),
    {
        (self.file_len, self.buf.as_slice())
    }

    /// The bytes of [`Wal::unflushed`] are in the file.
    pub fn flushed(&mut self)
        requires
            old(self).wf(),
        ensures
            final(self).wf(),
            final(self).written() == old(self).written() + old(self).buffered().len(),
            final(self).buffered() == Seq::<u8>::empty(),
            final(self).frames() == old(self).frames(),
            final(self).limits() == old(self).limits(),
    {
        self.file_len = self.file_len + self.buf.len() as u64;
        self.buf.clear();
    }

    /// Whether the buffer is to be written out before a frame with this payload is accepted.
    ///
    /// Only frames whose append already succeeded are in the buffer, so a failed write can never
    /// make the frame at hand surface later.
    pub fn flush_due(&self, payload_len: usize) -> (r: bool)
        ensures
            r == (self.buffered().len() > 0 && self.buffered().len() + HDR + payload_len + CRC
                >= BUF_FLUSH),
    {
        if self.buf.len() == 0 {
            return false;
        }
        if self.buf.len() >= BUF_FLUSH || payload_len >= BUF_FLUSH {
            return true;
        }
        self.buf.len() + HDR + payload_len + CRC >= BUF_FLUSH
    }

    /// Drop every frame, once the records they cover are committed in a part.
    pub fn truncate(&mut self)
        ensures
            final(self).wf(),
            final(self).written() == 0,
            final(self).buffered() == Seq::<u8>::empty(),
            final(self).frames() == 0,
            final(self).limits() == old(self).limits(),
    {
        self.buf.clear();
        self.file_len = 0;
        self.frame_count = 0;
    }

    /// Frame `payload` under `tag` and append it.
    pub fn append_frame(&mut self, tag: u8, seq: u64, payload: &[u8]) -> (r: Result<(), WalError>)
        requires
            old(self).wf(),
        ensures
            final(self).wf(),
            final(self).limits() == old(self).limits(),
            final(self).written() == old(self).written(),
            match r {
                Ok(()) => {
                    &&& payload@.len() <= u32::MAX
                    &&& frames_refusal(old(self).frames(), 1, old(self).limits()) is None
                    &&& final(self).buffered() == old(self).buffered() + frame_wire(
                        tag,
                        seq,
                        payload@,
                    )
                    &&& final(self).frames() == old(self).frames() + 1
                },
                Err(e) => {
                    &&& final(self).buffered() == old(self).buffered()
                    &&& final(self).frames() == old(self).frames()
                    &&& if payload@.len() > u32::MAX {
                        e == WalError::PayloadTooLarge
                    } else {
                        match frames_refusal(old(self).frames(), 1, old(self).limits()) {
                            Some(f) => e == f,
                            None => {
                                &&& e == WalError::LengthOverflow
                                &&& {
                                    ||| old(self).buffered().len() + HDR + payload@.len() + CRC
                                        > usize::MAX
                                    ||| old(self).written() + old(self).buffered().len() + HDR
                                        + payload@.len() + CRC > u64::MAX
                                }
                            },
                        }
                    }
                },
            },
    {
        if payload.len() as u64 > u32::MAX as u64 {
            return Err(WalError::PayloadTooLarge);
        }
        match self.admit_additional_frames(1) {
            Ok(()) => {},
            Err(e) => {
                return Err(e);
            },
        }
        let frame_len: u64 = 13 + payload.len() as u64 + 4;
        let total: u64 = match (self.file_len + self.buf.len() as u64).checked_add(frame_len) {
            Some(t) => t,
            None => {
                return Err(WalError::LengthOverflow);
            },
        };
        if total - self.file_len > usize::MAX as u64 {
            return Err(WalError::LengthOverflow);
        }
        let ghost before = self.buf@;
        let mut head: Vec<u8> = Vec::new();
        head.push(tag);
        let seq_le = u64_to_le_bytes(seq);
        bytes::append_bytes(&mut head, seq_le.as_slice());
        let len_le = u32_to_le_bytes(payload.len() as u32);
        bytes::append_bytes(&mut head, len_le.as_slice());
        assert(head@ =~= header_wire(tag, seq, payload@.len() as u32));
        bytes::append_bytes(&mut head, payload);
        let checksum: u32 = hash::crc32(head.as_slice());
        let crc_le = u32_to_le_bytes(checksum);
        bytes::append_bytes(&mut self.buf, head.as_slice());
        bytes::append_bytes(&mut self.buf, crc_le.as_slice());
        self.frame_count = self.frame_count + 1;
        proof {
            assert(self.buf@ =~= before + frame_wire(tag, seq, payload@));
            lemma_frame_len(tag, seq, payload@);
        }
        Ok(())
    }

    /// Log a deletion.
    pub fn append_tomb(&mut self, seq: u64, id: &str) -> (r: Result<(), WalError>)
        requires
            old(self).wf(),
        ensures
            final(self).wf(),
            final(self).limits() == old(self).limits(),
            final(self).written() == old(self).written(),
            match r {
                Ok(()) => {
                    &&& id@.len() > 0
                    &&& encode_utf8(id@).len() <= u32::MAX
                    &&& final(self).buffered() == old(self).buffered() + frame_wire(
                        TOMB_TAG,
                        seq,
                        encode_utf8(id@),
                    )
                    &&& final(self).frames() == old(self).frames() + 1
                },
                Err(e) => {
                    &&& final(self).buffered() == old(self).buffered()
                    &&& final(self).frames() == old(self).frames()
                    &&& if id@.len() == 0 {
                        e == WalError::EmptyId
                    } else {
                        append_refusal(*old(self), encode_utf8(id@).len(), e)
                    }
                },
            },
    {
        if id.is_empty() {
            return Err(WalError::EmptyId);
        }
        self.append_frame(TOMB_TAG, seq, id.as_bytes())
    }

    /// Log a record with its novel pieces.
    pub fn append(&mut self, seq: u64, r: &Record, novel: &[(PieceHash, Vec<u8>)]) -> (res: Result<
        (),
        WalError,
    >)
        requires
            old(self).wf(),
        ensures
            final(self).wf(),
            final(self).limits() == old(self).limits(),
            final(self).written() == old(self).written(),
            match res {
                Ok(()) => {
                    &&& wire::wal_fault(r@, wire::novel_view(novel@)) is None
                    &&& wire::all_identified(r@.contents)
                    &&& final(self).frames() == old(self).frames() + 1
                    &&& exists|payload: Seq<u8>| #[trigger]
                        wire::encodes(payload, r@, wire::novel_view(novel@)) && member_fits(
                            payload,
                            r@,
                            wire::novel_view(novel@),
                            false,
                        ) && final(self).buffered() == old(self).buffered() + frame_wire(
                            RECORD_TAG,
                            seq,
                            payload,
                        )
                },
                Err(e) => {
                    &&& final(self).buffered() == old(self).buffered()
                    &&& final(self).frames() == old(self).frames()
                    &&& match wire::wal_fault(r@, wire::novel_view(novel@)) {
                        Some(f) => e == WalError::Wire(f),
                        None => if !wire::all_identified(r@.contents) {
                            e == WalError::Wire(WireError::MissingIdentity)
                        } else {
                            exists|payload: Seq<u8>| #[trigger]
                                wire::encodes(payload, r@, wire::novel_view(novel@))
                                    && append_refusal(*old(self), payload.len(), e)
                        },
                    }
                },
            },
    {
        let mut scratch: Vec<u8> = Vec::new();
        match wire::encode_record(&mut scratch, r, novel) {
            Ok(()) => {
                assert(scratch@.skip(0) =~= scratch@);
                self.append_frame(RECORD_TAG, seq, scratch.as_slice())
            },
            Err(e) => Err(WalError::Wire(e)),
        }
    }

    fn validate_batch(items: &[FramedRecord]) -> (r: Result<(), WalError>)
        ensures
            match r {
                Ok(()) => batch_fault(items_view(items@)) is None,
                Err(e) => batch_fault(items_view(items@)) == Some(e),
            },
    {
        let ghost all = items_view(items@);
        let mut i: usize = 0;
        assert(all.skip(0) =~= all);
        while i < items.len()
            invariant
                i <= items@.len(),
                all == items_view(items@),
                batch_fault(all) == batch_fault(all.skip(i as int)),
            decreases items.len() - i,
        {
            let ghost v = (
                items@[i as int].0@,
                wire::novel_view(items@[i as int].1@),
                items@[i as int].2,
            );
            assert(all.skip(i as int)[0] == v);
            assert(all.skip(i as int).drop_first() =~= all.skip(i + 1));
            let item = &items[i];
            if item.0.id.as_str().is_empty() {
                return Err(WalError::EmptyId);
            }
            if item.2 {
                if item.0.contents.len() > 0 || item.0.attrs.len() > 0 || item.1.len() > 0 {
                    return Err(WalError::TombstonePayload);
                }
            } else {
                match wire::validate_record_for_wal(&item.0, item.1.as_slice()) {
                    Ok(()) => {},
                    Err(e) => {
                        return Err(WalError::Wire(e));
                    },
                }
            }
            i = i + 1;
        }
        Ok(())
    }

    /// Append records and tombstones as one atomic unit: the members, then the completion frame.
    ///
    /// An invalid member is refused before anything is buffered. A failure after that leaves some
    /// member frames without their completion, which replay discards.
    pub fn append_batch(&mut self, seq: u64, items: &[FramedRecord]) -> (r: Result<(), WalError>)
        requires
            old(self).wf(),
        ensures
            final(self).wf(),
            final(self).limits() == old(self).limits(),
            final(self).written() == old(self).written(),
            match r {
                Ok(()) => {
                    &&& items@.len() > 0
                    &&& batch_fault(items_view(items@)) is None
                    &&& final(self).frames() == old(self).frames() + items@.len() + 1
                    &&& exists|payloads: Seq<Seq<u8>>|
                        {
                            &&& payloads.len() == items@.len()
                            &&& #[trigger] batch_payloads(items_view(items@), payloads)
                            &&& batch_fits(items_view(items@), payloads)
                            &&& final(self).buffered() == old(self).buffered() + members_wire(
                                items_view(items@),
                                seq,
                                payloads,
                            ) + frame_wire(
                                BATCH_COMPLETE_TAG,
                                seq,
                                varint::varint(items@.len()),
                            )
                        }
                },
                Err(e) => if items@.len() == 0 {
                    &&& e == WalError::EmptyBatch
                    &&& final(self).buffered() == old(self).buffered()
                    &&& final(self).frames() == old(self).frames()
                } else {
                    match batch_fault(items_view(items@)) {
                        Some(f) => {
                            &&& e == f
                            &&& final(self).buffered() == old(self).buffered()
                            &&& final(self).frames() == old(self).frames()
                        },
                        None => match frames_refusal(
                            old(self).frames(),
                            items@.len() + 1,
                            old(self).limits(),
                        ) {
                            Some(f) => {
                                &&& e == f
                                &&& final(self).buffered() == old(self).buffered()
                                &&& final(self).frames() == old(self).frames()
                            },
                            None => {
                                &&& e == WalError::PayloadTooLarge || e == WalError::LengthOverflow
                                    || e == WalError::Wire(WireError::MissingIdentity)
                                &&& exists|payloads: Seq<Seq<u8>>|
                                    {
                                        &&& payloads.len() <= items@.len()
                                        &&& #[trigger] batch_payloads(items_view(items@), payloads)
                                        &&& final(self).frames() == old(self).frames()
                                            + payloads.len()
                                        &&& final(self).buffered() == old(self).buffered()
                                            + members_wire(items_view(items@), seq, payloads)
                                    }
                            },
                        },
                    }
                },
            },
    {
        if items.len() == 0 {
            return Err(WalError::EmptyBatch);
        }
        match Self::validate_batch(items) {
            Ok(()) => {},
            Err(e) => {
                return Err(e);
            },
        }
        let count: u64 = match (items.len() as u64).checked_add(1) {
            Some(c) => c,
            None => {
                return Err(WalError::FrameCountOverflow);
            },
        };
        match self.admit_additional_frames(count) {
            Ok(()) => {},
            Err(e) => {
                return Err(e);
            },
        }
        let ghost all = items_view(items@);
        let ghost before = self.buffered();
        let ghost frames = self.frames();
        let ghost mut payloads: Seq<Seq<u8>> = Seq::empty();
        let mut i: usize = 0;
        assert(before + members_wire(all, seq, payloads) =~= before);
        while i < items.len()
            invariant
                i <= items@.len(),
                items@.len() > 0,
                all == items_view(items@),
                batch_fault(all) is None,
                payloads.len() == i,
                batch_payloads(all, payloads),
                batch_fits(all, payloads),
                self.wf(),
                self.limits() == old(self).limits(),
                self.written() == old(self).written(),
                before == old(self).buffered(),
                frames == old(self).frames(),
                frames_refusal(old(self).frames(), items@.len() + 1, old(self).limits()) is None,
                self.frames() == frames + i,
                self.buffered() == before + members_wire(all, seq, payloads),
            decreases items.len() - i,
        {
            let item = &items[i];
            let mut scratch: Vec<u8> = Vec::new();
            if item.2 {
                bytes::append_bytes(&mut scratch, item.0.id.as_str().as_bytes());
                assert(scratch@ =~= encode_utf8(item.0.id@));
            } else {
                match wire::encode_record(&mut scratch, &item.0, item.1.as_slice()) {
                    Ok(()) => {
                        assert(scratch@.skip(0) =~= scratch@);
                    },
                    Err(e) => {
                        proof {
                            lemma_batch_fault_member(all, i as int);
                        }
                        return Err(WalError::Wire(e));
                    },
                }
            }
            let tag: u8 = if item.2 {
                BATCH_TOMB_TAG
            } else {
                BATCH_RECORD_TAG
            };
            match self.append_frame(tag, seq, scratch.as_slice()) {
                Ok(()) => {},
                Err(e) => {
                    return Err(e);
                },
            }
            proof {
                let next = payloads.push(scratch@);
                assert(next.drop_last() =~= payloads);
                assert(before + members_wire(all, seq, next) =~= self.buffered());
                assert(member_payload(scratch@, all[i as int].0, all[i as int].1, all[i as int].2));
                assert(member_fits(scratch@, all[i as int].0, all[i as int].1, all[i as int].2));
                payloads = next;
            }
            i = i + 1;
        }
        let mut marker: Vec<u8> = Vec::new();
        varint::put_varint(&mut marker, items.len() as u64);
        assert(marker@ =~= varint::varint(items@.len()));
        self.append_frame(BATCH_COMPLETE_TAG, seq, marker.as_slice())
    }

    /// Every intact, completed mutation of a log, in order, and how much of the log to keep.
    ///
    /// The log ends at a structurally short tail or at a final frame that fails its checksum:
    /// both are what a crash leaves. A failing frame before later bytes, an unknown frame that
    /// checksums, and every malformed payload refuse the log.
    pub fn replay_state_with_limits(b: &[u8], limits: &ReadLimits) -> (r: Result<
        ReplayState,
        WalError,
    >)
        ensures
            match r {
                Ok(s) => {
                    &&& replay_from(b@, replay_start(), *limits) matches Ok(st)
                    &&& frames_view(s.frames@) == st.applied
                    &&& s.valid_bytes == valid_bytes(st)
                    &&& s.physical_frames == valid_frames(st)
                },
                Err(e) => replay_from(b@, replay_start(), *limits) == Err::<ReplayView, WalError>(
                    e,
                ),
            },
    {
        reveal(replay_step);
        let mut replay = Replay::new();
        let len: u64 = b.len() as u64;
        let mut open = true;
        while open && len - replay.offset() >= 17
            invariant
                len == b@.len(),
                replay.wf(),
                replay.state().off <= len,
                if open {
                    replay_from(b@, replay_start(), *limits) == replay_from(
                        b@,
                        replay.state(),
                        *limits,
                    )
                } else {
                    replay_from(b@, replay_start(), *limits) == Ok::<ReplayView, WalError>(
                        replay.state(),
                    )
                },
            decreases len - replay.state().off + if open { 1int } else { 0int },
        {
            reveal(replay_step);
            assert(replay.state().off + 17 <= b.len());
            let off: usize = replay.offset() as usize;
            let hdr = slice_subrange(b, off, off + 13);
            match replay.header(hdr, len, limits) {
                Err(e) => {
                    return Err(e);
                },
                Ok(None) => {
                    open = false;
                },
                Ok(Some(plen)) => {
                    let n: usize = plen as usize;
                    let payload = slice_subrange(b, off + 13, off + 13 + n);
                    let stored: u32 = u32_from_le_bytes(
                        slice_subrange(b, off + 13 + n, off + 13 + n + 4),
                    );
                    match replay.accept(hdr, payload, stored, len) {
                        Err(e) => {
                            return Err(e);
                        },
                        Ok(more) => {
                            if !more {
                                open = false;
                            }
                        },
                    }
                },
            }
        }
        Ok(replay.finish())
    }

    /// [`Wal::replay_state_with_limits`] under the default ceilings, keeping the mutations only.
    pub fn replay(b: &[u8]) -> (r: Result<Vec<Frame>, WalError>)
        ensures
            match r {
                Ok(frames) => {
                    &&& replay_from(b@, replay_start(), open::default_limits()) matches Ok(st)
                    &&& frames_view(frames@) == st.applied
                },
                Err(e) => replay_from(b@, replay_start(), open::default_limits()) == Err::<
                    ReplayView,
                    WalError,
                >(e),
            },
    {
        let limits = ReadLimits::default();
        Self::replay_with_limits(b, &limits)
    }

    /// Replay with explicit frame-byte and frame-count ceilings.
    pub fn replay_with_limits(b: &[u8], limits: &ReadLimits) -> (r: Result<Vec<Frame>, WalError>)
        ensures
            match r {
                Ok(frames) => {
                    &&& replay_from(b@, replay_start(), *limits) matches Ok(st)
                    &&& frames_view(frames@) == st.applied
                },
                Err(e) => replay_from(b@, replay_start(), *limits) == Err::<ReplayView, WalError>(
                    e,
                ),
            },
    {
        match Self::replay_state_with_limits(b, limits) {
            Ok(s) => Ok(s.frames),
            Err(e) => Err(e),
        }
    }
}

/// Why a frame of that payload length is refused.
pub open spec fn append_refusal(wal: Wal, payload_len: nat, e: WalError) -> bool {
    if payload_len > u32::MAX {
        e == WalError::PayloadTooLarge
    } else {
        match frames_refusal(wal.frames(), 1, wal.limits()) {
            Some(f) => e == f,
            None => {
                &&& e == WalError::LengthOverflow
                &&& {
                    ||| wal.buffered().len() + HDR + payload_len + CRC > usize::MAX
                    ||| wal.written() + wal.buffered().len() + HDR + payload_len + CRC > u64::MAX
                }
            },
        }
    }
}

/// Each payload fits, and its member's digests have their size.
pub open spec fn batch_fits(
    items: Seq<(RecordView, Seq<(Seq<u8>, Seq<u8>)>, bool)>,
    payloads: Seq<Seq<u8>>,
) -> bool {
    forall|i: int|
        0 <= i < payloads.len() ==> member_fits(
            #[trigger] payloads[i],
            items[i].0,
            items[i].1,
            items[i].2,
        )
}

/// Each payload is that of its member.
pub open spec fn batch_payloads(
    items: Seq<(RecordView, Seq<(Seq<u8>, Seq<u8>)>, bool)>,
    payloads: Seq<Seq<u8>>,
) -> bool {
    forall|i: int|
        0 <= i < payloads.len() ==> member_payload(
            #[trigger] payloads[i],
            items[i].0,
            items[i].1,
            items[i].2,
        )
}

pub proof fn lemma_batch_fault_member(
    items: Seq<(RecordView, Seq<(Seq<u8>, Seq<u8>)>, bool)>,
    i: int,
)
    requires
        batch_fault(items) is None,
        0 <= i < items.len(),
    ensures
        member_fault(items[i].0, items[i].1, items[i].2) is None,
    decreases items.len(),
{
    if i > 0 {
        lemma_batch_fault_member(items.drop_first(), i - 1);
    }
}

/// A frame is seventeen bytes longer than its payload.
pub proof fn lemma_frame_len(tag: u8, seq: u64, payload: Seq<u8>)
    ensures
        header_wire(tag, seq, payload.len() as u32).len() == HDR,
        frame_wire(tag, seq, payload).len() == HDR + payload.len() + CRC,
{
    lemma_auto_spec_u64_to_from_le_bytes();
    lemma_auto_spec_u32_to_from_le_bytes();
}

} // verus!
