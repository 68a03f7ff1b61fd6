//! A verification in progress: the units of a container's verification, and what they found.
//!
//! Windows over one member run in order. A unit that fails leaves the verification as it was, so
//! the host can fetch what is missing and run the same unit again.

use crate::bytes;
use crate::container;
use crate::container::{ContainerView, MemberView};
use crate::fold;
use crate::fold::{BlockView, FoldError, FoldView};
use crate::hash;
use crate::part;
use crate::part::{PartError, PartView};
use crate::read_limits::ReadAdmissionError;
use crate::store::artifact;
use crate::store::audit;
use crate::store::audit::ValueFault;
use crate::store::chain;
use crate::store::chain::ChainError;
use crate::store::checksum::PunchedError;
use crate::store::manifest;
use crate::store::manifest::PartRefView;
use crate::store::members;
use crate::store::names;
use crate::store::names::SEG_HDR_LEN;
use crate::store::namespace;
use crate::store::open;
use crate::store::open::{OpenError, ReadStoreView};
use crate::store::read;
use crate::store::verify;
use crate::store::verify::{Authority, WINDOW_BYTES};
use crate::text;
use vstd::prelude::*;
use vstd::utf8::*;

verus! {

/// One bounded act of verification.
#[allow(inconsistent_fields)]
#[derive(Debug, PartialEq, Eq)]
pub enum VerifyUnit {
    /// One window of a member's bytes into the checksum the container recorded.
    MemberChecksum { member: String, start: u64, stop: u64 },
    /// The retained revisions hold together and agree with the current one. No part bytes.
    ManifestChain,
    /// One window of a part into the digest that every revision naming it pinned.
    PartDigest { member: String, start: u64, stop: u64 },
    /// One section of a part.
    PartSection { member: String, section: usize },
    /// Every row of a part.
    PartGrammar { member: String },
    /// Every entry of a part's dictionary reads as its piece, but for what was given up.
    PartPieces { member: String, authority: Authority },
    /// The frames of one window of a fold segment.
    FoldFrames { seg: u32, start: u64, stop: u64 },
    /// Every value of some of the visible rows of an authority's part.
    Content { authority: Authority, part: usize, start: usize, stop: usize },
}

/// View of a [`VerifyUnit`].
#[allow(inconsistent_fields)]
pub enum UnitView {
    MemberChecksum { member: Seq<char>, start: u64, stop: u64 },
    ManifestChain,
    PartDigest { member: Seq<char>, start: u64, stop: u64 },
    PartSection { member: Seq<char>, section: usize },
    PartGrammar { member: Seq<char> },
    PartPieces { member: Seq<char>, authority: Authority },
    FoldFrames { seg: u32, start: u64, stop: u64 },
    Content { authority: Authority, part: usize, start: usize, stop: usize },
}

impl View for VerifyUnit {
    type V = UnitView;

    open spec fn view(&self) -> UnitView {
        match self {
            VerifyUnit::MemberChecksum { member, start, stop } => UnitView::MemberChecksum {
                member: member@,
                start: *start,
                stop: *stop,
            },
            VerifyUnit::ManifestChain => UnitView::ManifestChain,
            VerifyUnit::PartDigest { member, start, stop } => UnitView::PartDigest {
                member: member@,
                start: *start,
                stop: *stop,
            },
            VerifyUnit::PartSection { member, section } => UnitView::PartSection {
                member: member@,
                section: *section,
            },
            VerifyUnit::PartGrammar { member } => UnitView::PartGrammar { member: member@ },
            VerifyUnit::PartPieces { member, authority } => UnitView::PartPieces {
                member: member@,
                authority: *authority,
            },
            VerifyUnit::FoldFrames { seg, start, stop } => UnitView::FoldFrames {
                seg: *seg,
                start: *start,
                stop: *stop,
            },
            VerifyUnit::Content { authority, part, start, stop } => UnitView::Content {
                authority: *authority,
                part: *part,
                start: *start,
                stop: *stop,
            },
        }
    }
}

/// Views of units.
pub open spec fn units_view(units: Seq<VerifyUnit>) -> Seq<UnitView> {
    Seq::new(units.len(), |i: int| units[i]@)
}

/// A unit's kind as one stable word.
pub open spec fn unit_kind(u: UnitView) -> Seq<char> {
    match u {
        UnitView::MemberChecksum { .. } => "memberChecksum"@,
        UnitView::ManifestChain => "manifestChain"@,
        UnitView::PartDigest { .. } => "partDigest"@,
        UnitView::PartSection { .. } => "partSection"@,
        UnitView::PartGrammar { .. } => "partGrammar"@,
        UnitView::PartPieces { .. } => "partPieces"@,
        UnitView::FoldFrames { .. } => "foldFrames"@,
        UnitView::Content { .. } => "content"@,
    }
}

impl VerifyUnit {
    /// The unit's kind as one stable word, for a host that reports progress.
    pub fn kind(&self) -> (r: &'static str)
        ensures
            r@ == unit_kind(self@),
    {
        match self {
            VerifyUnit::MemberChecksum { .. } => "memberChecksum",
            VerifyUnit::ManifestChain => "manifestChain",
            VerifyUnit::PartDigest { .. } => "partDigest",
            VerifyUnit::PartSection { .. } => "partSection",
            VerifyUnit::PartGrammar { .. } => "partGrammar",
            VerifyUnit::PartPieces { .. } => "partPieces",
            VerifyUnit::FoldFrames { .. } => "foldFrames",
            VerifyUnit::Content { .. } => "content",
        }
    }
}

/// Why a unit does not hold.
#[allow(inconsistent_fields)]
#[derive(Clone, Copy, Debug, PartialEq, Eq, Structural)]
pub enum VerifyError {
    /// There are more members than a reader may enumerate.
    Directory { error: ReadAdmissionError },
    /// The store does not open.
    Open { error: OpenError },
    /// Which checksums no longer apply is unknown.
    Punched { error: PunchedError },
    /// A retained revision does not open.
    RetainedOpen { commit: u64, error: OpenError },
    /// There is no such unit.
    NoUnit,
    /// The window before it has not run.
    OutOfOrder,
    /// The container does not hold the member.
    NoMember,
    /// The member's bytes fail the recorded checksum.
    Checksum,
    Chain { error: ChainError },
    /// A part's bytes are not what a revision pinned; zero stands for the current one.
    Drifted { commit: u64 },
    /// A part does not decode.
    Unreadable,
    Rows { error: PartError },
    Dictionary { error: FoldError },
    /// A segment's frames do not reach exactly to its end.
    Frames { seg: u32 },
    /// There is no such authority, or no such part of it.
    NoPart,
    Value { fault: ValueFault },
    /// Units are left: the evidence is scoped to those that ran.
    Incomplete { done: usize, total: usize },
}

// ---------------------------------------------------------------------------------------------
// What is verified.
// ---------------------------------------------------------------------------------------------
/// A container, and the authorities in it.
pub struct EnvView {
    pub c: ContainerView,
    pub current: ReadStoreView,
    pub retained: Seq<(u64, ReadStoreView)>,
    /// Every part that some revision names, in order.
    pub names: Seq<Seq<char>>,
}

/// The view of an authority.
pub open spec fn authority_view(e: EnvView, a: Authority) -> Option<ReadStoreView> {
    match a {
        Authority::Current => Some(e.current),
        Authority::Retained(commit) => retained_at(e.retained, commit),
    }
}

/// The view of a retained revision.
pub open spec fn retained_at(retained: Seq<(u64, ReadStoreView)>, commit: u64) -> Option<
    ReadStoreView,
>
    decreases retained.len(),
{
    if retained.len() == 0 {
        None
    } else if retained[0].0 == commit {
        Some(retained[0].1)
    } else {
        retained_at(retained.drop_first(), commit)
    }
}

/// The part a member decodes to.
pub open spec fn part_at(ms: Seq<MemberView>, name: Seq<char>) -> Option<PartView> {
    match container::position_of(ms, name) {
        Some(i) => ms[i].part,
        None => None,
    }
}

/// Whether a member's recorded checksum no longer applies: the current revision gave up a block
/// in it.
pub open spec fn exempt(s: ReadStoreView, name: Seq<char>) -> bool {
    exists|i: int|
        0 <= i < s.fold.blocks.len() && i <= u32::MAX && fold::in_ranges(s.fold.punched, i as u32)
            && name == text::chars(
            names::segment_name(s.manifest.fold_gen, (#[trigger] s.fold.blocks[i]).segment),
        )
}

/// Whether one of the first `n` references pins a member to other bytes.
pub open spec fn refs_drift(refs: Seq<PartRefView>, member: Seq<char>, link: Seq<u8>, n: nat) -> bool
    decreases n,
{
    if n == 0 {
        false
    } else {
        refs_drift(refs, member, link, (n - 1) as nat) || (refs[n - 1].member == member
            && encode_utf8(refs[n - 1].b3) != link)
    }
}

/// How many of the first `n` references name a member.
pub open spec fn refs_named(refs: Seq<PartRefView>, member: Seq<char>, n: nat) -> nat
    decreases n,
{
    if n == 0 {
        0
    } else {
        refs_named(refs, member, (n - 1) as nat) + if refs[n - 1].member == member {
            1nat
        } else {
            0
        }
    }
}

/// The first of the first `n` retained revisions that pins a member to other bytes.
pub open spec fn retained_drift(
    retained: Seq<(u64, ReadStoreView)>,
    member: Seq<char>,
    link: Seq<u8>,
    n: nat,
) -> Option<u64>
    decreases n,
{
    if n == 0 {
        None
    } else {
        match retained_drift(retained, member, link, (n - 1) as nat) {
            Some(commit) => Some(commit),
            None => {
                let refs = retained[n - 1].1.manifest.parts;
                if refs_drift(refs, member, link, refs.len()) {
                    Some(retained[n - 1].0)
                } else {
                    None
                }
            },
        }
    }
}

/// How often the first `n` retained revisions name a member.
pub open spec fn retained_named(retained: Seq<(u64, ReadStoreView)>, member: Seq<char>, n: nat) -> nat
    decreases n,
{
    if n == 0 {
        0
    } else {
        let refs = retained[n - 1].1.manifest.parts;
        retained_named(retained, member, (n - 1) as nat) + refs_named(refs, member, refs.len())
    }
}

/// The revision that pins a member to other bytes. Without retained revisions the current one
/// pins, and is given as zero.
pub open spec fn drift(e: EnvView, member: Seq<char>, link: Seq<u8>) -> Option<u64> {
    if e.retained.len() > 0 {
        retained_drift(e.retained, member, link, e.retained.len())
    } else {
        let refs = e.current.manifest.parts;
        if refs_drift(refs, member, link, refs.len()) {
            Some(0)
        } else {
            None
        }
    }
}

/// How many pins a member has.
pub open spec fn pins(e: EnvView, member: Seq<char>) -> nat {
    if e.retained.len() > 0 {
        retained_named(e.retained, member, e.retained.len())
    } else {
        let refs = e.current.manifest.parts;
        refs_named(refs, member, refs.len())
    }
}

/// What is wrong first with the values of the first `n` rows of a list.
pub open spec fn rows_value_fault(
    s: ReadStoreView,
    p: int,
    rows: Seq<usize>,
    retained: bool,
    n: nat,
) -> Option<ValueFault>
    decreases n,
{
    if n == 0 {
        None
    } else {
        match rows_value_fault(s, p, rows, retained, (n - 1) as nat) {
            Some(e) => Some(e),
            None => audit::row_value_fault(s.parts, s.fold, p, rows[n - 1] as int, retained),
        }
    }
}

/// The visible rows of a part that a window covers.
pub open spec fn window_rows(s: ReadStoreView, p: int, start: usize, stop: usize) -> Seq<usize> {
    let all = read::live_rows(s.parts, p, s.parts[p].rows.len());
    if start <= stop <= all.len() {
        all.subrange(start as int, stop as int)
    } else {
        Seq::empty()
    }
}

/// What is wrong with what a unit checks.
pub open spec fn unit_fault(e: EnvView, u: UnitView) -> Option<VerifyError> {
    let ms = e.c.members;
    match u {
        UnitView::MemberChecksum { member, start: _, stop } => match container::position_of(
            ms,
            member,
        ) {
            None => Some(VerifyError::NoMember),
            Some(i) => if stop == ms[i].bytes.len() && hash::crc32_of(ms[i].bytes) != ms[i].checksum {
                Some(VerifyError::Checksum)
            } else {
                None
            },
        },
        UnitView::ManifestChain => match chain::chain_fault(e.c, false) {
            Some(error) => Some(VerifyError::Chain { error }),
            None => None,
        },
        UnitView::PartDigest { member, start: _, stop } => match container::position_of(
            ms,
            member,
        ) {
            None => Some(VerifyError::NoMember),
            Some(i) => if stop == ms[i].bytes.len() {
                match drift(e, member, manifest::link(ms[i].bytes)) {
                    Some(commit) => Some(VerifyError::Drifted { commit }),
                    None => None,
                }
            } else {
                None
            },
        },
        UnitView::PartSection { member, section: _ } => if part_at(ms, member) is None {
            Some(VerifyError::Unreadable)
        } else {
            None
        },
        UnitView::PartGrammar { member } => match part_at(ms, member) {
            None => Some(VerifyError::Unreadable),
            Some(p) => match part::rows_fault(p.rows, p.rows.len()) {
                Some(error) => Some(VerifyError::Rows { error }),
                None => None,
            },
        },
        UnitView::PartPieces { member, authority } => match (
            part_at(ms, member),
            authority_view(e, authority),
        ) {
            (Some(p), Some(s)) => match audit::dictionary_fault(
                s.fold,
                p.pieces,
                p.pieces.len(),
            ) {
                Some(error) => Some(VerifyError::Dictionary { error }),
                None => None,
            },
            _ => Some(VerifyError::NoPart),
        },
        UnitView::FoldFrames { seg, start: _, stop } => match segment_len(
            e.current.fold.segments,
            seg,
        ) {
            Some(len) if stop < len || artifact::frames_end(
                e.current.fold.blocks,
                seg,
                e.current.fold.blocks.len(),
            ) == len => None,
            _ => Some(VerifyError::Frames { seg }),
        },
        UnitView::Content { authority, part, start, stop } => match authority_view(e, authority) {
            Some(s) => if part < s.parts.len() {
                let rows = window_rows(s, part as int, start, stop);
                match rows_value_fault(
                    s,
                    part as int,
                    rows,
                    authority is Retained,
                    rows.len(),
                ) {
                    Some(fault) => Some(VerifyError::Value { fault }),
                    None => None,
                }
            } else {
                Some(VerifyError::NoPart)
            },
            None => Some(VerifyError::NoPart),
        },
    }
}

// ---------------------------------------------------------------------------------------------
// The plan.
// ---------------------------------------------------------------------------------------------
/// Checksum windows of a member.
pub open spec fn checksum_units(member: Seq<char>, windows: Seq<(u64, u64)>) -> Seq<UnitView> {
    Seq::new(
        windows.len(),
        |i: int|
            UnitView::MemberChecksum { member, start: windows[i].0, stop: windows[i].1 },
    )
}

/// Digest windows of a part.
pub open spec fn digest_units(member: Seq<char>, windows: Seq<(u64, u64)>) -> Seq<UnitView> {
    Seq::new(
        windows.len(),
        |i: int| UnitView::PartDigest { member, start: windows[i].0, stop: windows[i].1 },
    )
}

/// Units for the sections of a part.
pub open spec fn section_units(member: Seq<char>, n: nat) -> Seq<UnitView> {
    Seq::new(n, |i: int| UnitView::PartSection { member, section: i as usize })
}

/// Units for the checksums of the first `n` members.
pub open spec fn member_units(e: EnvView, n: nat) -> Seq<UnitView>
    decreases n,
{
    if n == 0 {
        Seq::empty()
    } else {
        let m = e.c.members[n - 1];
        let before = member_units(e, (n - 1) as nat);
        if exempt(e.current, m.name) {
            before
        } else {
            before + checksum_units(m.name, verify::windows_of(0, m.bytes.len() as u64))
        }
    }
}

/// Units for one part.
pub open spec fn one_part_units(ms: Seq<MemberView>, name: Seq<char>) -> Seq<UnitView> {
    match container::position_of(ms, name) {
        None => Seq::empty(),
        Some(i) => digest_units(name, verify::windows_of(0, ms[i].bytes.len() as u64))
            + section_units(
            name,
            match ms[i].part {
                Some(p) => p.sections as nat,
                None => 0,
            },
        ) + seq![UnitView::PartGrammar { member: name }],
    }
}

/// Units for the first `n` parts.
pub open spec fn part_units(e: EnvView, n: nat) -> Seq<UnitView>
    decreases n,
{
    if n == 0 {
        Seq::empty()
    } else {
        part_units(e, (n - 1) as nat) + one_part_units(e.c.members, e.names[n - 1])
    }
}

/// Units for the dictionaries of the first `n` parts of an authority.
pub open spec fn piece_units(refs: Seq<PartRefView>, authority: Authority, n: nat) -> Seq<UnitView> {
    Seq::new(n, |i: int| UnitView::PartPieces { member: refs[i].member, authority })
}

/// The frame windows of a segment over the first `n` blocks: those that are full, where the open
/// one begins, and where it ends so far.
pub open spec fn frames_among(blocks: Seq<BlockView>, seg: u32, n: nat) -> (Seq<UnitView>, u64, u64)
    decreases n,
{
    if n == 0 {
        (Seq::empty(), SEG_HDR_LEN, SEG_HDR_LEN)
    } else {
        let (before, start, end) = frames_among(blocks, seg, (n - 1) as nat);
        if blocks[n - 1].segment != seg {
            (before, start, end)
        } else if end >= start && end - start >= WINDOW_BYTES {
            (
                before.push(UnitView::FoldFrames { seg, start, stop: end }),
                end,
                blocks[n - 1].end,
            )
        } else {
            (before, start, blocks[n - 1].end)
        }
    }
}

/// Units for the frames of a segment. The last window always exists, and reaches to the segment's
/// end.
pub open spec fn segment_units(blocks: Seq<BlockView>, seg: u32, len: u64) -> Seq<UnitView> {
    let (full, start, _) = frames_among(blocks, seg, blocks.len());
    full.push(
        UnitView::FoldFrames {
            seg,
            start,
            stop: if len > start {
                len
            } else {
                start
            },
        },
    )
}

/// Units for the frames of the first `n` segments.
pub open spec fn frame_units(f: FoldView, n: nat) -> Seq<UnitView>
    decreases n,
{
    if n == 0 {
        Seq::empty()
    } else {
        frame_units(f, (n - 1) as nat) + segment_units(
            f.blocks,
            f.segments[n - 1].0,
            f.segments[n - 1].1,
        )
    }
}

/// The length of a segment.
pub open spec fn segment_len(segments: Seq<(u32, u64)>, seg: u32) -> Option<u64>
    decreases segments.len(),
{
    if segments.len() == 0 {
        None
    } else if segments[0].0 == seg {
        Some(segments[0].1)
    } else {
        segment_len(segments.drop_first(), seg)
    }
}

/// Content windows of a part.
pub open spec fn window_units(authority: Authority, part: usize, windows: Seq<(nat, nat)>) -> Seq<
    UnitView,
> {
    Seq::new(
        windows.len(),
        |i: int|
            UnitView::Content {
                authority,
                part,
                start: windows[i].0 as usize,
                stop: windows[i].1 as usize,
            },
    )
}

/// Units for the content of an authority's first `n` parts.
pub open spec fn content_units(s: ReadStoreView, authority: Authority, n: nat) -> Seq<UnitView>
    decreases n,
{
    if n == 0 {
        Seq::empty()
    } else {
        let live = read::live_rows(s.parts, n - 1, s.parts[n - 1].rows.len());
        content_units(s, authority, (n - 1) as nat) + window_units(
            authority,
            (n - 1) as usize,
            verify::row_tiles(0, live.len()),
        )
    }
}

/// Units for the first `n` retained revisions.
pub open spec fn retained_units(e: EnvView, n: nat) -> Seq<UnitView>
    decreases n,
{
    if n == 0 {
        Seq::empty()
    } else {
        let (commit, s) = e.retained[n - 1];
        let a = Authority::Retained(commit);
        let refs = s.manifest.parts;
        retained_units(e, (n - 1) as nat) + piece_units(refs, a, refs.len()) + content_units(
            s,
            a,
            s.parts.len(),
        )
    }
}

/// The units of a verification, in the order windows run.
#[verifier::opaque]
pub open spec fn plan_of(e: EnvView) -> Seq<UnitView> {
    let refs = e.current.manifest.parts;
    let f = e.current.fold;
    member_units(e, e.c.members.len()) + seq![UnitView::ManifestChain] + part_units(
        e,
        e.names.len(),
    ) + piece_units(refs, Authority::Current, refs.len()) + frame_units(f, f.segments.len())
        + content_units(e.current, Authority::Current, e.current.parts.len()) + retained_units(
        e,
        e.retained.len(),
    )
}

// ---------------------------------------------------------------------------------------------
// What units find.
// ---------------------------------------------------------------------------------------------
/// What units counted.
pub struct Found {
    pub digests: nat,
    pub sections: nat,
    pub segments: nat,
    pub blocks: nat,
    pub fold_bytes: nat,
    pub records: nat,
    pub values: nat,
    pub bytes: nat,
}

/// Nothing.
pub open spec fn nothing() -> Found {
    Found {
        digests: 0,
        sections: 0,
        segments: 0,
        blocks: 0,
        fold_bytes: 0,
        records: 0,
        values: 0,
        bytes: 0,
    }
}

/// One count and another.
pub open spec fn joined(a: Found, b: Found) -> Found {
    Found {
        digests: a.digests + b.digests,
        sections: a.sections + b.sections,
        segments: a.segments + b.segments,
        blocks: a.blocks + b.blocks,
        fold_bytes: a.fold_bytes + b.fold_bytes,
        records: a.records + b.records,
        values: a.values + b.values,
        bytes: a.bytes + b.bytes,
    }
}

/// Whether a window holds a block's frame.
pub open spec fn frame_in(b: BlockView, seg: u32, start: u64, stop: u64) -> bool {
    b.segment == seg && start < b.end <= stop
}

/// How many of the first `n` blocks have their frame in a window.
pub open spec fn window_blocks(
    blocks: Seq<BlockView>,
    seg: u32,
    start: u64,
    stop: u64,
    n: nat,
) -> nat
    decreases n,
{
    if n == 0 {
        0
    } else {
        window_blocks(blocks, seg, start, stop, (n - 1) as nat) + if frame_in(
            blocks[n - 1],
            seg,
            start,
            stop,
        ) {
            1nat
        } else {
            0
        }
    }
}

/// How many bytes the blocks with their frame in a window decode to, among the first `n`.
pub open spec fn window_decoded(
    blocks: Seq<BlockView>,
    seg: u32,
    start: u64,
    stop: u64,
    n: nat,
) -> nat
    decreases n,
{
    if n == 0 {
        0
    } else {
        window_decoded(blocks, seg, start, stop, (n - 1) as nat) + if frame_in(
            blocks[n - 1],
            seg,
            start,
            stop,
        ) {
            blocks[n - 1].bytes.len()
        } else {
            0
        }
    }
}

/// What the first `n` rows of a list hold.
pub open spec fn rows_found(s: ReadStoreView, p: int, rows: Seq<usize>, n: nat) -> Found
    decreases n,
{
    if n == 0 {
        nothing()
    } else {
        let contents = s.parts[p].rows[rows[n - 1] as int].record->0.contents;
        joined(
            rows_found(s, p, rows, (n - 1) as nat),
            Found {
                records: 1,
                values: contents.len(),
                bytes: audit::record_bytes(s.parts[p], s.fold, contents, contents.len()),
                ..nothing()
            },
        )
    }
}

/// What a unit counts. Only the current authority's content counts.
pub open spec fn unit_found(e: EnvView, u: UnitView) -> Found {
    let ms = e.c.members;
    let blocks = e.current.fold.blocks;
    match u {
        UnitView::PartDigest { member, start: _, stop } => match container::position_of(
            ms,
            member,
        ) {
            Some(i) => if stop == ms[i].bytes.len() {
                Found { digests: pins(e, member), ..nothing() }
            } else {
                nothing()
            },
            None => nothing(),
        },
        UnitView::PartSection { member, section: _ } => if namespace::names_part(
            e.current.manifest,
            member,
        ) {
            Found { sections: 1, ..nothing() }
        } else {
            nothing()
        },
        UnitView::FoldFrames { seg, start, stop } => Found {
            segments: if segment_len(e.current.fold.segments, seg) == Some(stop) {
                1
            } else {
                0
            },
            blocks: window_blocks(blocks, seg, start, stop, blocks.len()),
            fold_bytes: window_decoded(blocks, seg, start, stop, blocks.len()),
            ..nothing()
        },
        UnitView::Content { authority, part, start, stop } => if authority == Authority::Current {
            let rows = window_rows(e.current, part as int, start, stop);
            rows_found(e.current, part as int, rows, rows.len())
        } else {
            nothing()
        },
        _ => nothing(),
    }
}

/// What those of the first `n` units found that ran.
pub open spec fn found_among(e: EnvView, units: Seq<UnitView>, done: Seq<bool>, n: nat) -> Found
    decreases n,
{
    if n == 0 {
        nothing()
    } else {
        let before = found_among(e, units, done, (n - 1) as nat);
        if done[n - 1] {
            joined(before, unit_found(e, units[n - 1]))
        } else {
            before
        }
    }
}

/// Counts, each held at the largest number that fits.
#[derive(Clone, Copy, Debug, PartialEq, Eq, Structural)]
pub struct Totals {
    pub digests: usize,
    pub sections: usize,
    pub segments: usize,
    pub blocks: usize,
    pub fold_bytes: u64,
    pub records: usize,
    pub values: usize,
    pub bytes: u64,
}

/// Counts as they are held.
pub open spec fn held(f: Found) -> Totals {
    Totals {
        digests: audit::fit(f.digests),
        sections: audit::fit(f.sections),
        segments: audit::fit(f.segments),
        blocks: audit::fit(f.blocks),
        fold_bytes: audit::fit64(f.fold_bytes),
        records: audit::fit(f.records),
        values: audit::fit(f.values),
        bytes: audit::fit64(f.bytes),
    }
}

/// Add counts.
pub(crate) fn join_totals(a: Totals, b: Totals, Ghost(fa): Ghost<Found>, Ghost(fb): Ghost<Found>) -> (r: Totals)
    requires
        a == held(fa),
        b == held(fb),
    ensures
        r == held(joined(fa, fb)),
{
    Totals {
        digests: a.digests.saturating_add(b.digests),
        sections: a.sections.saturating_add(b.sections),
        segments: a.segments.saturating_add(b.segments),
        blocks: a.blocks.saturating_add(b.blocks),
        fold_bytes: a.fold_bytes.saturating_add(b.fold_bytes),
        records: a.records.saturating_add(b.records),
        values: a.values.saturating_add(b.values),
        bytes: a.bytes.saturating_add(b.bytes),
    }
}

/// No counts.
pub(crate) fn no_totals() -> (r: Totals)
    ensures
        r == held(nothing()),
{
    Totals {
        digests: 0,
        sections: 0,
        segments: 0,
        blocks: 0,
        fold_bytes: 0,
        records: 0,
        values: 0,
        bytes: 0,
    }
}

} // verus!
