//! Opening: from committed members to one immutable read view.
//!
//! The fold of a view ends where its manifest says. The current view demands that its members end
//! exactly there; a retained view cuts them, because later revisions appended to the same members.

use crate::bytes;
use crate::container;
use crate::container::{Container, ContainerView, MemberView};
use crate::fold;
use crate::fold::{Block, BlockView, Fold, FoldView};
use crate::hash;
use crate::part;
use crate::part::{Part, PartView};
use crate::read_limits::{ReadAdmissionError, ReadLimits};
use crate::store::chain;
use crate::store::chain::{ChainError, PinFault};
use crate::store::debris;
use crate::store::manifest;
use crate::store::manifest::{FoldTail, Manifest, ManifestError, ManifestView};
use crate::store::names;
use crate::store::names::SEG_HDR_LEN;
use crate::store::namespace;
use crate::store::namespace::NamespaceError;
use crate::text;
use vstd::prelude::*;
use vstd::utf8::*;

verus! {

// ---------------------------------------------------------------------------------------------
// Fold members.
// ---------------------------------------------------------------------------------------------
/// What a member is to a fold generation.
#[derive(Clone, Copy, Debug, PartialEq, Eq, Structural)]
pub enum FoldRole {
    /// Nothing of this generation.
    Other,
    Segment { seg: u32 },
    Sidecar { seg: u32 },
    Dictionary,
    /// Inside the generation, and yet none of these.
    Stray,
}

/// Why a fold does not open.
#[derive(Clone, Copy, Debug, PartialEq, Eq, Structural)]
pub enum FoldOpenError {
    /// There is a segment, and the manifest declares no fold.
    SegmentWithoutTail { seg: u32 },
    /// A segment lies beyond the fold's end.
    SegmentBeyondTail { seg: u32 },
    /// The last segment does not end where the fold does.
    TailLength { seg: u32, len: u64 },
    /// A block directory is larger than a read may be.
    Sidecar { error: ReadAdmissionError },
    /// A segment does not decode into frames that lie one after another.
    Undecodable { seg: u32 },
    /// A dictionary's name is not its content's identity.
    Dictionary { index: usize },
    /// A member is none of a fold's.
    Stray { index: usize },
    /// A block directory has no segment.
    Orphan { seg: u32 },
    /// The fold's last segment is absent.
    TailAbsent { seg: u32 },
    /// There are more blocks than a reader may enumerate.
    TooManyBlocks { actual: u64, allowed: u64 },
}

/// What follows a generation's root in a name.
pub open spec fn below_root(name: Seq<char>, generation: u32) -> Option<Seq<u8>> {
    let b = encode_utf8(name);
    let root = names::fold_root(generation);
    if bytes::starts_with(b, root) {
        Some(b.subrange(root.len() as int, b.len() as int))
    } else {
        None
    }
}

/// What a member is to a fold generation.
pub open spec fn role_of(name: Seq<char>, generation: u32) -> FoldRole {
    match below_root(name, generation) {
        None => FoldRole::Other,
        Some(file) => match names::segment_number(
            file,
            encode_utf8("seg-"@),
            encode_utf8(".fold"@),
        ) {
            Some(seg) => FoldRole::Segment { seg },
            None => match names::segment_number(file, encode_utf8("seg-"@), encode_utf8(".dir"@)) {
                Some(seg) => FoldRole::Sidecar { seg },
                None => if names::dictionary_shape(file) {
                    FoldRole::Dictionary
                } else {
                    FoldRole::Stray
                },
            },
        },
    }
}

/// The file name of the dictionary with this content.
pub open spec fn dictionary_file(bytes: Seq<u8>) -> Seq<u8> {
    encode_utf8("zdict-"@) + text::hex(hash::blake3_digest(bytes)) + encode_utf8(".zd"@)
}

/// How a view treats what lies past its fold's end.
#[derive(Clone, Copy, Debug, PartialEq, Eq, Structural)]
pub enum TailRule {
    /// Members must end exactly there.
    Exact,
    /// Members are cut there.
    Cut,
}

/// Whether a view leaves a segment out.
pub open spec fn skipped(seg: u32, tail: Option<FoldTail>, rule: TailRule) -> bool {
    rule == TailRule::Cut && tail is Some && seg > tail->0.seg
}

/// What is wrong with where a segment ends.
pub open spec fn tail_fault(seg: u32, len: u64, tail: Option<FoldTail>, rule: TailRule) -> Option<
    FoldOpenError,
> {
    match (tail, rule) {
        (None, TailRule::Exact) => Some(FoldOpenError::SegmentWithoutTail { seg }),
        (None, TailRule::Cut) => None,
        (Some(t), TailRule::Exact) => if seg > t.seg {
            Some(FoldOpenError::SegmentBeyondTail { seg })
        } else if seg == t.seg && len != t.off {
            Some(FoldOpenError::TailLength { seg, len })
        } else {
            None
        },
        (Some(t), TailRule::Cut) => if seg == t.seg && len < t.off {
            Some(FoldOpenError::TailLength { seg, len })
        } else {
            None
        },
    }
}

/// Whether a view uses a segment to its end, so that its block directory describes it.
pub open spec fn whole(seg: u32, len: u64, tail: Option<FoldTail>) -> bool {
    tail is Some && seg == tail->0.seg ==> len == tail->0.off
}

/// What is wrong with a segment's block directory, where there is one.
pub open spec fn sidecar_fault(
    ms: Seq<MemberView>,
    generation: u32,
    seg: u32,
    limits: ReadLimits,
) -> Option<FoldOpenError> {
    match container::position_of(ms, text::chars(names::sidecar_name(generation, seg))) {
        None => None,
        Some(i) => if ms[i].bytes.len() > limits.max_stored_frame_bytes {
            Some(
                FoldOpenError::Sidecar {
                    error: ReadAdmissionError::StoredFrameTooLarge {
                        actual: ms[i].bytes.len() as u64,
                        allowed: limits.max_stored_frame_bytes,
                    },
                },
            )
        } else {
            None
        },
    }
}

/// Decoded frames lie one after another in their segment, behind its header.
pub open spec fn framed(blocks: Seq<BlockView>, seg: u32, len: u64) -> bool {
    &&& forall|i: int|
        0 <= i < blocks.len() ==> (#[trigger] blocks[i]).segment == seg && SEG_HDR_LEN
            < blocks[i].end <= len
    &&& forall|i: int, j: int|
        0 <= i < j < blocks.len() ==> (#[trigger] blocks[i]).end < (#[trigger] blocks[j]).end
}

/// What is wrong with one member of a fold.
pub open spec fn fold_member_fault(
    ms: Seq<MemberView>,
    generation: u32,
    tail: Option<FoldTail>,
    rule: TailRule,
    limits: ReadLimits,
    i: int,
) -> Option<FoldOpenError> {
    let m = ms[i];
    let len = m.bytes.len() as u64;
    match role_of(m.name, generation) {
        FoldRole::Other => None,
        FoldRole::Sidecar { seg } => None,
        FoldRole::Stray => Some(FoldOpenError::Stray { index: i as usize }),
        FoldRole::Dictionary => if below_root(m.name, generation)->0 != dictionary_file(m.bytes) {
            Some(FoldOpenError::Dictionary { index: i as usize })
        } else {
            None
        },
        FoldRole::Segment { seg } => if skipped(seg, tail, rule) {
            None
        } else if tail_fault(seg, len, tail, rule) is Some {
            tail_fault(seg, len, tail, rule)
        } else if (rule == TailRule::Exact || whole(seg, len, tail)) && sidecar_fault(
            ms,
            generation,
            seg,
            limits,
        ) is Some {
            sidecar_fault(ms, generation, seg, limits)
        } else if m.blocks is None || !framed(m.blocks->0, seg, len) {
            Some(FoldOpenError::Undecodable { seg })
        } else {
            None
        },
    }
}

/// What is wrong first with the first `n` members of a fold.
pub open spec fn fold_members_fault(
    ms: Seq<MemberView>,
    generation: u32,
    tail: Option<FoldTail>,
    rule: TailRule,
    limits: ReadLimits,
    n: nat,
) -> Option<FoldOpenError>
    decreases n,
{
    if n == 0 {
        None
    } else {
        match fold_members_fault(ms, generation, tail, rule, limits, (n - 1) as nat) {
            Some(e) => Some(e),
            None => fold_member_fault(ms, generation, tail, rule, limits, n - 1),
        }
    }
}

/// Whether a generation has a segment.
pub open spec fn has_segment(ms: Seq<MemberView>, generation: u32, seg: u32) -> bool {
    exists|i: int|
        0 <= i < ms.len() && role_of((#[trigger] ms[i]).name, generation) == (FoldRole::Segment {
            seg,
        })
}

/// The first block directory among the first `n` members without a segment.
pub open spec fn orphan(ms: Seq<MemberView>, generation: u32, n: nat) -> Option<FoldOpenError>
    decreases n,
{
    if n == 0 {
        None
    } else {
        match orphan(ms, generation, (n - 1) as nat) {
            Some(e) => Some(e),
            None => match role_of(ms[n - 1].name, generation) {
                FoldRole::Sidecar { seg } => if has_segment(ms, generation, seg) {
                    None
                } else {
                    Some(FoldOpenError::Orphan { seg })
                },
                _ => None,
            },
        }
    }
}

/// The blocks of a segment that end no later than an offset.
pub open spec fn blocks_until(blocks: Seq<BlockView>, off: u64) -> Seq<BlockView>
    decreases blocks.len(),
{
    if blocks.len() == 0 {
        Seq::empty()
    } else {
        let before = blocks_until(blocks.drop_last(), off);
        if blocks.last().end <= off {
            before.push(blocks.last())
        } else {
            before
        }
    }
}

/// The blocks a view takes from one member.
pub open spec fn member_blocks(
    m: MemberView,
    generation: u32,
    tail: Option<FoldTail>,
    rule: TailRule,
) -> Seq<BlockView> {
    match role_of(m.name, generation) {
        FoldRole::Segment { seg } => if skipped(seg, tail, rule) || m.blocks is None {
            Seq::empty()
        } else if tail is Some && seg == tail->0.seg {
            blocks_until(m.blocks->0, tail->0.off as u64)
        } else {
            m.blocks->0
        },
        _ => Seq::empty(),
    }
}

/// The blocks a view takes from the first `n` members, in the order of their names.
pub open spec fn view_blocks(
    ms: Seq<MemberView>,
    generation: u32,
    tail: Option<FoldTail>,
    rule: TailRule,
    n: nat,
) -> Seq<BlockView>
    decreases n,
{
    if n == 0 {
        Seq::empty()
    } else {
        view_blocks(ms, generation, tail, rule, (n - 1) as nat) + member_blocks(
            ms[n - 1],
            generation,
            tail,
            rule,
        )
    }
}

/// The segment a view takes from one member: its number, and how far the view reaches into it.
pub open spec fn member_segments(
    m: MemberView,
    generation: u32,
    tail: Option<FoldTail>,
    rule: TailRule,
) -> Seq<(u32, u64)> {
    let len = m.bytes.len() as u64;
    match role_of(m.name, generation) {
        FoldRole::Segment { seg } => if skipped(seg, tail, rule) {
            Seq::empty()
        } else if tail is Some && seg == tail->0.seg && tail->0.off < len {
            seq![(seg, tail->0.off as u64)]
        } else {
            seq![(seg, len)]
        },
        _ => Seq::empty(),
    }
}

/// The segments a view takes from the first `n` members, in the order of their names.
pub open spec fn view_segments(
    ms: Seq<MemberView>,
    generation: u32,
    tail: Option<FoldTail>,
    rule: TailRule,
    n: nat,
) -> Seq<(u32, u64)>
    decreases n,
{
    if n == 0 {
        Seq::empty()
    } else {
        view_segments(ms, generation, tail, rule, (n - 1) as nat) + member_segments(
            ms[n - 1],
            generation,
            tail,
            rule,
        )
    }
}

/// The fold a manifest describes, with the blocks declared given up.
pub open spec fn fold_of(
    ms: Seq<MemberView>,
    m: ManifestView,
    punched: Seq<(u32, u32)>,
    rule: TailRule,
    limits: ReadLimits,
) -> Result<FoldView, FoldOpenError> {
    let tail = manifest::tail_of(m);
    let blocks = view_blocks(ms, m.fold_gen, tail, rule, ms.len());
    match fold_members_fault(ms, m.fold_gen, tail, rule, limits, ms.len()) {
        Some(e) => Err(e),
        None => match orphan(ms, m.fold_gen, ms.len()) {
            Some(e) => Err(e),
            None => if tail is Some && !has_segment(ms, m.fold_gen, tail->0.seg) {
                Err(FoldOpenError::TailAbsent { seg: tail->0.seg })
            } else if blocks.len() > limits.max_fold_blocks {
                Err(
                    FoldOpenError::TooManyBlocks {
                        actual: blocks.len() as u64,
                        allowed: limits.max_fold_blocks,
                    },
                )
            } else {
                Ok(
                    FoldView {
                        blocks,
                        segments: view_segments(ms, m.fold_gen, tail, rule, ms.len()),
                        punched,
                    },
                )
            },
        },
    }
}

fn file_below<'a>(name: &'a [u8], generation: u32) -> (r: Option<&'a [u8]>)
    ensures
        ({
            let root = names::fold_root(generation);
            match r {
                Some(file) => bytes::starts_with(name@, root) && file@ == name@.subrange(
                    root.len() as int,
                    name@.len() as int,
                ),
                None => !bytes::starts_with(name@, root),
            }
        }),
{
    let root = names::fold_root_bytes(generation);
    bytes::strip_prefix(name, root.as_slice())
}

/// What a member is to a fold generation.
pub fn fold_role(name: &str, generation: u32) -> (r: FoldRole)
    ensures
        r == role_of(name@, generation),
{
    let file = match file_below(name.as_bytes(), generation) {
        Some(file) => file,
        None => {
            return FoldRole::Other;
        },
    };
    if let Some(seg) = names::parse_seg_name(file) {
        return FoldRole::Segment { seg };
    }
    if let Some(seg) = names::fold_sidecar_member(file) {
        return FoldRole::Sidecar { seg };
    }
    if names::valid_fold_dictionary_member(file) {
        FoldRole::Dictionary
    } else {
        FoldRole::Stray
    }
}

fn dictionary_matches(name: &str, generation: u32, content: &[u8]) -> (r: bool)
    requires
        below_root(name@, generation) is Some,
    ensures
        r == (below_root(name@, generation)->0 == dictionary_file(content@)),
{
    match file_below(name.as_bytes(), generation) {
        None => false,
        Some(file) => {
            let digest = hash::blake3_hash(content);
            let hex = text::hex_bytes(digest.as_slice());
            let mut want: Vec<u8> = Vec::new();
            bytes::append_bytes(&mut want, "zdict-".as_bytes());
            bytes::append_bytes(&mut want, hex.as_slice());
            bytes::append_bytes(&mut want, ".zd".as_bytes());
            assert(want@ =~= dictionary_file(content@));
            bytes::bytes_eq(file, want.as_slice())
        },
    }
}

fn check_tail(seg: u32, len: u64, tail: Option<FoldTail>, rule: TailRule) -> (r: Option<
    FoldOpenError,
>)
    ensures
        r == tail_fault(seg, len, tail, rule),
{
    match (tail, rule) {
        (None, TailRule::Exact) => Some(FoldOpenError::SegmentWithoutTail { seg }),
        (None, TailRule::Cut) => None,
        (Some(t), TailRule::Exact) => if seg > t.seg {
            Some(FoldOpenError::SegmentBeyondTail { seg })
        } else if seg == t.seg && len != t.off as u64 {
            Some(FoldOpenError::TailLength { seg, len })
        } else {
            None
        },
        (Some(t), TailRule::Cut) => if seg == t.seg && len < t.off as u64 {
            Some(FoldOpenError::TailLength { seg, len })
        } else {
            None
        },
    }
}

fn check_sidecar(c: &Container, generation: u32, seg: u32, limits: &ReadLimits) -> (r: Option<
    FoldOpenError,
>)
    ensures
        r == sidecar_fault(c@.members, generation, seg, *limits),
{
    let name = names::sidecar_member(generation, seg);
    proof {
        container::lemma_position_from(c@.members, name@, 0);
    }
    match c.find(name.as_str()) {
        None => None,
        Some(i) => {
            assert(c@.members[i as int] == c.members@[i as int]@);
            match limits.admit_stored(c.members[i].bytes.len() as u64) {
                Ok(()) => None,
                Err(error) => Some(FoldOpenError::Sidecar { error }),
            }
        },
    }
}

fn check_frames(blocks: &Vec<Block>, seg: u32, len: u64) -> (r: bool)
    ensures
        r == framed(fold::blocks_view(blocks@), seg, len),
{
    let ghost all = fold::blocks_view(blocks@);
    let mut end: u64 = SEG_HDR_LEN;
    let mut i: usize = 0;
    while i < blocks.len()
        invariant
            all == fold::blocks_view(blocks@),
            i <= blocks@.len(),
            forall|k: int|
                0 <= k < i ==> (#[trigger] all[k]).segment == seg && SEG_HDR_LEN < all[k].end
                    <= len,
            forall|k: int, j: int|
                0 <= k < j < i ==> (#[trigger] all[k]).end < (#[trigger] all[j]).end,
            end == (if i == 0 {
                SEG_HDR_LEN
            } else {
                all[i - 1].end
            }),
        decreases blocks.len() - i,
    {
        let b = &blocks[i];
        assert(all[i as int] == b@);
        if b.segment != seg || b.end <= end || b.end > len {
            return false;
        }
        end = b.end;
        i = i + 1;
    }
    true
}

fn check_fold_member(
    c: &Container,
    generation: u32,
    tail: Option<FoldTail>,
    rule: TailRule,
    limits: &ReadLimits,
    i: usize,
) -> (r: Option<FoldOpenError>)
    requires
        i < c@.members.len(),
    ensures
        r == fold_member_fault(c@.members, generation, tail, rule, *limits, i as int),
{
    let m = &c.members[i];
    assert(c@.members[i as int] == m@);
    let len: u64 = m.bytes.len() as u64;
    match fold_role(m.name.as_str(), generation) {
        FoldRole::Other => None,
        FoldRole::Sidecar { seg } => None,
        FoldRole::Stray => Some(FoldOpenError::Stray { index: i }),
        FoldRole::Dictionary => if dictionary_matches(
            m.name.as_str(),
            generation,
            m.bytes.as_slice(),
        ) {
            None
        } else {
            Some(FoldOpenError::Dictionary { index: i })
        },
        FoldRole::Segment { seg } => {
            let is_cut = match rule {
                TailRule::Cut => true,
                TailRule::Exact => false,
            };
            let at_tail = match tail {
                Some(t) => t.seg == seg,
                None => false,
            };
            let past = match tail {
                Some(t) => seg > t.seg,
                None => false,
            };
            if is_cut && past {
                return None;
            }
            if let Some(e) = check_tail(seg, len, tail, rule) {
                return Some(e);
            }
            let is_whole = match tail {
                Some(t) => !at_tail || len == t.off as u64,
                None => true,
            };
            if !is_cut || is_whole {
                if let Some(e) = check_sidecar(c, generation, seg, limits) {
                    return Some(e);
                }
            }
            match &m.blocks {
                None => Some(FoldOpenError::Undecodable { seg }),
                Some(blocks) => if check_frames(blocks, seg, len) {
                    None
                } else {
                    Some(FoldOpenError::Undecodable { seg })
                },
            }
        },
    }
}

proof fn lemma_fold_members_prefix(
    ms: Seq<MemberView>,
    generation: u32,
    tail: Option<FoldTail>,
    rule: TailRule,
    limits: ReadLimits,
    k: nat,
    n: nat,
)
    requires
        k <= n,
        fold_members_fault(ms, generation, tail, rule, limits, k) is Some,
    ensures
        fold_members_fault(ms, generation, tail, rule, limits, n) == fold_members_fault(
            ms,
            generation,
            tail,
            rule,
            limits,
            k,
        ),
    decreases n,
{
    if k < n {
        lemma_fold_members_prefix(ms, generation, tail, rule, limits, k, (n - 1) as nat);
    }
}

proof fn lemma_orphan_prefix(ms: Seq<MemberView>, generation: u32, k: nat, n: nat)
    requires
        k <= n,
        orphan(ms, generation, k) is Some,
    ensures
        orphan(ms, generation, n) == orphan(ms, generation, k),
    decreases n,
{
    if k < n {
        lemma_orphan_prefix(ms, generation, k, (n - 1) as nat);
    }
}

fn segment_present(c: &Container, generation: u32, seg: u32) -> (r: bool)
    ensures
        r == has_segment(c@.members, generation, seg),
{
    let ghost ms = c@.members;
    let mut i: usize = 0;
    while i < c.members.len()
        invariant
            ms == c@.members,
            i <= c.members@.len(),
            forall|k: int|
                0 <= k < i ==> role_of((#[trigger] ms[k]).name, generation)
                    != (FoldRole::Segment { seg }),
        decreases c.members.len() - i,
    {
        assert(ms[i as int] == c.members@[i as int]@);
        if let FoldRole::Segment { seg: found } = fold_role(c.members[i].name.as_str(), generation) {
            if found == seg {
                return true;
            }
        }
        i = i + 1;
    }
    false
}

fn check_orphans(c: &Container, generation: u32) -> (r: Option<FoldOpenError>)
    ensures
        r == orphan(c@.members, generation, c@.members.len()),
{
    let ghost ms = c@.members;
    let mut i: usize = 0;
    while i < c.members.len()
        invariant
            ms == c@.members,
            i <= c.members@.len(),
            orphan(ms, generation, i as nat) is None,
        decreases c.members.len() - i,
    {
        assert(ms[i as int] == c.members@[i as int]@);
        if let FoldRole::Sidecar { seg } = fold_role(c.members[i].name.as_str(), generation) {
            if !segment_present(c, generation, seg) {
                proof {
                    lemma_orphan_prefix(ms, generation, (i + 1) as nat, ms.len());
                }
                return Some(FoldOpenError::Orphan { seg });
            }
        }
        i = i + 1;
    }
    None
}

fn append_until(out: &mut Vec<Block>, blocks: &Vec<Block>, off: Option<u64>)
    ensures
        fold::blocks_view(final(out)@) == fold::blocks_view(old(out)@) + (match off {
            Some(off) => blocks_until(fold::blocks_view(blocks@), off),
            None => fold::blocks_view(blocks@),
        }),
{
    let ghost before = fold::blocks_view(out@);
    let ghost all = fold::blocks_view(blocks@);
    let mut i: usize = 0;
    assert(all.take(0) =~= Seq::<BlockView>::empty());
    assert(before + Seq::<BlockView>::empty() =~= before);
    while i < blocks.len()
        invariant
            all == fold::blocks_view(blocks@),
            i <= blocks@.len(),
            fold::blocks_view(out@) == before + (match off {
                Some(off) => blocks_until(all.take(i as int), off),
                None => all.take(i as int),
            }),
        decreases blocks.len() - i,
    {
        proof {
            assert(all.take(i + 1).drop_last() =~= all.take(i as int));
            assert(all.take(i + 1).last() == blocks@[i as int]@);
        }
        let take = match off {
            Some(off) => blocks[i].end <= off,
            None => true,
        };
        if take {
            let ghost held = out@;
            out.push(blocks[i].clone());
            proof {
                assert(fold::blocks_view(out@) =~= fold::blocks_view(held).push(
                    blocks@[i as int]@,
                ));
                assert(all.take(i + 1) =~= all.take(i as int).push(blocks@[i as int]@));
                match off {
                    Some(off) => {
                        assert(before + blocks_until(all.take(i + 1), off) =~= (before
                            + blocks_until(all.take(i as int), off)).push(blocks@[i as int]@));
                    },
                    None => {
                        assert(before + all.take(i + 1) =~= (before + all.take(i as int)).push(
                            blocks@[i as int]@,
                        ));
                    },
                }
            }
        }
        i = i + 1;
    }
    assert(all.take(i as int) =~= all);
}

fn gather_blocks(
    c: &Container,
    generation: u32,
    tail: Option<FoldTail>,
    rule: TailRule,
    limits: &ReadLimits,
) -> (r: Result<Vec<Block>, FoldOpenError>)
    ensures
        ({
            let ms = c@.members;
            let fault = fold_members_fault(ms, generation, tail, rule, *limits, ms.len());
            match r {
                Ok(blocks) => fault is None && fold::blocks_view(blocks@) == view_blocks(
                    ms,
                    generation,
                    tail,
                    rule,
                    ms.len(),
                ),
                Err(e) => fault == Some(e),
            }
        }),
{
    let ghost ms = c@.members;
    let mut out: Vec<Block> = Vec::new();
    let mut i: usize = 0;
    assert(fold::blocks_view(out@) =~= Seq::<BlockView>::empty());
    while i < c.members.len()
        invariant
            ms == c@.members,
            i <= c.members@.len(),
            fold_members_fault(ms, generation, tail, rule, *limits, i as nat) is None,
            fold::blocks_view(out@) == view_blocks(ms, generation, tail, rule, i as nat),
        decreases c.members.len() - i,
    {
        let m = &c.members[i];
        assert(ms[i as int] == m@);
        if let Some(e) = check_fold_member(c, generation, tail, rule, limits, i) {
            proof {
                lemma_fold_members_prefix(
                    ms,
                    generation,
                    tail,
                    rule,
                    *limits,
                    (i + 1) as nat,
                    ms.len(),
                );
            }
            return Err(e);
        }
        let ghost before = fold::blocks_view(out@);
        assert(before + Seq::<BlockView>::empty() =~= before);
        if let FoldRole::Segment { seg } = fold_role(m.name.as_str(), generation) {
            let is_cut = match rule {
                TailRule::Cut => true,
                TailRule::Exact => false,
            };
            let past = match tail {
                Some(t) => seg > t.seg,
                None => false,
            };
            let off: Option<u64> = match tail {
                Some(t) => if t.seg == seg {
                    Some(t.off as u64)
                } else {
                    None
                },
                None => None,
            };
            if !(is_cut && past) {
                if let Some(blocks) = &m.blocks {
                    append_until(&mut out, blocks, off);
                }
            }
        }
        i = i + 1;
    }
    Ok(out)
}

fn gather_segments(c: &Container, generation: u32, tail: Option<FoldTail>, rule: TailRule) -> (r: Vec<
    (u32, u64),
>)
    ensures
        r@ == view_segments(c@.members, generation, tail, rule, c@.members.len()),
{
    let ghost ms = c@.members;
    let mut out: Vec<(u32, u64)> = Vec::new();
    let mut i: usize = 0;
    assert(out@ =~= Seq::<(u32, u64)>::empty());
    while i < c.members.len()
        invariant
            ms == c@.members,
            i <= c.members@.len(),
            out@ == view_segments(ms, generation, tail, rule, i as nat),
        decreases c.members.len() - i,
    {
        let m = &c.members[i];
        assert(ms[i as int] == m@);
        let ghost before = out@;
        assert(before + Seq::<(u32, u64)>::empty() =~= before);
        if let FoldRole::Segment { seg } = fold_role(m.name.as_str(), generation) {
            let is_cut = match rule {
                TailRule::Cut => true,
                TailRule::Exact => false,
            };
            let len: u64 = m.bytes.len() as u64;
            let (past, reach): (bool, u64) = match tail {
                Some(t) => (
                    seg > t.seg,
                    if t.seg == seg && (t.off as u64) < len {
                        t.off as u64
                    } else {
                        len
                    },
                ),
                None => (false, len),
            };
            if !(is_cut && past) {
                out.push((seg, reach));
                assert(out@ =~= before + seq![(seg, reach)]);
            }
        }
        i = i + 1;
    }
    out
}

/// Open the fold a manifest describes.
pub fn open_fold(
    c: &Container,
    m: &Manifest,
    punched: &Vec<(u32, u32)>,
    rule: TailRule,
    limits: &ReadLimits,
) -> (r: Result<Fold, FoldOpenError>)
    ensures
        fold_of(c@.members, m@, punched@, rule, *limits) == (match r {
            Ok(f) => Ok::<FoldView, FoldOpenError>(f@),
            Err(e) => Err(e),
        }),
{
    let tail = m.fold_tail();
    let blocks = match gather_blocks(c, m.fold_gen, tail, rule, limits) {
        Ok(blocks) => blocks,
        Err(e) => {
            return Err(e);
        },
    };
    if let Some(e) = check_orphans(c, m.fold_gen) {
        return Err(e);
    }
    if let Some(t) = tail {
        if !segment_present(c, m.fold_gen, t.seg) {
            return Err(FoldOpenError::TailAbsent { seg: t.seg });
        }
    }
    if blocks.len() as u64 > limits.max_fold_blocks {
        return Err(
            FoldOpenError::TooManyBlocks {
                actual: blocks.len() as u64,
                allowed: limits.max_fold_blocks,
            },
        );
    }
    let segments = gather_segments(c, m.fold_gen, tail, rule);
    Ok(Fold { blocks, segments, punched: manifest::clone_ranges(punched) })
}

/// Open the fold of the current manifest.
pub fn open_fold_from_container(c: &Container, m: &Manifest, limits: &ReadLimits) -> (r: Result<
    Fold,
    FoldOpenError,
>)
    ensures
        fold_of(c@.members, m@, m@.punched, TailRule::Exact, *limits) == (match r {
            Ok(f) => Ok::<FoldView, FoldOpenError>(f@),
            Err(e) => Err(e),
        }),
{
    open_fold(c, m, &m.punched, TailRule::Exact, limits)
}

// ---------------------------------------------------------------------------------------------
// Read views.
// ---------------------------------------------------------------------------------------------
/// Why a store does not open.
#[allow(inconsistent_fields)]
#[derive(Clone, Copy, Debug, PartialEq, Eq, Structural)]
pub enum OpenError {
    /// Another store would take the name for its own protocol state.
    Reserved,
    /// The current manifest is invalid.
    Manifest { error: ManifestError },
    /// A committed container has no manifest.
    NoAuthority { seq: u64 },
    /// A member is not the store's.
    Namespace { error: NamespaceError },
    /// The fold does not open.
    Fold { error: FoldOpenError },
    /// A part the manifest names does not open.
    Part { index: usize, fault: PinFault },
    /// A retained revision cannot be read.
    Retained { error: ChainError },
    /// The retained view needs current authority, and there is none.
    NoCurrent,
    /// The retained chain does not hold.
    Chain { error: ChainError },
    /// A retained revision references another fold generation than current authority.
    Generation { retained: u32, current: u32 },
}

/// A reader over one store authority.
#[derive(Debug, PartialEq, Eq)]
pub struct ReadStore {
    pub fold: Fold,
    pub parts: Vec<Part>,
    pub manifest: Manifest,
    pub read_limits: ReadLimits,
}

/// View of a [`ReadStore`].
pub struct ReadStoreView {
    pub fold: FoldView,
    pub parts: Seq<PartView>,
    pub manifest: ManifestView,
    pub read_limits: ReadLimits,
}

impl View for ReadStore {
    type V = ReadStoreView;

    open spec fn view(&self) -> ReadStoreView {
        ReadStoreView {
            fold: self.fold@,
            parts: part::parts_view(self.parts@),
            manifest: self.manifest@,
            read_limits: self.read_limits,
        }
    }
}

/// The parts a manifest names, opened, or the first fault.
pub open spec fn opened_parts(ms: Seq<MemberView>, m: ManifestView, n: nat) -> Result<
    Seq<PartView>,
    OpenError,
>
    decreases n,
{
    if n == 0 {
        Ok(Seq::empty())
    } else {
        match opened_parts(ms, m, (n - 1) as nat) {
            Err(e) => Err(e),
            Ok(before) => match chain::opened(ms, m.parts[n - 1]) {
                Err(fault) => Err(OpenError::Part { index: (n - 1) as usize, fault }),
                Ok(p) => Ok(before.push(p)),
            },
        }
    }
}

/// The read view of a manifest's parts and fold.
pub open spec fn view_of(
    ms: Seq<MemberView>,
    m: ManifestView,
    rule: TailRule,
    limits: ReadLimits,
) -> Result<ReadStoreView, OpenError> {
    match fold_of(ms, m, m.punched, rule, limits) {
        Err(error) => Err(OpenError::Fold { error }),
        Ok(f) => match opened_parts(ms, m, m.parts.len()) {
            Err(e) => Err(e),
            Ok(parts) => Ok(
                ReadStoreView { fold: f, parts, manifest: m, read_limits: limits },
            ),
        },
    }
}

/// The current read view of a container.
pub open spec fn current_view(c: ContainerView, limits: ReadLimits) -> Result<
    ReadStoreView,
    OpenError,
> {
    let ms = c.members;
    match chain::current_of(ms) {
        Some(Err(error)) => Err(OpenError::Manifest { error }),
        found => {
            let current = chain::authority_of(ms);
            if current is None && !container::empty_birth(c) {
                Err(OpenError::NoAuthority { seq: c.seq })
            } else if namespace::namespace_fault(ms, current) is Some {
                Err(OpenError::Namespace { error: namespace::namespace_fault(ms, current)->0 })
            } else {
                let m = match current {
                    Some(m) => m,
                    None => manifest::origin(),
                };
                view_of(ms, m, TailRule::Exact, limits)
            }
        },
    }
}

proof fn lemma_opened_prefix(ms: Seq<MemberView>, m: ManifestView, k: nat, n: nat)
    requires
        k <= n,
        opened_parts(ms, m, k) is Err,
    ensures
        opened_parts(ms, m, n) == opened_parts(ms, m, k),
    decreases n,
{
    if k < n {
        lemma_opened_prefix(ms, m, k, (n - 1) as nat);
    }
}

fn open_parts(c: &Container, m: &Manifest) -> (r: Result<Vec<Part>, OpenError>)
    ensures
        opened_parts(c@.members, m@, m@.parts.len()) == (match r {
            Ok(parts) => Ok::<Seq<PartView>, OpenError>(part::parts_view(parts@)),
            Err(e) => Err(e),
        }),
        r matches Ok(parts) ==> part::parts_sound(part::parts_view(parts@)),
{
    let ghost ms = c@.members;
    let mut out: Vec<Part> = Vec::new();
    let mut i: usize = 0;
    assert(part::parts_view(out@) =~= Seq::<PartView>::empty());
    while i < m.parts.len()
        invariant
            ms == c@.members,
            i <= m.parts@.len(),
            opened_parts(ms, m@, i as nat) == Ok::<Seq<PartView>, OpenError>(
                part::parts_view(out@),
            ),
            part::parts_sound(part::parts_view(out@)),
        decreases m.parts.len() - i,
    {
        assert(m@.parts[i as int] == m.parts@[i as int]@);
        match chain::open_manifest_part(c, &m.parts[i]) {
            Err(fault) => {
                proof {
                    lemma_opened_prefix(ms, m@, (i + 1) as nat, m@.parts.len());
                }
                return Err(OpenError::Part { index: i, fault });
            },
            Ok(p) => {
                let ghost before = part::parts_view(out@);
                out.push(p.clone());
                proof {
                    assert(part::parts_view(out@) =~= before.push(p@));
                    assert forall|k: int| 0 <= k < part::parts_view(out@).len() implies part::part_sound(
                        #[trigger] part::parts_view(out@)[k],
                    ) by {
                        if k < before.len() {
                            assert(part::parts_view(out@)[k] == before[k]);
                        }
                    }
                }
            },
        }
        i = i + 1;
    }
    Ok(out)
}

/// Open the parts and the fold of a manifest.
pub fn open_view(c: &Container, m: Manifest, rule: TailRule, limits: ReadLimits) -> (r: Result<
    ReadStore,
    OpenError,
>)
    ensures
        view_of(c@.members, m@, rule, limits) == (match r {
            Ok(s) => Ok::<ReadStoreView, OpenError>(s@),
            Err(e) => Err(e),
        }),
        r matches Ok(s) ==> part::parts_sound(s@.parts),
{
    let f = match open_fold(c, &m, &m.punched, rule, &limits) {
        Ok(f) => f,
        Err(error) => {
            return Err(OpenError::Fold { error });
        },
    };
    match open_parts(c, &m) {
        Ok(parts) => Ok(ReadStore { fold: f, parts, manifest: m, read_limits: limits }),
        Err(e) => Err(e),
    }
}

/// Open the current read view of a container with explicit limits.
pub fn open_read_container_source(c: &Container, limits: ReadLimits) -> (r: Result<
    ReadStore,
    OpenError,
>)
    ensures
        current_view(c@, limits) == (match r {
            Ok(s) => Ok::<ReadStoreView, OpenError>(s@),
            Err(e) => Err(e),
        }),
        r matches Ok(s) ==> part::parts_sound(s@.parts),
{
    let found = match chain::read_authority(c) {
        Ok(found) => found,
        Err(error) => {
            return Err(OpenError::Manifest { error });
        },
    };
    let current: Option<&Manifest> = match &found {
        Some((_, m)) => Some(m),
        None => None,
    };
    assert(namespace::authority_view(current) == chain::authority_of(c@.members));
    if current.is_none() && !c.committed_is_empty_birth() {
        return Err(OpenError::NoAuthority { seq: c.seq });
    }
    if let Err(error) = namespace::validate_store_member_namespace(c, current) {
        return Err(OpenError::Namespace { error });
    }
    let m = match current {
        Some(m) => m.clone(),
        None => Manifest::default(),
    };
    open_view(c, m, TailRule::Exact, limits)
}

/// The limits a reader has by default.
pub open spec fn default_limits() -> ReadLimits {
    ReadLimits {
        max_stored_frame_bytes: 536_870_912,
        max_decoded_frame_bytes: 536_870_912,
        max_directory_entries: 100_000,
        max_wal_frames: 100_000,
        max_fold_blocks: 1_000_000,
    }
}

/// The current read view of a store of a name: a reserved name is refused from the name alone.
pub open spec fn named_view(name: Seq<u8>, c: ContainerView, limits: ReadLimits) -> Result<
    ReadStoreView,
    OpenError,
> {
    if debris::reserved(name) {
        Err(OpenError::Reserved)
    } else {
        current_view(c, limits)
    }
}

/// Open the current read view of a container.
pub fn open_read_container(name: &[u8], c: &Container) -> (r: Result<ReadStore, OpenError>)
    ensures
        named_view(name@, c@, default_limits()) == (match r {
            Ok(s) => Ok::<ReadStoreView, OpenError>(s@),
            Err(e) => Err(e),
        }),
        r matches Ok(s) ==> part::parts_sound(s@.parts),
{
    open_read_container_with_limits(name, c, ReadLimits::default())
}

/// Open the current read view of a container with explicit limits.
pub fn open_read_container_with_limits(name: &[u8], c: &Container, limits: ReadLimits) -> (r:
    Result<ReadStore, OpenError>)
    ensures
        named_view(name@, c@, limits) == (match r {
            Ok(s) => Ok::<ReadStoreView, OpenError>(s@),
            Err(e) => Err(e),
        }),
        r matches Ok(s) ==> part::parts_sound(s@.parts),
{
    if debris::validate_store_path(name).is_err() {
        return Err(OpenError::Reserved);
    }
    open_read_container_source(c, limits)
}

/// Open the current read view of a store file.
pub fn open_read_file(name: &[u8], c: &Container) -> (r: Result<ReadStore, OpenError>)
    ensures
        named_view(name@, c@, default_limits()) == (match r {
            Ok(s) => Ok::<ReadStoreView, OpenError>(s@),
            Err(e) => Err(e),
        }),
        r matches Ok(s) ==> part::parts_sound(s@.parts),
{
    open_read_container(name, c)
}

/// Open the current read view of a store file with explicit limits.
pub fn open_read_file_with_limits(name: &[u8], c: &Container, limits: ReadLimits) -> (r: Result<
    ReadStore,
    OpenError,
>)
    ensures
        named_view(name@, c@, limits) == (match r {
            Ok(s) => Ok::<ReadStoreView, OpenError>(s@),
            Err(e) => Err(e),
        }),
        r matches Ok(s) ==> part::parts_sound(s@.parts),
{
    open_read_container_with_limits(name, c, limits)
}

// ---------------------------------------------------------------------------------------------
// Retained views.
// ---------------------------------------------------------------------------------------------
/// A retained manifest under current authority: what was given up since is given up here too.
pub open spec fn under_current(m: ManifestView, current: ManifestView) -> ManifestView {
    ManifestView { punched: current.punched, ..m }
}

/// The read view of a retained manifest.
pub open spec fn retained_view(
    ms: Seq<MemberView>,
    m: ManifestView,
    current: ManifestView,
    limits: ReadLimits,
) -> Result<ReadStoreView, OpenError> {
    if m.fold_gen != current.fold_gen {
        Err(OpenError::Generation { retained: m.fold_gen, current: current.fold_gen })
    } else {
        view_of(ms, under_current(m, current), TailRule::Cut, limits)
    }
}

/// The read view at a retained revision.
pub open spec fn view_at(c: ContainerView, commit: u64, limits: ReadLimits) -> Result<
    ReadStoreView,
    OpenError,
> {
    let ms = c.members;
    match chain::revision(ms, commit) {
        Err(error) => Err(OpenError::Retained { error }),
        Ok((bytes, m)) => match chain::current_of(ms) {
            None => Err(OpenError::NoCurrent),
            Some(Err(error)) => Err(OpenError::Manifest { error }),
            Some(Ok(current)) => match chain::chain_fault(c, true) {
                Some(error) => Err(OpenError::Chain { error }),
                None => retained_view(ms, m, current, limits),
            },
        },
    }
}

/// The read view at a retained revision of a store of a name.
pub open spec fn named_view_at(
    name: Seq<u8>,
    c: ContainerView,
    commit: u64,
    limits: ReadLimits,
) -> Result<ReadStoreView, OpenError> {
    if debris::reserved(name) {
        Err(OpenError::Reserved)
    } else {
        view_at(c, commit, limits)
    }
}

/// Open the parts and the cut fold of a retained manifest.
pub fn open_retained_from_container(
    c: &Container,
    m: Manifest,
    current: &Manifest,
    limits: ReadLimits,
) -> (r: Result<ReadStore, OpenError>)
    ensures
        retained_view(c@.members, m@, current@, limits) == (match r {
            Ok(s) => Ok::<ReadStoreView, OpenError>(s@),
            Err(e) => Err(e),
        }),
        r matches Ok(s) ==> part::parts_sound(s@.parts),
{
    if m.fold_gen != current.fold_gen {
        return Err(OpenError::Generation { retained: m.fold_gen, current: current.fold_gen });
    }
    let mut m = m;
    let ghost before = m@;
    m.punched = manifest::clone_ranges(&current.punched);
    assert(m@ == under_current(before, current@));
    open_view(c, m, TailRule::Cut, limits)
}

/// Open a read view at a retained revision with explicit limits.
///
/// The retained manifest names the state; which blocks are given up comes from the current one,
/// because a retained copy predates what was given up later. A chain that does not hold opens
/// nothing.
pub fn open_read_container_at_with_limits(
    name: &[u8],
    c: &Container,
    commit: u64,
    limits: ReadLimits,
) -> (r: Result<ReadStore, OpenError>)
    ensures
        named_view_at(name@, c@, commit, limits) == (match r {
            Ok(s) => Ok::<ReadStoreView, OpenError>(s@),
            Err(e) => Err(e),
        }),
        r matches Ok(s) ==> part::parts_sound(s@.parts),
{
    if debris::validate_store_path(name).is_err() {
        return Err(OpenError::Reserved);
    }
    let m = match chain::read_revision(c, commit) {
        Ok((_, m)) => m,
        Err(error) => {
            return Err(OpenError::Retained { error });
        },
    };
    let current = match chain::read_authority(c) {
        Ok(Some((_, current))) => current,
        Ok(None) => {
            return Err(OpenError::NoCurrent);
        },
        Err(error) => {
            return Err(OpenError::Manifest { error });
        },
    };
    if let Err(error) = chain::verify_chain_file(c) {
        return Err(OpenError::Chain { error });
    }
    open_retained_from_container(c, m, &current, limits)
}

/// Open a read view at a retained revision.
pub fn open_read_container_at(name: &[u8], c: &Container, commit: u64) -> (r: Result<
    ReadStore,
    OpenError,
>)
    ensures
        named_view_at(name@, c@, commit, default_limits()) == (match r {
            Ok(s) => Ok::<ReadStoreView, OpenError>(s@),
            Err(e) => Err(e),
        }),
        r matches Ok(s) ==> part::parts_sound(s@.parts),
{
    open_read_container_at_with_limits(name, c, commit, ReadLimits::default())
}

} // verus!
