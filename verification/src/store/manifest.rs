//! The manifest: the one value that decides which parts, fold and history are current.
//!
//! A persisted manifest is compact JSON and a checksum trailer,
//!
//! ```text
//! payload '\n' "crc32=" eight lower-case hex digits
//! ```
//!
//! The host turns JSON into a [`Manifest`] and back; the library checks the trailer, that the JSON
//! is the one canonical encoding of what it was read as, and that the fields mean something safe.

use crate::bytes;
use crate::hash;
use crate::store::names;
use crate::text;
use vstd::prelude::*;
use vstd::slice::slice_subrange;
use vstd::utf8::*;

verus! {

/// The only schema this library writes and accepts.
pub const DRAFT_FORMAT_EPOCH: u8 = 1;

/// How many manifest revisions are retained, the current one included.
pub const MANIFEST_RETAIN: usize = 4;

/// The longest manifest payload.
pub const MAX_MANIFEST_BYTES: u64 = 67_108_864;

/// One part, pinned by its digest.
#[derive(Debug, PartialEq, Eq)]
pub struct PartRef {
    pub member: String,
    pub seq_lo: u64,
    pub seq_hi: u64,
    pub records: u32,
    /// BLAKE3 of the part member's bytes, in hexadecimal.
    pub b3: String,
}

/// Store authority.
///
/// A persisted value is a manifest revision and has `commit > 0`. The default value, with
/// `commit == 0`, is the origin and is never persisted.
#[derive(Debug, PartialEq, Eq)]
pub struct Manifest {
    pub draft_epoch: u8,
    pub parts: Vec<PartRef>,
    pub fold_gen: u32,
    pub fold_seg: u32,
    pub fold_off: u32,
    pub next_seq: u64,
    pub commit: u64,
    /// Ids of blocks whose bytes were given up, as inclusive ranges.
    pub punched: Vec<(u32, u32)>,
    /// BLAKE3 of the previous revision's bytes, in hexadecimal; absent on the first one.
    pub prev: Option<String>,
}

/// Where a manifest's fold ends.
#[derive(Clone, Copy, Debug, PartialEq, Eq, Structural)]
pub struct FoldTail {
    pub seg: u32,
    pub off: u32,
}

/// Why bytes or fields are not a manifest.
#[allow(inconsistent_fields)]
#[derive(Clone, Copy, Debug, PartialEq, Eq, Structural)]
pub enum ManifestError {
    /// There is no checksum trailer.
    NoTrailer,
    /// The payload is not the one the trailer was written for.
    Checksum { got: u32, want: u32 },
    /// The payload is longer than [`MAX_MANIFEST_BYTES`].
    TooLarge { bytes: u64 },
    /// The member that holds it is longer than [`MAX_MANIFEST_BYTES`], trailer included.
    MemberTooLarge { bytes: u64 },
    /// The payload is not JSON of a manifest.
    Json,
    /// The payload is not the canonical encoding of the manifest it was read as.
    NotCanonical,
    /// Another schema.
    Epoch { found: u8 },
    /// Revision zero.
    CommitZero,
    /// The first revision names a predecessor.
    OriginHasPredecessor,
    /// A later revision names none.
    MissingPredecessor { commit: u64 },
    /// The fold generation has no name.
    FoldGeneration { found: u32 },
    /// The fold segment has no name.
    FoldSegment { found: u32 },
    /// The fold ends inside a segment header.
    NoSegmentHeader,
    /// A part's name is not the one for its interval.
    PartName { index: usize },
    /// A part's name occurs twice.
    PartRepeated { index: usize },
    /// A part's interval is inverted.
    PartInverted { index: usize },
    /// Part intervals leave the sequence domain.
    SequenceDomain,
    /// Part intervals leave a gap or overlap.
    NotContiguous { expected: u64, found: u64 },
    /// A part's digest is not a digest.
    PartDigest { index: usize },
    /// The sequence cursor is not the newest part's.
    NextSeq { next_seq: u64, highest: u64 },
    /// Without parts the cursor must be zero.
    NextSeqWithoutParts,
    /// The predecessor's digest is not a digest.
    PrevDigest,
    /// Punched ranges are empty, overlap or descend.
    PunchedRanges,
    /// No revision number is left.
    RevisionsExhausted,
}

/// View of a [`PartRef`].
pub struct PartRefView {
    pub member: Seq<char>,
    pub seq_lo: u64,
    pub seq_hi: u64,
    pub records: u32,
    pub b3: Seq<char>,
}

/// View of a [`Manifest`].
pub struct ManifestView {
    pub draft_epoch: u8,
    pub parts: Seq<PartRefView>,
    pub fold_gen: u32,
    pub fold_seg: u32,
    pub fold_off: u32,
    pub next_seq: u64,
    pub commit: u64,
    pub punched: Seq<(u32, u32)>,
    pub prev: Option<Seq<char>>,
}

impl View for PartRef {
    type V = PartRefView;

    open spec fn view(&self) -> PartRefView {
        PartRefView {
            member: self.member@,
            seq_lo: self.seq_lo,
            seq_hi: self.seq_hi,
            records: self.records,
            b3: self.b3@,
        }
    }
}

/// Views of part references.
pub open spec fn refs_view(parts: Seq<PartRef>) -> Seq<PartRefView> {
    Seq::new(parts.len(), |i: int| parts[i]@)
}

/// View of an optional text.
pub open spec fn text_view(s: Option<String>) -> Option<Seq<char>> {
    match s {
        Some(t) => Some(t@),
        None => None,
    }
}

impl View for Manifest {
    type V = ManifestView;

    open spec fn view(&self) -> ManifestView {
        ManifestView {
            draft_epoch: self.draft_epoch,
            parts: refs_view(self.parts@),
            fold_gen: self.fold_gen,
            fold_seg: self.fold_seg,
            fold_off: self.fold_off,
            next_seq: self.next_seq,
            commit: self.commit,
            punched: self.punched@,
            prev: text_view(self.prev),
        }
    }
}

/// The manifest of a store that nothing was committed to.
pub open spec fn origin() -> ManifestView {
    ManifestView {
        draft_epoch: DRAFT_FORMAT_EPOCH,
        parts: Seq::empty(),
        fold_gen: 0,
        fold_seg: 0,
        fold_off: 0,
        next_seq: 0,
        commit: 0,
        punched: Seq::empty(),
        prev: None,
    }
}

impl Default for Manifest {
    fn default() -> (r: Manifest)
        ensures
            r@ == origin(),
    {
        let r = Manifest {
            draft_epoch: DRAFT_FORMAT_EPOCH,
            parts: Vec::new(),
            fold_gen: 0,
            fold_seg: 0,
            fold_off: 0,
            next_seq: 0,
            commit: 0,
            punched: Vec::new(),
            prev: None,
        };
        assert(r@.parts =~= origin().parts);
        r
    }
}

impl Clone for PartRef {
    fn clone(&self) -> (r: PartRef)
        ensures
            r@ == self@,
    {
        PartRef {
            member: self.member.clone(),
            seq_lo: self.seq_lo,
            seq_hi: self.seq_hi,
            records: self.records,
            b3: self.b3.clone(),
        }
    }
}

/// Copy part references.
pub fn clone_refs(parts: &Vec<PartRef>) -> (r: Vec<PartRef>)
    ensures
        refs_view(r@) == refs_view(parts@),
{
    let mut out: Vec<PartRef> = Vec::new();
    let mut i: usize = 0;
    while i < parts.len()
        invariant
            i <= parts@.len(),
            out@.len() == i,
            forall|j: int| 0 <= j < i ==> #[trigger] out@[j]@ == parts@[j]@,
        decreases parts.len() - i,
    {
        out.push(parts[i].clone());
        i = i + 1;
    }
    assert(refs_view(out@) =~= refs_view(parts@));
    out
}

/// Copy block ranges.
pub fn clone_ranges(ranges: &Vec<(u32, u32)>) -> (r: Vec<(u32, u32)>)
    ensures
        r@ == ranges@,
{
    let mut out: Vec<(u32, u32)> = Vec::new();
    let mut i: usize = 0;
    while i < ranges.len()
        invariant
            i <= ranges@.len(),
            out@ == ranges@.take(i as int),
        decreases ranges.len() - i,
    {
        out.push(ranges[i]);
        i = i + 1;
        assert(out@ =~= ranges@.take(i as int));
    }
    assert(out@ =~= ranges@);
    out
}

impl Clone for Manifest {
    fn clone(&self) -> (r: Manifest)
        ensures
            r@ == self@,
    {
        Manifest {
            draft_epoch: self.draft_epoch,
            parts: clone_refs(&self.parts),
            fold_gen: self.fold_gen,
            fold_seg: self.fold_seg,
            fold_off: self.fold_off,
            next_seq: self.next_seq,
            commit: self.commit,
            punched: clone_ranges(&self.punched),
            prev: match &self.prev {
                Some(p) => Some(p.clone()),
                None => None,
            },
        }
    }
}

fn same_refs(a: &Vec<PartRef>, b: &Vec<PartRef>) -> (r: bool)
    ensures
        r == (refs_view(a@) == refs_view(b@)),
{
    let ghost (x, y) = (refs_view(a@), refs_view(b@));
    if a.len() != b.len() {
        assert(x.len() != y.len());
        return false;
    }
    let mut i: usize = 0;
    while i < a.len()
        invariant
            x == refs_view(a@),
            y == refs_view(b@),
            a@.len() == b@.len(),
            i <= a@.len(),
            forall|k: int| 0 <= k < i ==> #[trigger] x[k] == y[k],
        decreases a.len() - i,
    {
        let (p, q) = (&a[i], &b[i]);
        assert(x[i as int] == p@ && y[i as int] == q@);
        if !bytes::str_eq(p.member.as_str(), q.member.as_str()) || p.seq_lo != q.seq_lo || p.seq_hi
            != q.seq_hi || p.records != q.records || !bytes::str_eq(p.b3.as_str(), q.b3.as_str()) {
            return false;
        }
        i = i + 1;
    }
    assert(x =~= y);
    true
}

fn same_ranges(a: &Vec<(u32, u32)>, b: &Vec<(u32, u32)>) -> (r: bool)
    ensures
        r == (a@ == b@),
{
    if a.len() != b.len() {
        return false;
    }
    let mut i: usize = 0;
    while i < a.len()
        invariant
            a@.len() == b@.len(),
            i <= a@.len(),
            forall|k: int| 0 <= k < i ==> #[trigger] a@[k] == b@[k],
        decreases a.len() - i,
    {
        if a[i].0 != b[i].0 || a[i].1 != b[i].1 {
            return false;
        }
        i = i + 1;
    }
    assert(a@ =~= b@);
    true
}

impl Manifest {
    /// Whether two manifests are the same, field by field.
    pub(crate) fn same(&self, other: &Manifest) -> (r: bool)
        ensures
            r == (self@ == other@),
    {
        let prev = match (&self.prev, &other.prev) {
            (Some(a), Some(b)) => bytes::str_eq(a.as_str(), b.as_str()),
            (None, None) => true,
            _ => false,
        };
        self.draft_epoch == other.draft_epoch && self.fold_gen == other.fold_gen && self.fold_seg
            == other.fold_seg && self.fold_off == other.fold_off && self.next_seq == other.next_seq
            && self.commit == other.commit && prev && same_ranges(&self.punched, &other.punched)
            && same_refs(&self.parts, &other.parts)
    }
}

// ---------------------------------------------------------------------------------------------
// Meaning.
// ---------------------------------------------------------------------------------------------
/// The sequence the part at `i` must begin with; none past the last sequence there is.
pub open spec fn expected_lo(parts: Seq<PartRefView>, i: int) -> Option<u64> {
    if i == 0 {
        Some(1)
    } else if parts[i - 1].seq_hi == u64::MAX {
        None
    } else {
        Some((parts[i - 1].seq_hi + 1) as u64)
    }
}

/// What is wrong with the part at `i`, given that those before it are in order.
pub open spec fn part_fault(parts: Seq<PartRefView>, fold_gen: u32, i: int) -> Option<
    ManifestError,
> {
    let p = parts[i];
    if !names::part_member_allowed(encode_utf8(p.member), p.seq_lo, p.seq_hi, fold_gen) {
        Some(ManifestError::PartName { index: i as usize })
    } else if exists|j: int| 0 <= j < i && (#[trigger] parts[j]).member == p.member {
        Some(ManifestError::PartRepeated { index: i as usize })
    } else if p.seq_lo > p.seq_hi {
        Some(ManifestError::PartInverted { index: i as usize })
    } else if expected_lo(parts, i) is None {
        Some(ManifestError::SequenceDomain)
    } else if p.seq_lo != expected_lo(parts, i)->0 {
        Some(
            ManifestError::NotContiguous { expected: expected_lo(parts, i)->0, found: p.seq_lo },
        )
    } else if !names::hex_digest(encode_utf8(p.b3)) {
        Some(ManifestError::PartDigest { index: i as usize })
    } else {
        None
    }
}

/// What is wrong first with the first `n` parts.
pub open spec fn parts_fault(parts: Seq<PartRefView>, fold_gen: u32, n: nat) -> Option<
    ManifestError,
>
    decreases n,
{
    if n == 0 {
        None
    } else {
        match parts_fault(parts, fold_gen, (n - 1) as nat) {
            Some(e) => Some(e),
            None => part_fault(parts, fold_gen, n - 1),
        }
    }
}

/// Ranges are non-empty, disjoint and ascend.
pub open spec fn ranges_ok(ranges: Seq<(u32, u32)>) -> bool {
    &&& forall|i: int| 0 <= i < ranges.len() ==> (#[trigger] ranges[i]).0 <= ranges[i].1
    &&& forall|i: int, j: int|
        0 <= i < j < ranges.len() ==> (#[trigger] ranges[i]).1 < (#[trigger] ranges[j]).0
}

/// What is wrong with the revision number and the predecessor.
pub open spec fn revision_fault(commit: u64, has_prev: bool) -> Option<ManifestError> {
    if commit == 0 {
        Some(ManifestError::CommitZero)
    } else if commit == 1 && has_prev {
        Some(ManifestError::OriginHasPredecessor)
    } else if commit != 1 && !has_prev {
        Some(ManifestError::MissingPredecessor { commit })
    } else {
        None
    }
}

/// What is wrong with the sequence cursor.
pub open spec fn cursor_fault(parts: Seq<PartRefView>, next_seq: u64) -> Option<ManifestError> {
    if parts.len() == 0 {
        if next_seq != 0 {
            Some(ManifestError::NextSeqWithoutParts)
        } else {
            None
        }
    } else if next_seq != parts.last().seq_hi {
        Some(ManifestError::NextSeq { next_seq, highest: parts.last().seq_hi })
    } else {
        None
    }
}

/// What is wrong first with a manifest's fields.
pub open spec fn manifest_fault(m: ManifestView) -> Option<ManifestError> {
    if m.draft_epoch != DRAFT_FORMAT_EPOCH {
        Some(ManifestError::Epoch { found: m.draft_epoch })
    } else if revision_fault(m.commit, m.prev is Some) is Some {
        revision_fault(m.commit, m.prev is Some)
    } else if m.fold_gen > names::MAX_FOLD_GENERATION {
        Some(ManifestError::FoldGeneration { found: m.fold_gen })
    } else if m.fold_seg > names::MAX_SEGMENT_NUMBER {
        Some(ManifestError::FoldSegment { found: m.fold_seg })
    } else if m.fold_off < names::SEG_HDR_LEN {
        Some(ManifestError::NoSegmentHeader)
    } else if parts_fault(m.parts, m.fold_gen, m.parts.len()) is Some {
        parts_fault(m.parts, m.fold_gen, m.parts.len())
    } else if cursor_fault(m.parts, m.next_seq) is Some {
        cursor_fault(m.parts, m.next_seq)
    } else if m.prev is Some && !names::hex_digest(encode_utf8(m.prev->0)) {
        Some(ManifestError::PrevDigest)
    } else if !ranges_ok(m.punched) {
        Some(ManifestError::PunchedRanges)
    } else {
        None
    }
}

fn member_repeats(parts: &Vec<PartRef>, i: usize) -> (r: bool)
    requires
        i < parts@.len(),
    ensures
        r == exists|j: int|
            0 <= j < i && (#[trigger] refs_view(parts@)[j]).member == refs_view(
                parts@,
            )[i as int].member,
{
    let mut j: usize = 0;
    while j < i
        invariant
            j <= i,
            i < parts@.len(),
            forall|k: int|
                0 <= k < j ==> (#[trigger] refs_view(parts@)[k]).member != refs_view(
                    parts@,
                )[i as int].member,
        decreases i - j,
    {
        if bytes::str_eq(parts[j].member.as_str(), parts[i].member.as_str()) {
            assert(refs_view(parts@)[j as int].member == refs_view(parts@)[i as int].member);
            return true;
        }
        j = j + 1;
    }
    false
}

fn check_parts(parts: &Vec<PartRef>, fold_gen: u32) -> (r: Result<(), ManifestError>)
    ensures
        match r {
            Ok(()) => parts_fault(refs_view(parts@), fold_gen, parts@.len()) is None,
            Err(e) => parts_fault(refs_view(parts@), fold_gen, parts@.len()) == Some(e),
        },
{
    let ghost all = refs_view(parts@);
    let mut i: usize = 0;
    while i < parts.len()
        invariant
            all == refs_view(parts@),
            i <= parts@.len(),
            parts_fault(all, fold_gen, i as nat) is None,
        decreases parts.len() - i,
    {
        let p = &parts[i];
        assert(all[i as int] == p@);
        let mut found: Option<ManifestError> = None;
        if !names::valid_part_member_name(p.member.as_str(), p.seq_lo, p.seq_hi, fold_gen) {
            found = Some(ManifestError::PartName { index: i });
        } else if member_repeats(parts, i) {
            found = Some(ManifestError::PartRepeated { index: i });
        } else if p.seq_lo > p.seq_hi {
            found = Some(ManifestError::PartInverted { index: i });
        } else {
            let expected: Option<u64> = if i == 0 {
                Some(1)
            } else {
                assert(all[i - 1] == parts@[i - 1]@);
                parts[i - 1].seq_hi.checked_add(1)
            };
            assert(expected == expected_lo(all, i as int));
            match expected {
                None => {
                    found = Some(ManifestError::SequenceDomain);
                },
                Some(expected) => {
                    if p.seq_lo != expected {
                        found = Some(ManifestError::NotContiguous { expected, found: p.seq_lo });
                    } else if !names::valid_blake3_hex(p.b3.as_str()) {
                        found = Some(ManifestError::PartDigest { index: i });
                    }
                },
            }
        }
        assert(found == part_fault(all, fold_gen, i as int));
        i = i + 1;
        if let Some(e) = found {
            proof {
                lemma_parts_fault_prefix(all, fold_gen, i as nat, all.len());
            }
            return Err(e);
        }
    }
    Ok(())
}

/// A fault among the first parts is the fault of all of them.
pub proof fn lemma_parts_fault_prefix(parts: Seq<PartRefView>, fold_gen: u32, k: nat, n: nat)
    requires
        k <= n,
        parts_fault(parts, fold_gen, k) is Some,
    ensures
        parts_fault(parts, fold_gen, n) == parts_fault(parts, fold_gen, k),
    decreases n,
{
    if k < n {
        lemma_parts_fault_prefix(parts, fold_gen, k, (n - 1) as nat);
    }
}

/// Where no part has a fault, none of the first ones has.
pub proof fn lemma_parts_fault_each(parts: Seq<PartRefView>, fold_gen: u32, n: nat, i: int)
    requires
        parts_fault(parts, fold_gen, n) is None,
        0 <= i < n,
    ensures
        part_fault(parts, fold_gen, i) is None,
    decreases n,
{
    if i < n - 1 {
        lemma_parts_fault_each(parts, fold_gen, (n - 1) as nat, i);
    }
}

/// Whether block ranges are non-empty, disjoint and ascend.
pub fn check_ranges(ranges: &Vec<(u32, u32)>) -> (r: bool)
    ensures
        r == ranges_ok(ranges@),
{
    let mut i: usize = 0;
    while i < ranges.len()
        invariant
            i <= ranges@.len(),
            ranges_ok(ranges@.take(i as int)),
        decreases ranges.len() - i,
    {
        let ghost next = ranges@.take(i + 1);
        let lo: u32 = ranges[i].0;
        let hi: u32 = ranges[i].1;
        if lo > hi {
            assert(!ranges_ok(ranges@)) by {
                assert(ranges@[i as int].0 > ranges@[i as int].1);
            }
            return false;
        }
        if i > 0 && lo <= ranges[i - 1].1 {
            assert(!ranges_ok(ranges@)) by {
                assert(ranges@[i - 1].1 >= ranges@[i as int].0);
            }
            return false;
        }
        proof {
            let before = ranges@.take(i as int);
            assert forall|a: int, b: int| 0 <= a < b < next.len() implies (
            #[trigger] next[a]).1 < (#[trigger] next[b]).0 by {
                assert(next[a] == ranges@[a] && next[b] == ranges@[b]);
                if b < i {
                    assert(before[a] == next[a] && before[b] == next[b]);
                } else if a < i - 1 {
                    assert(before[a] == next[a] && before[i - 1] == ranges@[i - 1]);
                    assert(before[i - 1].0 <= before[i - 1].1);
                }
            }
            assert forall|a: int| 0 <= a < next.len() implies (#[trigger] next[a]).0
                <= next[a].1 by {
                if a < i {
                    assert(before[a] == next[a]);
                }
            }
        }
        i = i + 1;
    }
    assert(ranges@.take(i as int) =~= ranges@);
    true
}

impl Manifest {
    /// Check every field before any of them becomes a name or the size of an allocation.
    pub fn check(&self) -> (r: Result<(), ManifestError>)
        ensures
            match r {
                Ok(()) => manifest_fault(self@) is None,
                Err(e) => manifest_fault(self@) == Some(e),
            },
    {
        if self.draft_epoch != DRAFT_FORMAT_EPOCH {
            return Err(ManifestError::Epoch { found: self.draft_epoch });
        }
        let has_prev = self.prev.is_some();
        assert(has_prev == self@.prev is Some);
        if self.commit == 0 {
            return Err(ManifestError::CommitZero);
        }
        if self.commit == 1 && has_prev {
            return Err(ManifestError::OriginHasPredecessor);
        }
        if self.commit != 1 && !has_prev {
            return Err(ManifestError::MissingPredecessor { commit: self.commit });
        }
        if self.fold_gen > names::MAX_FOLD_GENERATION {
            return Err(ManifestError::FoldGeneration { found: self.fold_gen });
        }
        if self.fold_seg > names::MAX_SEGMENT_NUMBER {
            return Err(ManifestError::FoldSegment { found: self.fold_seg });
        }
        if (self.fold_off as u64) < names::SEG_HDR_LEN {
            return Err(ManifestError::NoSegmentHeader);
        }
        if let Err(e) = check_parts(&self.parts, self.fold_gen) {
            return Err(e);
        }
        let n: usize = self.parts.len();
        if n == 0 {
            if self.next_seq != 0 {
                return Err(ManifestError::NextSeqWithoutParts);
            }
        } else {
            let highest: u64 = self.parts[n - 1].seq_hi;
            assert(self@.parts.last() == self.parts@[n - 1]@);
            if self.next_seq != highest {
                return Err(ManifestError::NextSeq { next_seq: self.next_seq, highest });
            }
        }
        if let Some(prev) = &self.prev {
            if !names::valid_blake3_hex(prev.as_str()) {
                return Err(ManifestError::PrevDigest);
            }
        }
        if !check_ranges(&self.punched) {
            return Err(ManifestError::PunchedRanges);
        }
        Ok(())
    }

    /// Pass a manifest on where its fields are valid.
    pub fn validate(self) -> (r: Result<Manifest, ManifestError>)
        ensures
            match r {
                Ok(m) => m == self && manifest_fault(self@) is None,
                Err(e) => manifest_fault(self@) == Some(e),
            },
    {
        match self.check() {
            Ok(()) => Ok(self),
            Err(e) => Err(e),
        }
    }

    /// Where the committed fold ends; the origin has none.
    pub fn fold_tail(&self) -> (r: Option<FoldTail>)
        ensures
            r == tail_of(self@),
    {
        if self.commit == 0 {
            None
        } else {
            Some(FoldTail { seg: self.fold_seg, off: self.fold_off })
        }
    }
}

/// Where a manifest's fold ends.
pub open spec fn tail_of(m: ManifestView) -> Option<FoldTail> {
    if m.commit == 0 {
        None
    } else {
        Some(FoldTail { seg: m.fold_seg, off: m.fold_off })
    }
}

/// In a valid manifest part intervals begin at one, touch, and end at the cursor; names are
/// unique.
pub proof fn lemma_valid_intervals(m: ManifestView)
    requires
        manifest_fault(m) is None,
    ensures
        m.parts.len() == 0 ==> m.next_seq == 0,
        m.parts.len() > 0 ==> m.parts[0].seq_lo == 1 && m.parts.last().seq_hi == m.next_seq,
        forall|i: int|
            0 <= i < m.parts.len() ==> 1 <= (#[trigger] m.parts[i]).seq_lo <= m.parts[i].seq_hi
                <= m.next_seq,
        forall|i: int, j: int|
            0 <= i < j < m.parts.len() ==> (#[trigger] m.parts[i]).seq_hi < (
            #[trigger] m.parts[j]).seq_lo && m.parts[i].member != m.parts[j].member,
        forall|i: int|
            0 < i < m.parts.len() ==> m.parts[i - 1].seq_hi + 1 == (#[trigger] m.parts[i]).seq_lo,
{
    let parts = m.parts;
    let n = parts.len();
    assert forall|i: int| 0 <= i < n implies part_fault(parts, m.fold_gen, i) is None by {
        lemma_parts_fault_each(parts, m.fold_gen, n, i);
    }
    assert forall|i: int| 0 < i < n implies parts[i - 1].seq_hi + 1 == (
    #[trigger] parts[i]).seq_lo by {
        assert(part_fault(parts, m.fold_gen, i) is None);
    }
    assert forall|i: int, j: int| 0 <= i < j < n implies (#[trigger] parts[i]).seq_hi < (
    #[trigger] parts[j]).seq_lo && parts[i].member != parts[j].member by {
        lemma_interval_order(parts, m.fold_gen, i, j);
        assert(part_fault(parts, m.fold_gen, j) is None);
    }
    if n > 0 {
        assert(part_fault(parts, m.fold_gen, 0) is None);
    }
    assert forall|i: int| 0 <= i < n implies 1 <= (#[trigger] parts[i]).seq_lo <= parts[i].seq_hi
        <= m.next_seq by {
        assert(part_fault(parts, m.fold_gen, i) is None);
        if i < n - 1 {
            lemma_interval_order(parts, m.fold_gen, i, n - 1);
            assert(part_fault(parts, m.fold_gen, n - 1) is None);
        }
        if i > 0 {
            lemma_interval_order(parts, m.fold_gen, 0, i);
        }
    }
}

proof fn lemma_interval_order(parts: Seq<PartRefView>, fold_gen: u32, i: int, j: int)
    requires
        0 <= i < j < parts.len(),
        forall|k: int| 0 <= k < parts.len() ==> part_fault(parts, fold_gen, k) is None,
    ensures
        parts[i].seq_hi < parts[j].seq_lo,
    decreases j - i,
{
    assert(part_fault(parts, fold_gen, j) is None);
    if i < j - 1 {
        lemma_interval_order(parts, fold_gen, i, j - 1);
        assert(part_fault(parts, fold_gen, j - 1) is None);
    }
}

// ---------------------------------------------------------------------------------------------
// Trailer.
// ---------------------------------------------------------------------------------------------
/// What a trailer begins with.
pub open spec fn trailer_mark() -> Seq<u8> {
    encode_utf8("\ncrc32="@)
}

/// The trailer that records a checksum.
pub open spec fn trailer(crc: u32) -> Seq<u8> {
    trailer_mark() + text::hex(text::big_endian(crc))
}

/// A payload with its trailer.
pub open spec fn sealed(payload: Seq<u8>) -> Seq<u8> {
    payload + trailer(hash::crc32_of(payload))
}

/// The value of a hexadecimal digit.
pub open spec fn nibble(b: u8) -> int {
    if b <= 57 {
        b - 48
    } else {
        b - 87
    }
}

/// The value of a hexadecimal digit string.
pub open spec fn hex_value(s: Seq<u8>) -> int
    decreases s.len(),
{
    if s.len() == 0 {
        0
    } else {
        16 * hex_value(s.drop_last()) + nibble(s.last())
    }
}

/// Every byte is a lower-case hexadecimal digit.
pub open spec fn all_hex(s: Seq<u8>) -> bool {
    forall|i: int| 0 <= i < s.len() ==> names::is_hex(#[trigger] s[i])
}

/// The payload and the recorded checksum of bytes that end in a trailer.
pub open spec fn trailer_of(b: Seq<u8>) -> Option<(Seq<u8>, u32)> {
    let at = b.len() - 15;
    if at >= 0 && b.subrange(at, at + 7) == trailer_mark() && all_hex(
        b.subrange(at + 7, b.len() as int),
    ) {
        Some((b.take(at), hex_value(b.subrange(at + 7, b.len() as int)) as u32))
    } else {
        None
    }
}

/// What bytes hold as a manifest payload: the payload, or the first fault of the frame round it.
pub open spec fn payload_of(b: Seq<u8>) -> Result<Seq<u8>, ManifestError> {
    match trailer_of(b) {
        None => Err(ManifestError::NoTrailer),
        Some((payload, want)) => {
            if hash::crc32_of(payload) != want {
                Err(ManifestError::Checksum { got: hash::crc32_of(payload), want })
            } else if payload.len() > MAX_MANIFEST_BYTES {
                Err(ManifestError::TooLarge { bytes: payload.len() as u64 })
            } else {
                Ok(payload)
            }
        },
    }
}

proof fn lemma_mark()
    ensures
        trailer_mark().len() == 7,
{
    reveal_strlit("\ncrc32=");
    is_ascii_chars_encode_utf8("\ncrc32="@);
}

proof fn lemma_hex_value_bound(s: Seq<u8>)
    requires
        all_hex(s),
        s.len() <= 8,
    ensures
        0 <= hex_value(s),
        s.len() == 8 ==> hex_value(s) <= u32::MAX,
        s.len() == 7 ==> hex_value(s) < 0x1000_0000,
        s.len() == 6 ==> hex_value(s) < 0x100_0000,
        s.len() == 5 ==> hex_value(s) < 0x10_0000,
        s.len() == 4 ==> hex_value(s) < 0x1_0000,
        s.len() == 3 ==> hex_value(s) < 0x1000,
        s.len() == 2 ==> hex_value(s) < 0x100,
        s.len() == 1 ==> hex_value(s) < 0x10,
        s.len() == 0 ==> hex_value(s) == 0,
    decreases s.len(),
{
    if s.len() > 0 {
        assert forall|i: int| 0 <= i < s.drop_last().len() implies names::is_hex(
            #[trigger] s.drop_last()[i],
        ) by {
            assert(names::is_hex(s[i]));
        }
        assert(names::is_hex(s[s.len() - 1]));
        lemma_hex_value_bound(s.drop_last());
    }
}

/// Eight hexadecimal digits of a checksum read back as the checksum.
#[verifier::spinoff_prover]
#[verifier::rlimit(40)]
proof fn lemma_hex_of_crc(crc: u32)
    ensures
        text::hex(text::big_endian(crc)).len() == 8,
        all_hex(text::hex(text::big_endian(crc))),
        hex_value(text::hex(text::big_endian(crc))) == crc,
{
    let b = text::big_endian(crc);
    let h = text::hex(b);
    assert(h.len() == 8);
    assert forall|i: int| 0 <= i < h.len() implies names::is_hex(#[trigger] h[i]) && nibble(h[i])
        == (if i % 2 == 0 {
        b[i / 2] as int / 16
    } else {
        b[i / 2] as int % 16
    }) by {
        let v = b[i / 2] as int;
        assert(0 <= v / 16 < 16 && 0 <= v % 16 < 16);
    }
    let (b0, b1, b2, b3) = (b[0] as int, b[1] as int, b[2] as int, b[3] as int);
    let c = crc as int;
    assert(b0 == c / 0x100_0000 && b1 == c / 0x1_0000 % 0x100 && b2 == c / 0x100 % 0x100 && b3 == c
        % 0x100);
    assert(nibble(h[0]) == b0 / 16 && nibble(h[1]) == b0 % 16 && nibble(h[2]) == b1 / 16 && nibble(
        h[3],
    ) == b1 % 16);
    assert(nibble(h[4]) == b2 / 16 && nibble(h[5]) == b2 % 16 && nibble(h[6]) == b3 / 16 && nibble(
        h[7],
    ) == b3 % 16);
    let h1 = h.take(1);
    let h2 = h.take(2);
    let h3 = h.take(3);
    let h4 = h.take(4);
    let h5 = h.take(5);
    let h6 = h.take(6);
    let h7 = h.take(7);
    assert(h.drop_last() =~= h7);
    assert(h7.drop_last() =~= h6 && h7.last() == h[6]);
    assert(h6.drop_last() =~= h5 && h6.last() == h[5]);
    assert(h5.drop_last() =~= h4 && h5.last() == h[4]);
    assert(h4.drop_last() =~= h3 && h4.last() == h[3]);
    assert(h3.drop_last() =~= h2 && h3.last() == h[2]);
    assert(h2.drop_last() =~= h1 && h2.last() == h[1]);
    assert(h1.drop_last() =~= Seq::<u8>::empty() && h1.last() == h[0]);
    assert(hex_value(Seq::<u8>::empty()) == 0);
    assert(hex_value(h1) == 16 * hex_value(h1.drop_last()) + nibble(h1.last()));
    assert(hex_value(h1) == b0 / 16);
    assert(hex_value(h2) == b0);
    assert(hex_value(h3) == 16 * b0 + b1 / 16);
    assert(hex_value(h4) == 256 * b0 + b1);
    assert(hex_value(h5) == 16 * (256 * b0 + b1) + b2 / 16);
    assert(hex_value(h6) == 256 * (256 * b0 + b1) + b2);
    assert(hex_value(h7) == 16 * (256 * (256 * b0 + b1) + b2) + b3 / 16);
    assert(hex_value(h) == 256 * (256 * (256 * b0 + b1) + b2) + b3);
}

/// A sealed payload opens to itself: its trailer is found, and its checksum holds.
pub proof fn lemma_sealed_opens(payload: Seq<u8>)
    ensures
        trailer_of(sealed(payload)) == Some((payload, hash::crc32_of(payload))),
        payload.len() <= MAX_MANIFEST_BYTES ==> payload_of(sealed(payload)) == Ok::<
            Seq<u8>,
            ManifestError,
        >(payload),
{
    let crc = hash::crc32_of(payload);
    let b = sealed(payload);
    lemma_mark();
    lemma_hex_of_crc(crc);
    let at = b.len() - 15;
    assert(at == payload.len());
    assert(b.subrange(at, at + 7) =~= trailer_mark());
    assert(b.subrange(at + 7, b.len() as int) =~= text::hex(text::big_endian(crc)));
    assert(b.take(at) =~= payload);
}

/// A byte string is sealed in one way only: what opens to a payload is that payload's seal.
pub proof fn lemma_opens_only_sealed(b: Seq<u8>)
    requires
        payload_of(b) is Ok,
    ensures
        b == sealed(payload_of(b)->Ok_0),
{
    let (payload, want) = trailer_of(b)->0;
    let at = b.len() - 15;
    let digits = b.subrange(at + 7, b.len() as int);
    lemma_mark();
    lemma_hex_value_bound(digits);
    lemma_hex_of_crc(want);
    lemma_hex_value_injective(digits, text::hex(text::big_endian(want)));
    assert(b =~= payload + (trailer_mark() + digits));
}

proof fn lemma_hex_value_injective(a: Seq<u8>, b: Seq<u8>)
    requires
        all_hex(a),
        all_hex(b),
        a.len() == b.len(),
        hex_value(a) == hex_value(b),
    ensures
        a == b,
    decreases a.len(),
{
    if a.len() > 0 {
        assert(names::is_hex(a[a.len() - 1]) && names::is_hex(b[b.len() - 1]));
        assert forall|i: int| 0 <= i < a.drop_last().len() implies names::is_hex(
            #[trigger] a.drop_last()[i],
        ) by {
            assert(names::is_hex(a[i]));
        }
        assert forall|i: int| 0 <= i < b.drop_last().len() implies names::is_hex(
            #[trigger] b.drop_last()[i],
        ) by {
            assert(names::is_hex(b[i]));
        }
        lemma_hex_value_injective(a.drop_last(), b.drop_last());
        assert(a =~= a.drop_last().push(a.last()));
        assert(b =~= b.drop_last().push(b.last()));
    } else {
        assert(a =~= b);
    }
}

fn hex_digits(s: &[u8]) -> (r: Option<u32>)
    requires
        s@.len() == 8,
    ensures
        r == (if all_hex(s@) {
            Some(hex_value(s@) as u32)
        } else {
            None
        }),
{
    let mut v: u64 = 0;
    let mut i: usize = 0;
    assert(s@.take(0) =~= Seq::<u8>::empty());
    while i < 8
        invariant
            i <= 8,
            s@.len() == 8,
            all_hex(s@.take(i as int)),
            v == hex_value(s@.take(i as int)),
            v <= u32::MAX,
        decreases 8 - i,
    {
        let b: u8 = s[i];
        if !((b >= 48 && b <= 57) || (b >= 97 && b <= 102)) {
            assert(!names::is_hex(s@[i as int]));
            return None;
        }
        let digit: u8 = if b <= 57 {
            b - 48
        } else {
            b - 87
        };
        proof {
            let next = s@.take(i + 1);
            let before = s@.take(i as int);
            assert(next.drop_last() =~= before);
            assert(next.last() == b);
            assert forall|k: int| 0 <= k < next.len() implies names::is_hex(#[trigger] next[k]) by {
                if k < i {
                    assert(next[k] == before[k]);
                }
            }
            lemma_hex_value_bound(next);
        }
        v = 16 * v + digit as u64;
        i = i + 1;
    }
    assert(s@.take(8) =~= s@);
    Some(v as u32)
}

/// Split bytes into a payload and the checksum recorded behind it.
pub fn checksum_trailer<'a>(b: &'a [u8]) -> (r: Option<(&'a [u8], u32)>)
    ensures
        match r {
            Some((payload, want)) => trailer_of(b@) == Some((payload@, want)),
            None => trailer_of(b@) is None,
        },
{
    if b.len() < 15 {
        return None;
    }
    let at: usize = b.len() - 15;
    let mark = slice_subrange(b, at, at + 7);
    let digits = slice_subrange(b, at + 7, b.len());
    if !bytes::bytes_eq(mark, "\ncrc32=".as_bytes()) {
        return None;
    }
    match hex_digits(digits) {
        Some(want) => {
            let payload = slice_subrange(b, 0, at);
            assert(payload@ =~= b@.take(at as int));
            Some((payload, want))
        },
        None => None,
    }
}

/// The payload of a persisted manifest, once its trailer and its size are checked.
pub fn open_payload<'a>(b: &'a [u8]) -> (r: Result<&'a [u8], ManifestError>)
    ensures
        match r {
            Ok(payload) => payload_of(b@) == Ok::<Seq<u8>, ManifestError>(payload@),
            Err(e) => payload_of(b@) == Err::<Seq<u8>, ManifestError>(e),
        },
{
    match checksum_trailer(b) {
        None => Err(ManifestError::NoTrailer),
        Some((payload, want)) => {
            let got: u32 = hash::crc32(payload);
            if got != want {
                return Err(ManifestError::Checksum { got, want });
            }
            if payload.len() as u64 > MAX_MANIFEST_BYTES {
                return Err(ManifestError::TooLarge { bytes: payload.len() as u64 });
            }
            Ok(payload)
        },
    }
}

/// A payload with its trailer: the bytes of a persisted manifest.
pub fn seal_payload(payload: &[u8]) -> (r: Vec<u8>)
    ensures
        r@ == sealed(payload@),
{
    let crc: u32 = hash::crc32(payload);
    let be = text::big_endian_bytes(crc);
    let digits = text::hex_bytes(be.as_slice());
    let mut out: Vec<u8> = Vec::new();
    bytes::append_bytes(&mut out, payload);
    bytes::append_bytes(&mut out, "\ncrc32=".as_bytes());
    bytes::append_bytes(&mut out, digits.as_slice());
    assert(out@ =~= sealed(payload@));
    out
}

/// What the host's JSON parser made of a payload: the manifest it read, and that manifest written
/// again.
#[derive(Debug, PartialEq, Eq)]
pub struct DecodedManifest {
    pub manifest: Manifest,
    pub encoded: Vec<u8>,
}

/// View of a [`DecodedManifest`].
pub struct DecodedView {
    pub manifest: ManifestView,
    pub encoded: Seq<u8>,
}

impl View for DecodedManifest {
    type V = DecodedView;

    open spec fn view(&self) -> DecodedView {
        DecodedView { manifest: self.manifest@, encoded: self.encoded@ }
    }
}

impl Clone for DecodedManifest {
    fn clone(&self) -> (r: DecodedManifest)
        ensures
            r@ == self@,
    {
        let mut encoded: Vec<u8> = Vec::new();
        bytes::append_bytes(&mut encoded, self.encoded.as_slice());
        assert(encoded@ =~= self.encoded@);
        DecodedManifest { manifest: self.manifest.clone(), encoded }
    }
}

/// View of an optional decoding.
pub open spec fn decoded_view(d: Option<DecodedManifest>) -> Option<DecodedView> {
    match d {
        Some(d) => Some(d@),
        None => None,
    }
}

/// The manifest that bytes hold, given what their payload decodes to.
pub open spec fn parsed(b: Seq<u8>, decoded: Option<DecodedView>) -> Result<
    ManifestView,
    ManifestError,
> {
    match payload_of(b) {
        Err(e) => Err(e),
        Ok(payload) => match decoded {
            None => Err(ManifestError::Json),
            Some(d) => if d.encoded != payload {
                Err(ManifestError::NotCanonical)
            } else {
                match manifest_fault(d.manifest) {
                    Some(e) => Err(e),
                    None => Ok(d.manifest),
                }
            },
        },
    }
}

impl Manifest {
    /// The manifest that bytes hold, given what the host's JSON parser made of their payload.
    pub fn parse(b: &[u8], decoded: &Option<DecodedManifest>) -> (r: Result<
        Manifest,
        ManifestError,
    >)
        ensures
            match r {
                Ok(m) => parsed(b@, decoded_view(*decoded)) == Ok::<ManifestView, ManifestError>(
                    m@,
                ),
                Err(e) => parsed(b@, decoded_view(*decoded)) == Err::<
                    ManifestView,
                    ManifestError,
                >(e),
            },
    {
        match open_payload(b) {
            Err(e) => Err(e),
            Ok(payload) => match decoded {
                None => Err(ManifestError::Json),
                Some(d) => {
                    if !bytes::bytes_eq(d.encoded.as_slice(), payload) {
                        return Err(ManifestError::NotCanonical);
                    }
                    match d.manifest.check() {
                        Ok(()) => Ok(d.manifest.clone()),
                        Err(e) => Err(e),
                    }
                },
            },
        }
    }
}

/// A manifest is read from one byte string only: the sealed encoding of it that the host wrote back.
/// Bare JSON, another encoding of the same manifest, or a damaged trailer is none.
pub proof fn lemma_parsed_is_sealed(b: Seq<u8>, decoded: Option<DecodedView>)
    requires
        parsed(b, decoded) is Ok,
    ensures
        decoded is Some,
        b == sealed(decoded->0.encoded),
        parsed(b, decoded)->Ok_0 == decoded->0.manifest,
        manifest_fault(decoded->0.manifest) is None,
{
    lemma_opens_only_sealed(b);
}

/// A valid manifest reads back from the seal of its encoding, field by field, where the host decodes
/// the encoding as that manifest and writes it back alike.
pub proof fn lemma_sealed_parses(m: ManifestView, encoded: Seq<u8>)
    requires
        manifest_fault(m) is None,
        encoded.len() <= MAX_MANIFEST_BYTES,
    ensures
        parsed(sealed(encoded), Some(DecodedView { manifest: m, encoded })) == Ok::<
            ManifestView,
            ManifestError,
        >(m),
{
    lemma_sealed_opens(encoded);
}

// ---------------------------------------------------------------------------------------------
// Revisions.
// ---------------------------------------------------------------------------------------------
/// The digest that links a revision to the bytes it replaces.
pub open spec fn link(bytes: Seq<u8>) -> Seq<u8> {
    text::hex(hash::blake3_digest(bytes))
}

/// A manifest as the next revision over the bytes it replaces.
pub open spec fn succeeding(m: ManifestView, next: ManifestView, predecessor: Option<
    Seq<u8>,
>) -> bool {
    &&& next.commit == m.commit + 1
    &&& match predecessor {
        Some(b) => next.prev is Some && encode_utf8(next.prev->0) == link(b),
        None => next.prev is None,
    }
    &&& next.draft_epoch == m.draft_epoch
    &&& next.parts == m.parts
    &&& next.fold_gen == m.fold_gen
    &&& next.fold_seg == m.fold_seg
    &&& next.fold_off == m.fold_off
    &&& next.next_seq == m.next_seq
    &&& next.punched == m.punched
}

impl Manifest {
    /// Make this manifest the revision that follows the bytes it replaces, and check it.
    ///
    /// Where that fails the store must be treated as poisoned: the fields keep what was set.
    pub fn next_revision(&mut self, predecessor: Option<&[u8]>) -> (r: Result<(), ManifestError>)
        ensures
            match r {
                Ok(()) => succeeding(
                    old(self)@,
                    final(self)@,
                    match predecessor {
                        Some(b) => Some(b@),
                        None => None,
                    },
                ) && manifest_fault(final(self)@) is None,
                Err(e) => if old(self).commit == u64::MAX {
                    e == ManifestError::RevisionsExhausted && *final(self) == *old(self)
                } else {
                    succeeding(
                        old(self)@,
                        final(self)@,
                        match predecessor {
                            Some(b) => Some(b@),
                            None => None,
                        },
                    ) && manifest_fault(final(self)@) == Some(e)
                },
            },
    {
        match self.commit.checked_add(1) {
            None => Err(ManifestError::RevisionsExhausted),
            Some(commit) => {
                self.commit = commit;
                self.prev =
                match predecessor {
                    Some(b) => {
                        let digest = hash::blake3_hash(b);
                        Some(text::hex_text(digest.as_slice()))
                    },
                    None => None,
                };
                self.check()
            },
        }
    }
}

/// The last revision that the window behind `commit` no longer keeps.
pub open spec fn oldest_expired(commit: u64) -> u64 {
    if commit >= MANIFEST_RETAIN {
        (commit - MANIFEST_RETAIN) as u64
    } else {
        0
    }
}

} // verus!
