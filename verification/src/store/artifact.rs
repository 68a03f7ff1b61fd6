//! Whole-store verification: what an artifact must pass before it may be installed, and what a
//! retained revision must pass before it may be promoted.

use crate::container::{Container, ContainerView, MemberView};
use crate::fold::{BlockView, Fold, FoldError, FoldView};
use crate::part;
use crate::part::{Part, PartView};
use crate::read_limits::{ReadAdmissionError, ReadLimits};
use crate::store::audit;
use crate::store::audit::ValueFault;
use crate::store::chain;
use crate::store::chain::{ChainError, ChainReport, PinFault};
use crate::store::checksum;
use crate::store::checksum::MembersError;
use crate::store::manifest;
use crate::store::manifest::{Manifest, ManifestView};
use crate::store::names::SEG_HDR_LEN;
use crate::store::open;
use crate::store::open::{FoldOpenError, OpenError, TailRule};
use vstd::prelude::*;

verus! {

// ---------------------------------------------------------------------------------------------
// Scrubbing.
// ---------------------------------------------------------------------------------------------
/// What a walk over a fold counted, each held at the largest number that fits.
#[derive(Clone, Copy, Debug, PartialEq, Eq, Structural)]
pub struct FoldScrub {
    pub segments: usize,
    pub blocks: usize,
    pub bytes: u64,
}

/// Where the last frame of a segment ends among the first `n` blocks; a segment without frames
/// ends with its header.
pub open spec fn frames_end(blocks: Seq<BlockView>, seg: u32, n: nat) -> u64
    decreases n,
{
    if n == 0 {
        SEG_HDR_LEN
    } else if blocks[n - 1].segment == seg {
        blocks[n - 1].end
    } else {
        frames_end(blocks, seg, (n - 1) as nat)
    }
}

/// The first of the first `n` segments whose frames do not reach exactly to its end.
pub open spec fn frames_fault(f: FoldView, n: nat) -> Option<u32>
    decreases n,
{
    if n == 0 {
        None
    } else {
        match frames_fault(f, (n - 1) as nat) {
            Some(seg) => Some(seg),
            None => {
                let (seg, len) = f.segments[n - 1];
                if frames_end(f.blocks, seg, f.blocks.len()) != len {
                    Some(seg)
                } else {
                    None
                }
            },
        }
    }
}

/// How many bytes the first `n` blocks decode to.
pub open spec fn decoded_bytes(blocks: Seq<BlockView>, n: nat) -> nat
    decreases n,
{
    if n == 0 {
        0
    } else {
        decoded_bytes(blocks, (n - 1) as nat) + blocks[n - 1].bytes.len()
    }
}

/// What a walk over a fold counts.
pub open spec fn scrubbed(f: FoldView) -> FoldScrub {
    FoldScrub {
        segments: audit::fit(f.segments.len()),
        blocks: audit::fit(f.blocks.len()),
        bytes: audit::fit64(decoded_bytes(f.blocks, f.blocks.len())),
    }
}

/// Where the last frame of a segment ends.
pub fn last_frame(f: &Fold, seg: u32) -> (r: u64)
    ensures
        r == frames_end(f@.blocks, seg, f@.blocks.len()),
{
    let ghost blocks = f@.blocks;
    let mut end: u64 = SEG_HDR_LEN;
    let mut i: usize = 0;
    while i < f.blocks.len()
        invariant
            blocks == f@.blocks,
            i <= f.blocks@.len(),
            end == frames_end(blocks, seg, i as nat),
        decreases f.blocks.len() - i,
    {
        assert(blocks[i as int] == f.blocks@[i as int]@);
        if f.blocks[i].segment == seg {
            end = f.blocks[i].end;
        }
        i = i + 1;
    }
    end
}

proof fn lemma_frames_prefix(f: FoldView, k: nat, n: nat)
    requires
        k <= n,
        frames_fault(f, k) is Some,
    ensures
        frames_fault(f, n) == frames_fault(f, k),
    decreases n,
{
    if k < n {
        lemma_frames_prefix(f, k, (n - 1) as nat);
    }
}

/// Walk over a fold and count. Frames must lie dense to the end of every segment.
pub fn scrub(f: &Fold) -> (r: Result<FoldScrub, u32>)
    ensures
        match r {
            Ok(counts) => frames_fault(f@, f@.segments.len()) is None && counts == scrubbed(f@),
            Err(seg) => frames_fault(f@, f@.segments.len()) == Some(seg),
        },
{
    let ghost blocks = f@.blocks;
    let mut i: usize = 0;
    while i < f.segments.len()
        invariant
            i <= f.segments@.len(),
            frames_fault(f@, i as nat) is None,
        decreases f.segments.len() - i,
    {
        let (seg, len) = f.segments[i];
        let end: u64 = last_frame(f, seg);
        i = i + 1;
        if end != len {
            proof {
                lemma_frames_prefix(f@, i as nat, f@.segments.len());
            }
            return Err(seg);
        }
    }
    let mut bytes: u64 = 0;
    let mut i: usize = 0;
    while i < f.blocks.len()
        invariant
            blocks == f@.blocks,
            i <= f.blocks@.len(),
            bytes == audit::fit64(decoded_bytes(blocks, i as nat)),
        decreases f.blocks.len() - i,
    {
        assert(blocks[i as int] == f.blocks@[i as int]@);
        bytes =
        audit::add_fit64(
            bytes,
            f.blocks[i].bytes.len() as u64,
            Ghost(decoded_bytes(blocks, i as nat)),
        );
        i = i + 1;
    }
    Ok(FoldScrub { segments: f.segments.len(), blocks: f.blocks.len(), bytes })
}

// ---------------------------------------------------------------------------------------------
// Committed stores.
// ---------------------------------------------------------------------------------------------
/// Evidence from the complete verification of one store authority.
#[derive(Clone, Copy, Debug, PartialEq, Eq, Structural)]
pub struct StoreVerification {
    pub chain: ChainReport,
    pub fold: FoldScrub,
    pub parts: usize,
    pub part_sections: usize,
    pub records: usize,
    pub content_values: usize,
    pub content_bytes: u64,
    pub content_identities: usize,
}

/// Why an artifact does not verify.
#[allow(inconsistent_fields)]
#[derive(Clone, Copy, Debug, PartialEq, Eq, Structural)]
pub enum ArtifactError {
    /// There are more members than a reader may enumerate.
    Directory { error: ReadAdmissionError },
    /// A member is not the one the container recorded.
    Members { error: MembersError },
    /// The retained chain does not hold.
    Chain { error: ChainError },
    /// The store does not open.
    Open { error: OpenError },
    /// A retained revision does not open.
    RetainedOpen { commit: u64, error: OpenError },
    /// A retained revision's dictionary entry does not read.
    RetainedDictionary { commit: u64, part: usize, error: FoldError },
    /// A retained revision's content does not verify.
    RetainedValue { commit: u64, fault: ValueFault },
    /// A segment's frames do not reach exactly to its end.
    Frames { seg: u32 },
    /// A dictionary entry does not read.
    Dictionary { part: usize, error: FoldError },
    /// A content value does not verify.
    Value { fault: ValueFault },
}

/// What is wrong first with the dictionaries of the first `n` parts.
pub open spec fn dictionaries_fault(parts: Seq<PartView>, f: FoldView, n: nat) -> Option<
    (usize, FoldError),
>
    decreases n,
{
    if n == 0 {
        None
    } else {
        match dictionaries_fault(parts, f, (n - 1) as nat) {
            Some(e) => Some(e),
            None => match audit::dictionary_fault(
                f,
                parts[n - 1].pieces,
                parts[n - 1].pieces.len(),
            ) {
                Some(error) => Some(((n - 1) as usize, error)),
                None => None,
            },
        }
    }
}

/// How many sections the first `n` parts have.
pub open spec fn sections_total(parts: Seq<PartView>, n: nat) -> nat
    decreases n,
{
    if n == 0 {
        0
    } else {
        sections_total(parts, (n - 1) as nat) + parts[n - 1].sections as nat
    }
}

proof fn lemma_dictionaries_prefix(parts: Seq<PartView>, f: FoldView, k: nat, n: nat)
    requires
        k <= n,
        dictionaries_fault(parts, f, k) is Some,
    ensures
        dictionaries_fault(parts, f, n) == dictionaries_fault(parts, f, k),
    decreases n,
{
    if k < n {
        lemma_dictionaries_prefix(parts, f, k, (n - 1) as nat);
    }
}

fn verify_dictionaries(parts: &Vec<Part>, f: &Fold) -> (r: Result<usize, (usize, FoldError)>)
    ensures
        ({
            let all = part::parts_view(parts@);
            let fault = dictionaries_fault(all, f@, all.len());
            match r {
                Ok(sections) => fault is None && sections == audit::fit(
                    sections_total(all, all.len()),
                ),
                Err(e) => fault == Some(e),
            }
        }),
{
    let ghost all = part::parts_view(parts@);
    let mut sections: usize = 0;
    let mut p: usize = 0;
    while p < parts.len()
        invariant
            all == part::parts_view(parts@),
            p <= parts@.len(),
            dictionaries_fault(all, f@, p as nat) is None,
            sections == audit::fit(sections_total(all, p as nat)),
        decreases parts.len() - p,
    {
        assert(all[p as int] == parts@[p as int]@);
        match audit::verify_piece_dictionary(&parts[p], f) {
            Ok(_) => {},
            Err(error) => {
                proof {
                    lemma_dictionaries_prefix(all, f@, (p + 1) as nat, all.len());
                }
                return Err((p, error));
            },
        }
        sections =
        audit::add_fit(sections, parts[p].sections, Ghost(sections_total(all, p as nat)));
        p = p + 1;
    }
    Ok(sections)
}

/// The verification of an open store.
pub open spec fn committed(parts: Seq<PartView>, f: FoldView, chain: ChainReport) -> Result<
    StoreVerification,
    ArtifactError,
> {
    match frames_fault(f, f.segments.len()) {
        Some(seg) => Err(ArtifactError::Frames { seg }),
        None => match dictionaries_fault(parts, f, parts.len()) {
            Some((part, error)) => Err(ArtifactError::Dictionary { part, error }),
            None => match audit::values_fault(parts, f, false, parts.len()) {
                Some(fault) => Err(ArtifactError::Value { fault }),
                None => {
                    let v = audit::counted(audit::tally(parts, f, parts.len()));
                    Ok(
                        StoreVerification {
                            chain,
                            fold: scrubbed(f),
                            parts: parts.len() as usize,
                            part_sections: audit::fit(sections_total(parts, parts.len())),
                            records: v.records,
                            content_values: v.values,
                            content_bytes: v.bytes,
                            content_identities: v.values,
                        },
                    )
                },
            },
        },
    }
}

/// Verify the fold, every dictionary and every live value of an open store.
pub fn verify_committed_store(parts: &Vec<Part>, f: &Fold, chain: ChainReport) -> (r: Result<
    StoreVerification,
    ArtifactError,
>)
    requires
        part::parts_sound(part::parts_view(parts@)),
    ensures
        r == committed(part::parts_view(parts@), f@, chain),
{
    let fold = match scrub(f) {
        Ok(counts) => counts,
        Err(seg) => {
            return Err(ArtifactError::Frames { seg });
        },
    };
    let part_sections: usize = match verify_dictionaries(parts, f) {
        Ok(sections) => sections,
        Err((part, error)) => {
            return Err(ArtifactError::Dictionary { part, error });
        },
    };
    match audit::verify_visible_content(parts, f, false) {
        Err(fault) => Err(ArtifactError::Value { fault }),
        Ok(v) => Ok(
            StoreVerification {
                chain,
                fold,
                parts: parts.len(),
                part_sections,
                records: v.records,
                content_values: v.values,
                content_bytes: v.bytes,
                content_identities: v.values,
            },
        ),
    }
}

// ---------------------------------------------------------------------------------------------
// Retained authority.
// ---------------------------------------------------------------------------------------------
/// What is wrong with one retained revision: it must open at its own fold's end, its dictionaries
/// must read, and its values must verify but for what was given up since.
pub open spec fn retained_one(
    ms: Seq<MemberView>,
    current: ManifestView,
    limits: ReadLimits,
    commit: u64,
) -> Option<ArtifactError> {
    match chain::revision(ms, commit) {
        Err(error) => Some(
            ArtifactError::RetainedOpen { commit, error: OpenError::Retained { error } },
        ),
        Ok((bytes, m)) => match open::retained_view(ms, m, current, limits) {
            Err(error) => Some(ArtifactError::RetainedOpen { commit, error }),
            Ok(s) => match dictionaries_fault(s.parts, s.fold, s.parts.len()) {
                Some((part, error)) => Some(
                    ArtifactError::RetainedDictionary { commit, part, error },
                ),
                None => match audit::values_fault(s.parts, s.fold, true, s.parts.len()) {
                    Some(fault) => Some(ArtifactError::RetainedValue { commit, fault }),
                    None => None,
                },
            },
        },
    }
}

/// What is wrong first with the first `n` retained revisions.
pub open spec fn retained_all(
    ms: Seq<MemberView>,
    current: ManifestView,
    limits: ReadLimits,
    commits: Seq<u64>,
    n: nat,
) -> Option<ArtifactError>
    decreases n,
{
    if n == 0 {
        None
    } else {
        match retained_all(ms, current, limits, commits, (n - 1) as nat) {
            Some(e) => Some(e),
            None => retained_one(ms, current, limits, commits[n - 1]),
        }
    }
}

proof fn lemma_retained_all_prefix(
    ms: Seq<MemberView>,
    current: ManifestView,
    limits: ReadLimits,
    commits: Seq<u64>,
    k: nat,
    n: nat,
)
    requires
        k <= n,
        retained_all(ms, current, limits, commits, k) is Some,
    ensures
        retained_all(ms, current, limits, commits, n) == retained_all(
            ms,
            current,
            limits,
            commits,
            k,
        ),
    decreases n,
{
    if k < n {
        lemma_retained_all_prefix(ms, current, limits, commits, k, (n - 1) as nat);
    }
}

fn verify_retained(c: &Container, current: &Manifest, limits: ReadLimits, commit: u64) -> (r: Option<
    ArtifactError,
>)
    ensures
        r == retained_one(c@.members, current@, limits, commit),
{
    let m = match chain::read_revision(c, commit) {
        Ok((_, m)) => m,
        Err(error) => {
            return Some(
                ArtifactError::RetainedOpen { commit, error: OpenError::Retained { error } },
            );
        },
    };
    let s = match open::open_retained_from_container(c, m, current, limits) {
        Ok(s) => s,
        Err(error) => {
            return Some(ArtifactError::RetainedOpen { commit, error });
        },
    };
    if let Err((part, error)) = verify_dictionaries(&s.parts, &s.fold) {
        return Some(ArtifactError::RetainedDictionary { commit, part, error });
    }
    match audit::verify_visible_content(&s.parts, &s.fold, true) {
        Err(fault) => Some(ArtifactError::RetainedValue { commit, fault }),
        Ok(_) => None,
    }
}

/// Verify the dictionaries and the values of every retained revision at its own fold's end.
#[verifier::spinoff_prover]
#[verifier::rlimit(40)]
pub fn verify_retained_piece_dictionaries(
    c: &Container,
    current: &Manifest,
    limits: ReadLimits,
) -> (r: Result<(), ArtifactError>)
    ensures
        ({
            let commits = chain::retained_commits(c@.members);
            let fault = retained_all(c@.members, current@, limits, commits, commits.len());
            match r {
                Ok(()) => fault is None,
                Err(e) => fault == Some(e),
            }
        }),
{
    let ghost ms = c@.members;
    let commits = chain::container_retained_commits(c);
    let mut i: usize = 0;
    while i < commits.len()
        invariant
            ms == c@.members,
            commits@ == chain::retained_commits(ms),
            i <= commits@.len(),
            retained_all(ms, current@, limits, commits@, i as nat) is None,
        decreases commits.len() - i,
    {
        let found = verify_retained(c, current, limits, commits[i]);
        i = i + 1;
        if let Some(e) = found {
            proof {
                lemma_retained_all_prefix(
                    ms,
                    current@,
                    limits,
                    commits@,
                    i as nat,
                    commits@.len(),
                );
            }
            return Err(e);
        }
    }
    Ok(())
}

// ---------------------------------------------------------------------------------------------
// Artifacts.
// ---------------------------------------------------------------------------------------------
/// What a verified artifact holds.
#[derive(Clone, Copy, Debug, PartialEq, Eq, Structural)]
pub struct ArtifactReport {
    pub members: usize,
    pub bytes: u64,
    pub commit: u64,
    pub store: StoreVerification,
}

/// How many bytes the first `n` members have.
pub open spec fn members_bytes(ms: Seq<MemberView>, n: nat) -> nat
    decreases n,
{
    if n == 0 {
        0
    } else {
        members_bytes(ms, (n - 1) as nat) + ms[n - 1].bytes.len()
    }
}

/// What is wrong with the retained revisions of a container that has authority.
pub open spec fn retained_authority_fault(c: ContainerView, limits: ReadLimits) -> Option<
    ArtifactError,
> {
    let commits = chain::retained_commits(c.members);
    match chain::authority_of(c.members) {
        None => None,
        Some(current) => retained_all(c.members, current, limits, commits, commits.len()),
    }
}

/// The verification of exactly the bytes that an installation would make reachable.
pub open spec fn artifact(c: ContainerView, limits: ReadLimits) -> Result<
    ArtifactReport,
    ArtifactError,
> {
    if c.members.len() > limits.max_directory_entries {
        Err(
            ArtifactError::Directory {
                error: ReadAdmissionError::TooManyDirectoryEntries {
                    actual: c.members.len() as u64,
                    allowed: limits.max_directory_entries,
                },
            },
        )
    } else if checksum::members_fault(c.members, limits) is Some {
        Err(ArtifactError::Members { error: checksum::members_fault(c.members, limits)->0 })
    } else {
        match chain::chain_fault(c, true) {
            Some(error) => Err(ArtifactError::Chain { error }),
            None => match open::current_view(c, limits) {
                Err(error) => Err(ArtifactError::Open { error }),
                Ok(s) => match retained_authority_fault(c, limits) {
                    Some(e) => Err(e),
                    None => match committed(s.parts, s.fold, chain::chain_report(c, true)) {
                        Err(e) => Err(e),
                        Ok(store) => Ok(
                            ArtifactReport {
                                members: c.members.len() as usize,
                                bytes: audit::fit64(members_bytes(c.members, c.members.len())),
                                commit: s.manifest.commit,
                                store,
                            },
                        ),
                    },
                },
            },
        }
    }
}

/// How many bytes a container's members have.
pub(crate) fn count_bytes(c: &Container) -> (r: u64)
    ensures
        r == audit::fit64(members_bytes(c@.members, c@.members.len())),
{
    let ghost ms = c@.members;
    let mut total: u64 = 0;
    let mut i: usize = 0;
    while i < c.members.len()
        invariant
            ms == c@.members,
            i <= c.members@.len(),
            total == audit::fit64(members_bytes(ms, i as nat)),
        decreases c.members.len() - i,
    {
        assert(ms[i as int] == c.members@[i as int]@);
        total =
        audit::add_fit64(
            total,
            c.members[i].bytes.len() as u64,
            Ghost(members_bytes(ms, i as nat)),
        );
        i = i + 1;
    }
    total
}

/// Verify a container whole: every member against its recorded checksum, the chain, the current view, every retained view, every dictionary and
/// every live value.
pub fn verify_container_artifact(c: &Container, limits: ReadLimits) -> (r: Result<
    ArtifactReport,
    ArtifactError,
>)
    ensures
        r == artifact(c@, limits),
{
    if let Err(error) = limits.admit_directory_entries(c.members.len() as u64) {
        return Err(ArtifactError::Directory { error });
    }
    if let Err(error) = checksum::verify_members(c, limits) {
        return Err(ArtifactError::Members { error });
    }
    let chain = match chain::verify_chain_file(c) {
        Ok(chain) => chain,
        Err(error) => {
            return Err(ArtifactError::Chain { error });
        },
    };
    let s = match open::open_read_container_source(c, limits) {
        Ok(s) => s,
        Err(error) => {
            return Err(ArtifactError::Open { error });
        },
    };
    match chain::read_authority(c) {
        Ok(Some((_, current))) => {
            if let Err(e) = verify_retained_piece_dictionaries(c, &current, limits) {
                return Err(e);
            }
        },
        _ => {},
    }
    match verify_committed_store(&s.parts, &s.fold, chain) {
        Err(e) => Err(e),
        Ok(store) => Ok(
            ArtifactReport {
                members: c.members.len(),
                bytes: count_bytes(c),
                commit: s.manifest.commit,
                store,
            },
        ),
    }
}

// ---------------------------------------------------------------------------------------------
// Promotion candidates.
// ---------------------------------------------------------------------------------------------
/// Why a retained revision is no candidate.
#[allow(inconsistent_fields)]
#[derive(Clone, Copy, Debug, PartialEq, Eq, Structural)]
pub enum CandidateError {
    /// Its fold does not open.
    Fold { error: FoldOpenError },
    /// A segment's frames do not reach exactly to its end.
    Frames { seg: u32 },
    /// A part it pins is not there as pinned.
    Part { index: usize, fault: PinFault },
    /// A dictionary entry does not read.
    Dictionary { index: usize, error: FoldError },
    /// A content value does not verify.
    Value { fault: ValueFault },
}

/// What a usable candidate holds.
#[derive(Clone, Copy, Debug, PartialEq, Eq, Structural)]
pub struct CandidateReport {
    pub records: usize,
    pub content_values: usize,
    pub parts: usize,
    pub part_sections: usize,
    pub fold: FoldScrub,
}

/// The parts a candidate pins, each present, unchanged, sound, and readable through the fold.
pub open spec fn candidate_parts(ms: Seq<MemberView>, m: ManifestView, f: FoldView, n: nat) -> Result<
    Seq<PartView>,
    CandidateError,
>
    decreases n,
{
    if n == 0 {
        Ok(Seq::empty())
    } else {
        match candidate_parts(ms, m, f, (n - 1) as nat) {
            Err(e) => Err(e),
            Ok(before) => {
                let index = (n - 1) as usize;
                match chain::pin_fault(ms, m.parts[n - 1], true, false) {
                    Some(fault) => Err(CandidateError::Part { index, fault }),
                    None => {
                        let p = chain::opened(ms, m.parts[n - 1])->Ok_0;
                        match audit::dictionary_fault(f, p.pieces, p.pieces.len()) {
                            Some(error) => Err(CandidateError::Dictionary { index, error }),
                            None => Ok(before.push(p)),
                        }
                    },
                }
            },
        }
    }
}

/// The verification of one revision at its own fold's end.
pub open spec fn candidate(ms: Seq<MemberView>, m: ManifestView, limits: ReadLimits) -> Result<
    CandidateReport,
    CandidateError,
> {
    match open::fold_of(ms, m, m.punched, TailRule::Cut, limits) {
        Err(error) => Err(CandidateError::Fold { error }),
        Ok(f) => match frames_fault(f, f.segments.len()) {
            Some(seg) => Err(CandidateError::Frames { seg }),
            None => match candidate_parts(ms, m, f, m.parts.len()) {
                Err(e) => Err(e),
                Ok(parts) => match audit::values_fault(parts, f, false, parts.len()) {
                    Some(fault) => Err(CandidateError::Value { fault }),
                    None => {
                        let v = audit::counted(audit::tally(parts, f, parts.len()));
                        Ok(
                            CandidateReport {
                                records: v.records,
                                content_values: v.values,
                                parts: parts.len() as usize,
                                part_sections: audit::fit(sections_total(parts, parts.len())),
                                fold: scrubbed(f),
                            },
                        )
                    },
                },
            },
        },
    }
}

proof fn lemma_candidate_prefix(ms: Seq<MemberView>, m: ManifestView, f: FoldView, k: nat, n: nat)
    requires
        k <= n,
        candidate_parts(ms, m, f, k) is Err,
    ensures
        candidate_parts(ms, m, f, n) == candidate_parts(ms, m, f, k),
    decreases n,
{
    if k < n {
        lemma_candidate_prefix(ms, m, f, k, (n - 1) as nat);
    }
}

fn open_candidate_parts(c: &Container, m: &Manifest, f: &Fold) -> (r: Result<
    (Vec<Part>, usize),
    CandidateError,
>)
    ensures
        match r {
            Ok((parts, sections)) => {
                let all = part::parts_view(parts@);
                &&& candidate_parts(c@.members, m@, f@, m@.parts.len()) == Ok::<
                    Seq<PartView>,
                    CandidateError,
                >(all)
                &&& part::parts_sound(all)
                &&& sections == audit::fit(sections_total(all, all.len()))
            },
            Err(e) => candidate_parts(c@.members, m@, f@, m@.parts.len()) == Err::<
                Seq<PartView>,
                CandidateError,
            >(e),
        },
{
    let ghost ms = c@.members;
    let mut out: Vec<Part> = Vec::new();
    let mut sections: usize = 0;
    let mut i: usize = 0;
    assert(part::parts_view(out@) =~= Seq::<PartView>::empty());
    while i < m.parts.len()
        invariant
            ms == c@.members,
            i <= m.parts@.len(),
            out@.len() == i,
            candidate_parts(ms, m@, f@, i as nat) == Ok::<Seq<PartView>, CandidateError>(
                part::parts_view(out@),
            ),
            part::parts_sound(part::parts_view(out@)),
            sections == audit::fit(
                sections_total(part::parts_view(out@), part::parts_view(out@).len()),
            ),
        decreases m.parts.len() - i,
    {
        let r = &m.parts[i];
        assert(m@.parts[i as int] == r@);
        let ghost before = part::parts_view(out@);
        if let Some(fault) = chain::check_pin(c, r, true, false) {
            proof {
                lemma_candidate_prefix(ms, m@, f@, (i + 1) as nat, m@.parts.len());
            }
            return Err(CandidateError::Part { index: i, fault });
        }
        match chain::open_manifest_part(c, r) {
            Err(fault) => {
                return Err(CandidateError::Part { index: i, fault });
            },
            Ok(p) => {
                if let Err(error) = audit::verify_piece_dictionary(p, f) {
                    proof {
                        lemma_candidate_prefix(ms, m@, f@, (i + 1) as nat, m@.parts.len());
                    }
                    return Err(CandidateError::Dictionary { index: i, error });
                }
                sections =
                audit::add_fit(sections, p.sections, Ghost(sections_total(before, before.len())));
                out.push(p.clone());
                proof {
                    let after = part::parts_view(out@);
                    assert(after =~= before.push(p@));
                    lemma_sections_push(before, p@);
                    assert forall|k: int| 0 <= k < after.len() implies part::part_sound(
                        #[trigger] after[k],
                    ) by {
                        if k < before.len() {
                            assert(after[k] == before[k]);
                        }
                    }
                }
            },
        }
        i = i + 1;
    }
    Ok((out, sections))
}

proof fn lemma_sections_push(parts: Seq<PartView>, p: PartView)
    ensures
        sections_total(parts.push(p), parts.len() + 1) == sections_total(parts, parts.len())
            + p.sections,
{
    lemma_sections_same(parts, p, parts.len());
}

proof fn lemma_sections_same(parts: Seq<PartView>, p: PartView, n: nat)
    requires
        n <= parts.len(),
    ensures
        sections_total(parts.push(p), n) == sections_total(parts, n),
    decreases n,
{
    if n > 0 {
        lemma_sections_same(parts, p, (n - 1) as nat);
    }
}

/// Verify one revision whole at its own fold's end: the fold cut there, every part by digest and
/// rows, every dictionary entry, every live value.
pub fn validate_recovery_candidate_container(c: &Container, m: &Manifest, limits: ReadLimits) -> (r: Result<
    CandidateReport,
    CandidateError,
>)
    ensures
        r == candidate(c@.members, m@, limits),
{
    let f = match open::open_fold(c, m, &m.punched, TailRule::Cut, &limits) {
        Ok(f) => f,
        Err(error) => {
            return Err(CandidateError::Fold { error });
        },
    };
    let fold = match scrub(&f) {
        Ok(counts) => counts,
        Err(seg) => {
            return Err(CandidateError::Frames { seg });
        },
    };
    let (parts, part_sections) = match open_candidate_parts(c, m, &f) {
        Ok(found) => found,
        Err(e) => {
            return Err(e);
        },
    };
    match audit::verify_visible_content(&parts, &f, false) {
        Err(fault) => Err(CandidateError::Value { fault }),
        Ok(v) => Ok(
            CandidateReport {
                records: v.records,
                content_values: v.values,
                parts: parts.len(),
                part_sections,
                fold,
            },
        ),
    }
}

} // verus!
