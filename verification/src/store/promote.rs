//! Checked manifest promotion: replacing damaged authority by a retained revision that verifies
//! whole.
//!
//! A healthy store is refused. The newest usable revision is taken, within the rollback the caller
//! allowed; the same state change removes what the abandoned revisions added, so that the promoted
//! state agrees with its own manifest.

use crate::bytes;
use crate::container;
use crate::container::{Container, ContainerView, Member, MemberView};
use crate::fold;
use crate::fold::{Block, BlockView};
use crate::read_limits::ReadLimits;
use crate::store::artifact;
use crate::store::artifact::{CandidateError, CandidateReport};
use crate::store::chain;
use crate::store::chain::ChainError;
use crate::store::commit::CommitOutcome;
use crate::store::debris;
use crate::store::manifest;
use crate::store::manifest::{Manifest, ManifestError, ManifestView};
use crate::store::names;
use crate::store::namespace;
use crate::store::namespace::NamespaceError;
use crate::store::open;
use crate::store::open::{FoldOpenError, FoldRole};
use crate::text;
use vstd::prelude::*;
use vstd::utf8::*;

verus! {

/// How far a promotion may go back.
#[derive(Clone, Copy, Debug, PartialEq, Eq, Structural)]
pub struct ManifestPromotionOptions {
    /// How many newer retained revisions may be abandoned. Zero repairs only to the newest one.
    pub max_rollback_commits: u64,
}

impl Default for ManifestPromotionOptions {
    fn default() -> (r: ManifestPromotionOptions)
        ensures
            r.max_rollback_commits == 0,
    {
        ManifestPromotionOptions { max_rollback_commits: 0 }
    }
}

/// Evidence of a promotion.
#[derive(Clone, Copy, Debug, PartialEq, Eq, Structural)]
pub struct ManifestPromotionReport {
    pub commit: u64,
    pub rollback_commits: u64,
    /// Older retained revisions given up because they, or the link to them, no longer verified.
    pub abandoned_retained_revisions: usize,
    pub candidate: CandidateReport,
}

/// Why no manifest was promoted.
#[allow(inconsistent_fields)]
#[derive(Clone, Copy, Debug, PartialEq, Eq, Structural)]
pub enum ManifestPromotionError {
    /// Another store would take the name for its own protocol state.
    Reserved,
    /// Authority is intact and its history holds.
    Healthy,
    /// A manifest member is longer than a manifest may be. That says nothing about the revision it
    /// holds, so it is no damage to work around.
    TooLarge { bytes: u64 },
    /// A member no store could hold.
    Namespace { error: NamespaceError },
    /// A retained manifest is another revision than its name says.
    WrongRevision { commit: u64, found: u64 },
    /// Retained history crosses fold generations.
    Generations { expected: u32, found: u32 },
    /// The newest usable revision is further back than allowed.
    RollbackLimit { needed: u64, allowed: u64 },
    /// No retained revision is usable.
    NoUsableCandidate { examined: usize },
    /// A read ceiling refused a retained revision. That says nothing about its bytes, so it is no
    /// damage to work around.
    Admission { error: CandidateError },
    /// The promoted state would hold a member that is not its own.
    Result { error: NamespaceError },
    /// The container did not flip: nothing was promoted.
    NotSelected,
    /// The container flipped, and its state may not survive a crash; opening it again tells.
    Unsynchronized,
    /// No state number is left.
    SequenceExhausted,
}

// ---------------------------------------------------------------------------------------------
// History.
// ---------------------------------------------------------------------------------------------
/// Why a revision is not the usable predecessor of another.
#[allow(inconsistent_fields)]
#[derive(Clone, Copy, Debug, PartialEq, Eq, Structural)]
pub enum PredecessorError {
    /// It cannot be read.
    Unreadable { error: ChainError },
    /// It does not immediately precede.
    NotAdjacent { found: u64 },
    /// It references another fold generation.
    Generation { found: u32 },
    /// The other does not name its bytes.
    Link,
    /// The sequence cursor would move backward.
    CursorBackward,
    /// The fold's end would move backward.
    TailBackward,
    /// It does not verify at its own fold's end.
    Candidate { error: CandidateError },
}

/// The manifest of a revision, as the immediate and usable predecessor of another.
#[verifier::opaque]
pub open spec fn predecessor(
    ms: Seq<MemberView>,
    limits: ReadLimits,
    commit: u64,
    newer: ManifestView,
) -> Result<ManifestView, PredecessorError> {
    match chain::revision(ms, commit) {
        Err(error) => Err(PredecessorError::Unreadable { error }),
        Ok((bytes, m)) => if m.commit + 1 != newer.commit {
            Err(PredecessorError::NotAdjacent { found: m.commit })
        } else if m.fold_gen != newer.fold_gen {
            Err(PredecessorError::Generation { found: m.fold_gen })
        } else if newer.prev is None || encode_utf8(newer.prev->0) != manifest::link(bytes) {
            Err(PredecessorError::Link)
        } else if m.next_seq > newer.next_seq {
            Err(PredecessorError::CursorBackward)
        } else if chain::tail_before(newer, m) {
            Err(PredecessorError::TailBackward)
        } else {
            match artifact::candidate(ms, m, limits) {
                Err(error) => Err(PredecessorError::Candidate { error }),
                Ok(_) => Ok(m),
            }
        },
    }
}

/// The manifest of a revision, as the immediate and usable predecessor of another.
pub fn validate_retained_predecessor(
    c: &Container,
    limits: ReadLimits,
    commit: u64,
    newer: &Manifest,
) -> (r: Result<Manifest, PredecessorError>)
    ensures
        predecessor(c@.members, limits, commit, newer@) == (match r {
            Ok(m) => Ok::<ManifestView, PredecessorError>(m@),
            Err(e) => Err(e),
        }),
{
    reveal(predecessor);
    let (at, m) = match chain::read_revision(c, commit) {
        Ok(found) => found,
        Err(error) => {
            return Err(PredecessorError::Unreadable { error });
        },
    };
    assert(c@.members[at as int] == c.members@[at as int]@);
    if m.commit == u64::MAX || m.commit + 1 != newer.commit {
        return Err(PredecessorError::NotAdjacent { found: m.commit });
    }
    if m.fold_gen != newer.fold_gen {
        return Err(PredecessorError::Generation { found: m.fold_gen });
    }
    if !chain::names_predecessor(newer, c.members[at].bytes.as_slice()) {
        return Err(PredecessorError::Link);
    }
    if m.next_seq > newer.next_seq {
        return Err(PredecessorError::CursorBackward);
    }
    if newer.fold_seg < m.fold_seg || (newer.fold_seg == m.fold_seg && newer.fold_off
        < m.fold_off) {
        return Err(PredecessorError::TailBackward);
    }
    match artifact::validate_recovery_candidate_container(c, &m, limits) {
        Ok(_) => Ok(m),
        Err(error) => Err(PredecessorError::Candidate { error }),
    }
}

proof fn lemma_predecessor(
    ms: Seq<MemberView>,
    limits: ReadLimits,
    commit: u64,
    newer: ManifestView,
)
    requires
        predecessor(ms, limits, commit, newer) is Ok,
    ensures
        chain::revision(ms, commit) is Ok,
        chain::revision(ms, commit)->Ok_0.1 == predecessor(ms, limits, commit, newer)->Ok_0,
{
    reveal(predecessor);
}

/// Whether a read ceiling refused a candidate.
pub open spec fn environmental(e: CandidateError) -> bool {
    match e {
        CandidateError::Fold { error } => error is Sidecar || error is TooManyBlocks,
        _ => false,
    }
}

/// Whether a read ceiling refused a candidate: that says nothing about its bytes.
pub fn environmental_failure(e: CandidateError) -> (r: bool)
    ensures
        r == environmental(e),
{
    match e {
        CandidateError::Fold { error } => match error {
            FoldOpenError::Sidecar { .. } => true,
            FoldOpenError::TooManyBlocks { .. } => true,
            _ => false,
        },
        _ => false,
    }
}

/// How many of the first `n` revisions, from the oldest on, are given up beside a newer one: all
/// from the first break down. A read ceiling is no break.
pub open spec fn abandoned(
    ms: Seq<MemberView>,
    limits: ReadLimits,
    commits: Seq<u64>,
    n: nat,
    newer: ManifestView,
) -> Result<nat, CandidateError>
    decreases n,
{
    if n == 0 {
        Ok(0)
    } else {
        match predecessor(ms, limits, commits[n - 1], newer) {
            Err(PredecessorError::Candidate { error }) => if environmental(error) {
                Err(error)
            } else {
                Ok(n)
            },
            Err(_) => Ok(n),
            Ok(m) => abandoned(ms, limits, commits, (n - 1) as nat, m),
        }
    }
}

/// Whether the candidate or a surviving older revision names a part.
pub open spec fn part_survives(
    ms: Seq<MemberView>,
    commits: Seq<u64>,
    cut: int,
    n: int,
    selected: ManifestView,
    name: Seq<char>,
) -> bool {
    ||| namespace::names_part(selected, name)
    ||| exists|k: int|
        cut <= k < n && namespace::names_part(
            chain::revision(ms, #[trigger] commits[k])->Ok_0.1,
            name,
        )
}

/// The history that survives beside a candidate.
pub struct SurvivingHistory {
    /// How many of the oldest revisions are given up.
    pub cut: usize,
    /// The manifests of the others, newest first.
    pub manifests: Vec<Manifest>,
}

/// Whether a manifest is that of a revision.
pub open spec fn is_revision(ms: Seq<MemberView>, commit: u64, m: ManifestView) -> bool {
    chain::revision(ms, commit) is Ok && chain::revision(ms, commit)->Ok_0.1 == m
}

/// The surviving manifests are those of the revisions above the cut, newest first.
pub open spec fn survivors_ok(
    ms: Seq<MemberView>,
    commits: Seq<u64>,
    n: int,
    h: SurvivingHistory,
) -> bool {
    &&& h.cut + h.manifests@.len() == n
    &&& forall|k: int|
        0 <= k < h.manifests@.len() ==> is_revision(
            ms,
            commits[n - 1 - k],
            (#[trigger] h.manifests@[k])@,
        )
}

/// Walk down from a candidate and keep what still links and verifies. Where a read ceiling
/// refuses a revision, nothing is known of it and the walk fails.
pub fn validate_surviving_promotion_history(
    c: &Container,
    limits: ReadLimits,
    commits: &Vec<u64>,
    n: usize,
    selected: &Manifest,
) -> (r: Result<SurvivingHistory, CandidateError>)
    requires
        n <= commits@.len(),
    ensures
        match r {
            Ok(h) => abandoned(c@.members, limits, commits@, n as nat, selected@) == Ok::<
                nat,
                CandidateError,
            >(h.cut as nat) && survivors_ok(c@.members, commits@, n as int, h),
            Err(e) => abandoned(c@.members, limits, commits@, n as nat, selected@) == Err::<
                nat,
                CandidateError,
            >(e),
        },
{
    let ghost ms = c@.members;
    let mut h = SurvivingHistory { cut: n, manifests: Vec::new() };
    let mut newer = selected.clone();
    while h.cut > 0
        invariant
            ms == c@.members,
            n <= commits@.len(),
            survivors_ok(ms, commits@, n as int, h),
            abandoned(ms, limits, commits@, n as nat, selected@) == abandoned(
                ms,
                limits,
                commits@,
                h.cut as nat,
                newer@,
            ),
        decreases h.cut,
    {
        let commit: u64 = commits[h.cut - 1];
        match validate_retained_predecessor(c, limits, commit, &newer) {
            Err(PredecessorError::Candidate { error }) => {
                if environmental_failure(error) {
                    return Err(error);
                }
                return Ok(h);
            },
            Err(_) => {
                return Ok(h);
            },
            Ok(m) => {
                proof {
                    lemma_predecessor(ms, limits, commit, newer@);
                }
                let ghost before = h;
                newer = m.clone();
                h.manifests.push(m);
                h.cut = h.cut - 1;
                proof {
                    assert forall|k: int| 0 <= k < h.manifests@.len() implies is_revision(
                        ms,
                        commits@[n - 1 - k],
                        (#[trigger] h.manifests@[k])@,
                    ) by {
                        if k < before.manifests@.len() {
                            assert(h.manifests@[k] == before.manifests@[k]);
                        }
                    }
                }
            },
        }
    }
    Ok(h)
}

// ---------------------------------------------------------------------------------------------
// The promoted state.
// ---------------------------------------------------------------------------------------------
/// A member cut to a length, and written so.
pub open spec fn truncated(m: MemberView, len: u32) -> MemberView {
    container::recorded(
        MemberView {
            bytes: if len <= m.bytes.len() {
                m.bytes.take(len as int)
            } else {
                m.bytes
            },
            blocks: match m.blocks {
                Some(b) => Some(open::blocks_until(b, len as u64)),
                None => None,
            },
            ..m
        },
    )
}

/// Whether the candidate's last segment has to be cut.
pub open spec fn tail_cut(ms: Seq<MemberView>, selected: ManifestView) -> bool {
    exists|i: int|
        0 <= i < ms.len() && open::role_of((#[trigger] ms[i]).name, selected.fold_gen) == (
        FoldRole::Segment { seg: selected.fold_seg }) && ms[i].bytes.len() != selected.fold_off
}

/// What a retained manifest's name says, where the standard parser reads it.
pub open spec fn claimed_revision(name: Seq<char>) -> Option<u64> {
    if namespace::claims_retained(name) {
        names::signed_u64(namespace::revision_text(name))
    } else {
        None
    }
}

/// What a promotion keeps of one member.
pub open spec fn kept(
    ms: Seq<MemberView>,
    commits: Seq<u64>,
    cut: int,
    n: int,
    selected: ManifestView,
    m: MemberView,
) -> Option<MemberView> {
    let b = encode_utf8(m.name);
    match claimed_revision(m.name) {
        Some(revision) => if revision > selected.commit || commits.take(cut).contains(revision) {
            None
        } else {
            Some(m)
        },
        None => if names::part_shape(b) && !part_survives(
            ms,
            commits,
            cut,
            n,
            selected,
            m.name,
        ) {
            None
        } else if names::fold_member(b) && names::fold_generation(b) != Some(
            selected.fold_gen,
        ) {
            None
        } else {
            match open::role_of(m.name, selected.fold_gen) {
                FoldRole::Segment { seg } => if seg > selected.fold_seg {
                    None
                } else if seg == selected.fold_seg && m.bytes.len() != selected.fold_off {
                    Some(truncated(m, selected.fold_off))
                } else {
                    Some(m)
                },
                FoldRole::Sidecar { seg } => if seg > selected.fold_seg || (seg
                    == selected.fold_seg && tail_cut(ms, selected)) {
                    None
                } else {
                    Some(m)
                },
                _ => Some(m),
            }
        },
    }
}

/// What a promotion keeps of the first `k` members.
pub open spec fn kept_all(
    ms: Seq<MemberView>,
    commits: Seq<u64>,
    cut: int,
    n: int,
    selected: ManifestView,
    k: nat,
) -> Seq<MemberView>
    decreases k,
{
    if k == 0 {
        Seq::empty()
    } else {
        let before = kept_all(ms, commits, cut, n, selected, (k - 1) as nat);
        match kept(ms, commits, cut, n, selected, ms[k - 1]) {
            Some(m) => before.push(m),
            None => before,
        }
    }
}

/// The current manifest member that holds a retained revision's bytes.
pub open spec fn as_current(m: MemberView) -> MemberView {
    container::recorded(MemberView { name: "MANIFEST"@, ..m })
}

/// The members of the promoted state.
pub open spec fn promoted_members(
    ms: Seq<MemberView>,
    commits: Seq<u64>,
    cut: int,
    n: int,
    selected: ManifestView,
    source: MemberView,
) -> Seq<MemberView> {
    container::put_sorted(
        kept_all(ms, commits, cut, n, selected, ms.len()),
        as_current(source),
    )
}

fn truncate_blocks(blocks: &Vec<Block>, off: u64) -> (r: Vec<Block>)
    ensures
        fold::blocks_view(r@) == open::blocks_until(fold::blocks_view(blocks@), off),
{
    let ghost all = fold::blocks_view(blocks@);
    let mut out: Vec<Block> = Vec::new();
    let mut i: usize = 0;
    assert(all.take(0) =~= Seq::<BlockView>::empty());
    assert(fold::blocks_view(out@) =~= Seq::<BlockView>::empty());
    while i < blocks.len()
        invariant
            all == fold::blocks_view(blocks@),
            i <= blocks@.len(),
            fold::blocks_view(out@) == open::blocks_until(all.take(i as int), off),
        decreases blocks.len() - i,
    {
        proof {
            assert(all.take(i + 1).drop_last() =~= all.take(i as int));
            assert(all.take(i + 1).last() == blocks@[i as int]@);
        }
        if blocks[i].end <= off {
            let ghost before = out@;
            out.push(blocks[i].clone());
            assert(fold::blocks_view(out@) =~= fold::blocks_view(before).push(
                blocks@[i as int]@,
            ));
        }
        i = i + 1;
    }
    assert(all.take(i as int) =~= all);
    out
}

fn truncate_member(m: &Member, len: u32) -> (r: Member)
    ensures
        r@ == truncated(m@, len),
{
    let mut out = m.clone();
    if len as u64 <= out.bytes.len() as u64 {
        let mut held: Vec<u8> = Vec::new();
        bytes::append_bytes(
            &mut held,
            vstd::slice::slice_subrange(m.bytes.as_slice(), 0, len as usize),
        );
        assert(held@ =~= m.bytes@.take(len as int));
        out.bytes = held;
    }
    out.blocks =
    match &m.blocks {
        Some(b) => Some(truncate_blocks(b, len as u64)),
        None => None,
    };
    out.record();
    out
}

fn survives(
    c: &Container,
    h: &SurvivingHistory,
    selected: &Manifest,
    name: &str,
    Ghost(commits): Ghost<Seq<u64>>,
    Ghost(n): Ghost<int>,
) -> (r: bool)
    requires
        survivors_ok(c@.members, commits, n, *h),
    ensures
        r == part_survives(c@.members, commits, h.cut as int, n, selected@, name@),
{
    let ghost ms = c@.members;
    if namespace::manifest_names(selected, name) {
        return true;
    }
    let mut k: usize = 0;
    while k < h.manifests.len()
        invariant
            ms == c@.members,
            survivors_ok(ms, commits, n, *h),
            k <= h.manifests@.len(),
            forall|j: int|
                0 <= j < k ==> !namespace::names_part((#[trigger] h.manifests@[j])@, name@),
        decreases h.manifests.len() - k,
    {
        if namespace::manifest_names(&h.manifests[k], name) {
            proof {
                let at = n - 1 - k;
                assert(is_revision(ms, commits[at], h.manifests@[k as int]@));
                assert(h.cut <= at < n);
            }
            return true;
        }
        k = k + 1;
    }
    proof {
        assert forall|at: int| h.cut <= at < n implies !namespace::names_part(
            chain::revision(ms, #[trigger] commits[at])->Ok_0.1,
            name@,
        ) by {
            let j = n - 1 - at;
            assert(is_revision(ms, commits[n - 1 - j], h.manifests@[j]@));
            assert(!namespace::names_part(h.manifests@[j]@, name@));
        }
    }
    false
}

fn in_prefix(commits: &Vec<u64>, cut: usize, revision: u64) -> (r: bool)
    requires
        cut <= commits@.len(),
    ensures
        r == commits@.take(cut as int).contains(revision),
{
    let ghost t = commits@.take(cut as int);
    let mut i: usize = 0;
    while i < cut
        invariant
            cut <= commits@.len(),
            t == commits@.take(cut as int),
            i <= cut,
            forall|k: int| 0 <= k < i ==> commits@[k] != revision,
        decreases cut - i,
    {
        if commits[i] == revision {
            assert(t[i as int] == revision);
            return true;
        }
        i = i + 1;
    }
    false
}

fn must_cut(c: &Container, selected: &Manifest) -> (r: bool)
    ensures
        r == tail_cut(c@.members, selected@),
{
    let ghost ms = c@.members;
    let mut i: usize = 0;
    while i < c.members.len()
        invariant
            ms == c@.members,
            i <= c.members@.len(),
            forall|k: int|
                0 <= k < i ==> !(open::role_of((#[trigger] ms[k]).name, selected.fold_gen) == (
                FoldRole::Segment { seg: selected.fold_seg }) && ms[k].bytes.len()
                    != selected.fold_off),
        decreases c.members.len() - i,
    {
        assert(ms[i as int] == c.members@[i as int]@);
        if let FoldRole::Segment { seg } = open::fold_role(
            c.members[i].name.as_str(),
            selected.fold_gen,
        ) {
            if seg == selected.fold_seg && c.members[i].bytes.len() as u64
                != selected.fold_off as u64 {
                return true;
            }
        }
        i = i + 1;
    }
    false
}

/// The revision a name claims.
fn revision_claimed(name: &str) -> (r: Option<u64>)
    ensures
        r == claimed_revision(name@),
{
    match bytes::strip_prefix(name.as_bytes(), "MANIFEST.".as_bytes()) {
        Some(suffix) => names::parse_signed(suffix),
        None => None,
    }
}

fn keep_member(
    c: &Container,
    commits: &Vec<u64>,
    h: &SurvivingHistory,
    selected: &Manifest,
    cutting: bool,
    i: usize,
    Ghost(n): Ghost<int>,
) -> (r: Option<Member>)
    requires
        i < c@.members.len(),
        h.cut <= commits@.len(),
        survivors_ok(c@.members, commits@, n, *h),
        cutting == tail_cut(c@.members, selected@),
    ensures
        kept(c@.members, commits@, h.cut as int, n, selected@, c@.members[i as int]) == (match r {
            Some(m) => Some(m@),
            None => None,
        }),
{
    let m = &c.members[i];
    assert(c@.members[i as int] == m@);
    let name = m.name.as_str();
    if let Some(revision) = revision_claimed(name) {
        if revision > selected.commit || in_prefix(commits, h.cut, revision) {
            return None;
        }
        return Some(m.clone());
    }
    if names::canonical_part_member_shape(name) && !survives(
        c,
        h,
        selected,
        name,
        Ghost(commits@),
        Ghost(n),
    ) {
        return None;
    }
    if names::exact_fold_member_name(name) {
        let same = match names::fold_generation_of_member(name.as_bytes()) {
            Some(g) => g == selected.fold_gen,
            None => false,
        };
        if !same {
            return None;
        }
    }
    match open::fold_role(name, selected.fold_gen) {
        FoldRole::Segment { seg } => if seg > selected.fold_seg {
            None
        } else if seg == selected.fold_seg && m.bytes.len() as u64 != selected.fold_off as u64 {
            Some(truncate_member(m, selected.fold_off))
        } else {
            Some(m.clone())
        },
        FoldRole::Sidecar { seg } => if seg > selected.fold_seg || (seg == selected.fold_seg
            && cutting) {
            None
        } else {
            Some(m.clone())
        },
        _ => Some(m.clone()),
    }
}

fn stage_promotion(
    c: &Container,
    commits: &Vec<u64>,
    h: &SurvivingHistory,
    selected: &Manifest,
    source: &Member,
    Ghost(n): Ghost<int>,
) -> (r: Container)
    requires
        h.cut <= commits@.len(),
        survivors_ok(c@.members, commits@, n, *h),
    ensures
        r@.members == promoted_members(
            c@.members,
            commits@,
            h.cut as int,
            n,
            selected@,
            source@,
        ),
        r.seq == c.seq,
{
    let ghost ms = c@.members;
    let cutting = must_cut(c, selected);
    let mut members: Vec<Member> = Vec::new();
    let mut i: usize = 0;
    assert(container::members_view(members@) =~= Seq::<MemberView>::empty());
    while i < c.members.len()
        invariant
            ms == c@.members,
            i <= c.members@.len(),
            h.cut <= commits@.len(),
            survivors_ok(ms, commits@, n, *h),
            cutting == tail_cut(ms, selected@),
            container::members_view(members@) == kept_all(
                ms,
                commits@,
                h.cut as int,
                n,
                selected@,
                i as nat,
            ),
        decreases c.members.len() - i,
    {
        if let Some(m) = keep_member(c, commits, h, selected, cutting, i, Ghost(n)) {
            let ghost before = members@;
            members.push(m);
            assert(container::members_view(members@) =~= container::members_view(before).push(
                m@,
            ));
        }
        i = i + 1;
    }
    let mut out = Container { seq: c.seq, members };
    let mut current = source.clone();
    current.name = "MANIFEST".to_owned();
    current.record();
    assert(current@ == as_current(source@));
    out.put(current);
    out
}

// ---------------------------------------------------------------------------------------------
// The decision.
// ---------------------------------------------------------------------------------------------
/// Whether a store needs no promotion.
pub open spec fn healthy(c: ContainerView) -> bool {
    chain::authority_of(c.members) is Some && chain::chain_fault(c, true) is None
}

/// How long the current manifest's member is, where that is more than a manifest may be.
pub open spec fn current_too_large(ms: Seq<MemberView>) -> Option<u64> {
    match chain::current_of(ms) {
        Some(Err(ManifestError::MemberTooLarge { bytes })) => Some(bytes),
        _ => None,
    }
}

/// The fold generation of the first readable one of the first `n` revisions.
pub open spec fn first_generation(ms: Seq<MemberView>, commits: Seq<u64>, n: nat) -> Option<u32>
    decreases n,
{
    if n == 0 {
        None
    } else {
        match first_generation(ms, commits, (n - 1) as nat) {
            Some(g) => Some(g),
            None => match chain::revision(ms, commits[n - 1]) {
                Ok((bytes, m)) => Some(m.fold_gen),
                Err(_) => None,
            },
        }
    }
}

/// How long a revision's member is, where that is more than a manifest may be.
pub open spec fn too_large(error: ChainError) -> Option<u64> {
    match error {
        ChainError::Retained { commit: _, error: ManifestError::MemberTooLarge { bytes } } => Some(
            bytes,
        ),
        _ => None,
    }
}

/// What is wrong first with the first `n` revisions as one history. A damaged one is passed over.
pub open spec fn history_fault(ms: Seq<MemberView>, commits: Seq<u64>, n: nat) -> Option<
    ManifestPromotionError,
>
    decreases n,
{
    if n == 0 {
        None
    } else {
        match history_fault(ms, commits, (n - 1) as nat) {
            Some(e) => Some(e),
            None => match chain::revision(ms, commits[n - 1]) {
                Err(error) => match too_large(error) {
                    Some(bytes) => Some(ManifestPromotionError::TooLarge { bytes }),
                    None => None,
                },
                Ok((bytes, m)) => if m.commit != commits[n - 1] {
                    Some(
                        ManifestPromotionError::WrongRevision {
                            commit: commits[n - 1],
                            found: m.commit,
                        },
                    )
                } else {
                    match first_generation(ms, commits, (n - 1) as nat) {
                        Some(expected) => if m.fold_gen != expected {
                            Some(
                                ManifestPromotionError::Generations {
                                    expected,
                                    found: m.fold_gen,
                                },
                            )
                        } else {
                            None
                        },
                        None => None,
                    }
                },
            },
        }
    }
}

/// Whether a revision can be read and verifies whole at its own fold's end.
#[verifier::opaque]
pub open spec fn usable(ms: Seq<MemberView>, limits: ReadLimits, commit: u64) -> bool {
    chain::revision(ms, commit) is Ok && artifact::candidate(
        ms,
        chain::revision(ms, commit)->Ok_0.1,
        limits,
    ) is Ok
}

/// The read ceiling that refuses a revision.
#[verifier::opaque]
pub open spec fn ceiling(ms: Seq<MemberView>, limits: ReadLimits, commit: u64) -> Option<
    CandidateError,
> {
    match chain::revision(ms, commit) {
        Err(_) => None,
        Ok((_, m)) => match artifact::candidate(ms, m, limits) {
            Ok(_) => None,
            Err(e) => if environmental(e) {
                Some(e)
            } else {
                None
            },
        },
    }
}

/// The newest usable one of the first `n` revisions. A read ceiling met on the way down refuses.
pub open spec fn newest_usable(
    ms: Seq<MemberView>,
    limits: ReadLimits,
    commits: Seq<u64>,
    n: nat,
) -> Result<Option<nat>, CandidateError>
    decreases n,
{
    if n == 0 {
        Ok(None)
    } else if usable(ms, limits, commits[n - 1]) {
        Ok(Some((n - 1) as nat))
    } else {
        match ceiling(ms, limits, commits[n - 1]) {
            Some(e) => Err(e),
            None => newest_usable(ms, limits, commits, (n - 1) as nat),
        }
    }
}

/// What a promotion makes of a container.
#[verifier::opaque]
pub open spec fn promotion(
    c: ContainerView,
    options: ManifestPromotionOptions,
    limits: ReadLimits,
) -> Result<(ManifestPromotionReport, ContainerView), ManifestPromotionError> {
    let ms = c.members;
    let commits = chain::retained_commits(ms);
    if current_too_large(ms) is Some {
        Err(ManifestPromotionError::TooLarge { bytes: current_too_large(ms)->0 })
    } else if healthy(c) {
        Err(ManifestPromotionError::Healthy)
    } else if namespace::impossible(ms, ms.len()) is Some {
        Err(
            ManifestPromotionError::Namespace {
                error: namespace::impossible(ms, ms.len())->0,
            },
        )
    } else if history_fault(ms, commits, commits.len()) is Some {
        Err(history_fault(ms, commits, commits.len())->0)
    } else {
        match newest_usable(ms, limits, commits, commits.len()) {
            Err(error) => Err(ManifestPromotionError::Admission { error }),
            Ok(None) => Err(
                ManifestPromotionError::NoUsableCandidate { examined: commits.len() as usize },
            ),
            Ok(Some(i)) => {
                let commit = commits[i as int];
                let needed = (commits.last() - commit) as u64;
                let (bytes, selected) = chain::revision(ms, commit)->Ok_0;
                let source = ms[container::position_of(
                    ms,
                    text::chars(names::retained_name(commit)),
                )->0];
                if needed > options.max_rollback_commits {
                    Err(
                        ManifestPromotionError::RollbackLimit {
                            needed,
                            allowed: options.max_rollback_commits,
                        },
                    )
                } else {
                    match abandoned(ms, limits, commits, i, selected) {
                        Err(error) => Err(ManifestPromotionError::Admission { error }),
                        Ok(cut) => {
                            let members = promoted_members(
                                ms,
                                commits,
                                cut as int,
                                i as int,
                                selected,
                                source,
                            );
                            if namespace::namespace_fault(members, Some(selected)) is Some {
                                Err(
                                    ManifestPromotionError::Result {
                                        error: namespace::namespace_fault(
                                            members,
                                            Some(selected),
                                        )->0,
                                    },
                                )
                            } else if c.seq == u64::MAX {
                                Err(ManifestPromotionError::SequenceExhausted)
                            } else {
                                Ok(
                                    (
                                        ManifestPromotionReport {
                                            commit,
                                            rollback_commits: needed,
                                            abandoned_retained_revisions: cut as usize,
                                            candidate: artifact::candidate(
                                                ms,
                                                selected,
                                                limits,
                                            )->Ok_0,
                                        },
                                        ContainerView { seq: (c.seq + 1) as u64, members },
                                    ),
                                )
                            }
                        },
                    }
                }
            },
        }
    }
}

fn check_history(c: &Container, commits: &Vec<u64>) -> (r: Result<(), ManifestPromotionError>)
    ensures
        match r {
            Ok(()) => history_fault(c@.members, commits@, commits@.len()) is None,
            Err(e) => history_fault(c@.members, commits@, commits@.len()) == Some(e),
        },
{
    let ghost ms = c@.members;
    let mut generation: Option<u32> = None;
    let mut i: usize = 0;
    while i < commits.len()
        invariant
            ms == c@.members,
            i <= commits@.len(),
            generation == first_generation(ms, commits@, i as nat),
            history_fault(ms, commits@, i as nat) is None,
        decreases commits.len() - i,
    {
        let commit: u64 = commits[i];
        let mut found: Option<ManifestPromotionError> = None;
        match chain::read_revision(c, commit) {
            Err(ChainError::Retained {
                commit: _,
                error: ManifestError::MemberTooLarge { bytes },
            }) => {
                found = Some(ManifestPromotionError::TooLarge { bytes });
            },
            Err(_) => {},
            Ok((_, m)) => {
                if m.commit != commit {
                    found = Some(ManifestPromotionError::WrongRevision { commit, found: m.commit });
                } else {
                    match generation {
                        Some(expected) => {
                            if m.fold_gen != expected {
                                found =
                                Some(
                                    ManifestPromotionError::Generations {
                                        expected,
                                        found: m.fold_gen,
                                    },
                                );
                            }
                        },
                        None => {
                            generation = Some(m.fold_gen);
                        },
                    }
                }
            },
        }
        if let Some(e) = found {
            proof {
                lemma_history_prefix(ms, commits@, (i + 1) as nat, commits@.len());
            }
            return Err(e);
        }
        i = i + 1;
    }
    Ok(())
}

proof fn lemma_history_prefix(ms: Seq<MemberView>, commits: Seq<u64>, k: nat, n: nat)
    requires
        k <= n,
        history_fault(ms, commits, k) is Some,
    ensures
        history_fault(ms, commits, n) == history_fault(ms, commits, k),
    decreases n,
{
    if k < n {
        lemma_history_prefix(ms, commits, k, (n - 1) as nat);
    }
}

/// Judge one retained revision: nothing where it is damaged, a failure where a read ceiling
/// refuses it.
fn judge_revision(c: &Container, limits: ReadLimits, commit: u64) -> (r: Result<
    Option<(usize, Manifest, CandidateReport)>,
    CandidateError,
>)
    ensures
        match r {
            Err(e) => !usable(c@.members, limits, commit) && ceiling(c@.members, limits, commit)
                == Some(e),
            Ok(None) => !usable(c@.members, limits, commit) && ceiling(
                c@.members,
                limits,
                commit,
            ) is None,
            Ok(Some((at, m, report))) => {
                &&& usable(c@.members, limits, commit)
                &&& found_at(c@.members, limits, commit, at as int, m@, report)
            },
        },
{
    reveal(usable);
    reveal(ceiling);
    reveal(found_at);
    let ghost ms = c@.members;
    let name = names::retained_member(commit);
    proof {
        container::lemma_position_from(ms, name@, 0);
    }
    if let Some(at) = c.find(name.as_str()) {
        assert(ms[at as int] == c.members@[at as int]@);
        if let Ok(m) = c.members[at].parse_manifest() {
            return match artifact::validate_recovery_candidate_container(c, &m, limits) {
                Ok(report) => Ok(Some((at, m, report))),
                Err(e) => if environmental_failure(e) {
                    Err(e)
                } else {
                    Ok(None)
                },
            };
        }
    }
    Ok(None)
}

/// Where a usable revision is, what it reads as, and what it holds.
#[verifier::opaque]
spec fn found_at(
    ms: Seq<MemberView>,
    limits: ReadLimits,
    commit: u64,
    at: int,
    m: ManifestView,
    report: CandidateReport,
) -> bool {
    &&& 0 <= at < ms.len()
    &&& container::position_of(ms, text::chars(names::retained_name(commit))) == Some(at)
    &&& chain::revision(ms, commit) == Ok::<(Seq<u8>, ManifestView), ChainError>(
        (ms[at].bytes, m),
    )
    &&& artifact::candidate(ms, m, limits) == Ok::<CandidateReport, CandidateError>(report)
}

fn find_usable(c: &Container, limits: ReadLimits, commits: &Vec<u64>) -> (r: Result<
    Option<(usize, usize, Manifest, CandidateReport)>,
    CandidateError,
>)
    ensures
        match r {
            Err(e) => newest_usable(c@.members, limits, commits@, commits@.len()) == Err::<
                Option<nat>,
                CandidateError,
            >(e),
            Ok(None) => newest_usable(c@.members, limits, commits@, commits@.len()) == Ok::<
                Option<nat>,
                CandidateError,
            >(None),
            Ok(Some((i, at, m, report))) => {
                &&& newest_usable(c@.members, limits, commits@, commits@.len()) == Ok::<
                    Option<nat>,
                    CandidateError,
                >(Some(i as nat))
                &&& i < commits@.len()
                &&& found_at(c@.members, limits, commits@[i as int], at as int, m@, report)
            },
        },
{
    let ghost ms = c@.members;
    let mut i: usize = commits.len();
    while i > 0
        invariant
            ms == c@.members,
            i <= commits@.len(),
            newest_usable(ms, limits, commits@, commits@.len()) == newest_usable(
                ms,
                limits,
                commits@,
                i as nat,
            ),
        decreases i,
    {
        i = i - 1;
        match judge_revision(c, limits, commits[i]) {
            Err(e) => {
                return Err(e);
            },
            Ok(None) => {},
            Ok(Some((at, m, report))) => {
                return Ok(Some((i, at, m, report)));
            },
        }
    }
    Ok(None)
}

/// What promoting a store of a name gives: a reserved name is refused from the name alone.
pub open spec fn named_promotion(
    name: Seq<u8>,
    c: ContainerView,
    options: ManifestPromotionOptions,
    limits: ReadLimits,
) -> Result<(ManifestPromotionReport, ContainerView), ManifestPromotionError> {
    if debris::reserved(name) {
        Err(ManifestPromotionError::Reserved)
    } else {
        promotion(c, options, limits)
    }
}

/// A promotion that was staged: the container's next state, and the evidence for it.
#[derive(Debug, PartialEq, Eq)]
pub struct StagedPromotion {
    pub container: Container,
    pub report: ManifestPromotionReport,
}

/// Stage the newest usable retained revision in place of damaged authority, with explicit limits.
/// The host then flips to the staged container.
pub fn promote_manifest_file_with_limits_and_control(
    name: &[u8],
    c: &Container,
    options: ManifestPromotionOptions,
    limits: ReadLimits,
) -> (r: Result<StagedPromotion, ManifestPromotionError>)
    ensures
        named_promotion(name@, c@, options, limits) == (match r {
            Ok(staged) => Ok::<(ManifestPromotionReport, ContainerView), ManifestPromotionError>(
                (staged.report, staged.container@),
            ),
            Err(e) => Err(e),
        }),
{
    if debris::validate_store_path(name).is_err() {
        return Err(ManifestPromotionError::Reserved);
    }
    reveal(promotion);
    reveal(found_at);
    let ghost ms = c@.members;
    match chain::read_authority(c) {
        Err(ManifestError::MemberTooLarge { bytes }) => {
            return Err(ManifestPromotionError::TooLarge { bytes });
        },
        Ok(Some(_)) => {
            if chain::verify_chain_file(c).is_ok() {
                return Err(ManifestPromotionError::Healthy);
            }
        },
        _ => {},
    }
    let commits = chain::container_retained_commits(c);
    if let Err(error) = namespace::validate_manifest_promotion_member_namespace(c) {
        return Err(ManifestPromotionError::Namespace { error });
    }
    if let Err(e) = check_history(c, &commits) {
        return Err(e);
    }
    let (i, at, selected, candidate) = match find_usable(c, limits, &commits) {
        Ok(Some(found)) => found,
        Err(error) => {
            return Err(ManifestPromotionError::Admission { error });
        },
        Ok(None) => {
            return Err(
                ManifestPromotionError::NoUsableCandidate { examined: commits.len() },
            );
        },
    };
    let commit: u64 = commits[i];
    let newest: u64 = commits[commits.len() - 1];
    proof {
        chain::lemma_retained_among(ms, ms.len());
        if i < commits@.len() - 1 {
            assert(commits@[i as int] <= commits@[commits@.len() - 1]);
        }
    }
    let needed: u64 = newest - commit;
    if needed > options.max_rollback_commits {
        return Err(
            ManifestPromotionError::RollbackLimit {
                needed,
                allowed: options.max_rollback_commits,
            },
        );
    }
    let h = match validate_surviving_promotion_history(c, limits, &commits, i, &selected) {
        Ok(h) => h,
        Err(error) => {
            return Err(ManifestPromotionError::Admission { error });
        },
    };
    assert(ms[at as int] == c.members@[at as int]@);
    let staged = stage_promotion(c, &commits, &h, &selected, &c.members[at], Ghost(i as int));
    if let Err(error) = namespace::validate_store_member_namespace(&staged, Some(&selected)) {
        return Err(ManifestPromotionError::Result { error });
    }
    match c.seq.checked_add(1) {
        None => Err(ManifestPromotionError::SequenceExhausted),
        Some(seq) => Ok(
            StagedPromotion {
                container: Container { seq, members: staged.members },
                report: ManifestPromotionReport {
                    commit,
                    rollback_commits: needed,
                    abandoned_retained_revisions: h.cut,
                    candidate,
                },
            },
        ),
    }
}

/// Stage the newest usable retained revision in place of damaged authority.
pub fn promote_manifest_file(
    name: &[u8],
    c: &Container,
    options: ManifestPromotionOptions,
) -> (r: Result<StagedPromotion, ManifestPromotionError>)
    ensures
        named_promotion(name@, c@, options, open::default_limits()) == (match r {
            Ok(staged) => Ok::<(ManifestPromotionReport, ContainerView), ManifestPromotionError>(
                (staged.report, staged.container@),
            ),
            Err(e) => Err(e),
        }),
{
    promote_manifest_file_with_limits_and_control(name, c, options, ReadLimits::default())
}

/// Take the outcome of the flip to a staged promotion. Only a flip that selected it changes the
/// container, and only one that survives a crash reports success.
pub fn adopt_promotion(c: &mut Container, staged: StagedPromotion, outcome: CommitOutcome) -> (r:
    Result<ManifestPromotionReport, ManifestPromotionError>)
    ensures
        match outcome {
            CommitOutcome::NotSelected => {
                &&& r == Err::<ManifestPromotionReport, ManifestPromotionError>(
                    ManifestPromotionError::NotSelected,
                )
                &&& *final(c) == *old(c)
            },
            CommitOutcome::SelectedUnsynced => {
                &&& r == Err::<ManifestPromotionReport, ManifestPromotionError>(
                    ManifestPromotionError::Unsynchronized,
                )
                &&& *final(c) == staged.container
            },
            CommitOutcome::Committed => {
                &&& r == Ok::<ManifestPromotionReport, ManifestPromotionError>(staged.report)
                &&& *final(c) == staged.container
            },
        },
{
    match outcome {
        CommitOutcome::NotSelected => Err(ManifestPromotionError::NotSelected),
        CommitOutcome::SelectedUnsynced => {
            *c = staged.container;
            Err(ManifestPromotionError::Unsynchronized)
        },
        CommitOutcome::Committed => {
            *c = staged.container;
            Ok(staged.report)
        },
    }
}

} // verus!
