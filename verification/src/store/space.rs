//! Where a store's bytes are, and what a health endpoint reports.

use crate::container::{Container, MemberView};
use crate::bytes;
use crate::store::audit;
use crate::store::chain;
use crate::store::chain::ChainError;
use crate::store::commit;
use crate::store::compact;
use crate::store::compact::EstimateError;
use crate::store::engine;
use crate::store::engine::{Store, StoreView};
use crate::store::manifest;
use crate::store::manifest::{Manifest, ManifestView, PartRefView};
use crate::store::names;
use crate::store::namespace;
use crate::text;
use vstd::prelude::*;
use vstd::utf8::*;

verus! {

/// Member bytes in one reachability class.
#[derive(Clone, Copy, Debug, PartialEq, Eq, Structural)]
pub struct SpaceAmount {
    pub members: usize,
    pub logical_bytes: u64,
    /// Unknown until extents can be attributed to members.
    pub allocated_bytes: Option<u64>,
}

/// A store's bytes by reachability. The classes are disjoint; the total is their sum.
#[derive(Clone, Copy, Debug, PartialEq, Eq, Structural)]
pub struct StoreSpaceUsage {
    pub live: SpaceAmount,
    pub retained_only: SpaceAmount,
    pub unclassified: SpaceAmount,
    pub total: SpaceAmount,
    pub filesystem_available_bytes: Option<u64>,
}

/// What a member is to authority.
#[derive(Clone, Copy, Debug, PartialEq, Eq, Structural)]
pub enum Reach {
    Live,
    RetainedOnly,
    Unclassified,
}

/// Whether live authority reaches a member.
pub open spec fn live_reach(live: ManifestView, name: Seq<char>) -> bool {
    ||| name == "MANIFEST"@
    ||| namespace::names_part(live, name)
    ||| names::fold_generation(encode_utf8(name)) == Some(live.fold_gen)
}

/// Whether a retained revision reaches a member.
pub open spec fn retained_reach(ms: Seq<MemberView>, name: Seq<char>) -> bool {
    let commits = chain::retained_commits(ms);
    let n = commits.len() as int;
    ||| exists|k: int|
        0 <= k < n && text::chars(names::retained_name(#[trigger] commits[k])) == name
    ||| chain::named_before(ms, commits, n, name)
    ||| names::fold_generation(encode_utf8(name)) matches Some(g) && commit::generation_before(
        ms,
        commits,
        n,
        g,
    )
}

/// The class of a member.
pub open spec fn reach(ms: Seq<MemberView>, live: ManifestView, name: Seq<char>) -> Reach {
    if live_reach(live, name) {
        Reach::Live
    } else if retained_reach(ms, name) {
        Reach::RetainedOnly
    } else {
        Reach::Unclassified
    }
}

/// How many of the first `n` members are in a class.
pub open spec fn class_members(ms: Seq<MemberView>, live: ManifestView, class: Reach, n: nat) -> nat
    decreases n,
{
    if n == 0 {
        0
    } else {
        class_members(ms, live, class, (n - 1) as nat) + if reach(ms, live, ms[n - 1].name)
            == class {
            1nat
        } else {
            0
        }
    }
}

/// How many bytes the first `n` members have in a class.
pub open spec fn class_bytes(ms: Seq<MemberView>, live: ManifestView, class: Reach, n: nat) -> nat
    decreases n,
{
    if n == 0 {
        0
    } else {
        class_bytes(ms, live, class, (n - 1) as nat) + if reach(ms, live, ms[n - 1].name)
            == class {
            ms[n - 1].bytes.len()
        } else {
            0
        }
    }
}

/// The members and the bytes of a class. A log beside the store is live; free extents are
/// unclassified and no members.
pub open spec fn class_total(
    ms: Seq<MemberView>,
    live: ManifestView,
    class: Reach,
    log: Option<u64>,
    free: u64,
) -> (nat, nat) {
    let n = class_members(ms, live, class, ms.len());
    let b = class_bytes(ms, live, class, ms.len());
    match class {
        Reach::Live => match log {
            Some(len) => (n + 1, b + len as nat),
            None => (n, b),
        },
        Reach::RetainedOnly => (n, b),
        Reach::Unclassified => (n, b + free as nat),
    }
}

/// An amount, up to the largest counts.
pub open spec fn amount(t: (nat, nat)) -> SpaceAmount {
    SpaceAmount {
        members: audit::fit(t.0),
        logical_bytes: audit::fit64(t.1),
        allocated_bytes: None,
    }
}

/// What an inventory reports.
pub open spec fn usage_of(
    ms: Seq<MemberView>,
    live: ManifestView,
    log: Option<u64>,
    free: u64,
    available: Option<u64>,
) -> StoreSpaceUsage {
    let a = class_total(ms, live, Reach::Live, log, free);
    let b = class_total(ms, live, Reach::RetainedOnly, log, free);
    let c = class_total(ms, live, Reach::Unclassified, log, free);
    StoreSpaceUsage {
        live: amount(a),
        retained_only: amount(b),
        unclassified: amount(c),
        total: amount((a.0 + b.0 + c.0, a.1 + b.1 + c.1)),
        filesystem_available_bytes: available,
    }
}

/// Every member is in exactly one class: the classes add up to the container.
pub proof fn lemma_classes_add_up(ms: Seq<MemberView>, live: ManifestView, n: nat)
    requires
        n <= ms.len(),
    ensures
        class_members(ms, live, Reach::Live, n) + class_members(ms, live, Reach::RetainedOnly, n)
            + class_members(ms, live, Reach::Unclassified, n) == n,
    decreases n,
{
    if n > 0 {
        lemma_classes_add_up(ms, live, (n - 1) as nat);
    }
}

fn live_holds(live: &Manifest, name: &str) -> (r: bool)
    ensures
        r == live_reach(live@, name@),
{
    if bytes::str_eq(name, "MANIFEST") || namespace::manifest_names(live, name) {
        return true;
    }
    match names::fold_generation_of_member(name.as_bytes()) {
        Some(g) => g == live.fold_gen,
        None => false,
    }
}

fn retained_holds(
    ms: Ghost<Seq<MemberView>>,
    commits: &Vec<u64>,
    retained: &Vec<Manifest>,
    name: &str,
) -> (r: bool)
    requires
        commits@ == chain::retained_commits(ms@),
        retained@.len() == commits@.len(),
        forall|k: int|
            0 <= k < commits@.len() ==> chain::revision(ms@, #[trigger] commits@[k]) is Ok
                && chain::revision(ms@, commits@[k])->Ok_0.1 == retained@[k]@,
    ensures
        r == retained_reach(ms@, name@),
{
    let ghost cs = chain::retained_commits(ms@);
    let generation = names::fold_generation_of_member(name.as_bytes());
    let mut k: usize = 0;
    while k < commits.len()
        invariant
            cs == chain::retained_commits(ms@),
            commits@ == cs,
            retained@.len() == commits@.len(),
            forall|j: int|
                0 <= j < commits@.len() ==> chain::revision(ms@, #[trigger] commits@[j]) is Ok
                    && chain::revision(ms@, commits@[j])->Ok_0.1 == retained@[j]@,
            generation == names::fold_generation(encode_utf8(name@)),
            k <= commits@.len(),
            forall|j: int|
                0 <= j < k ==> text::chars(names::retained_name(#[trigger] cs[j])) != name@,
            !chain::named_before(ms@, cs, k as int, name@),
            generation matches Some(g) ==> !commit::generation_before(ms@, cs, k as int, g),
        decreases commits.len() - k,
    {
        assert(chain::revision(ms@, cs[k as int])->Ok_0.1 == retained@[k as int]@);
        let own = names::retained_member(commits[k]);
        if bytes::str_eq(own.as_str(), name) {
            assert(text::chars(names::retained_name(cs[k as int])) == name@);
            return true;
        }
        if namespace::manifest_names(&retained[k], name) {
            assert(chain::named_before(ms@, cs, cs.len() as int, name@));
            return true;
        }
        if let Some(g) = generation {
            if retained[k].fold_gen == g {
                assert(commit::generation_before(ms@, cs, cs.len() as int, g));
                return true;
            }
        }
        k = k + 1;
    }
    false
}

/// Classify a container's bytes by reachability. A retained revision that does not read refuses
/// the inventory.
pub fn container_space_usage(
    c: &Container,
    live: &Manifest,
    log: Option<u64>,
    free: u64,
    available: Option<u64>,
) -> (r: Result<StoreSpaceUsage, ChainError>)
    ensures
        ({
            let ms = c@.members;
            let commits = chain::retained_commits(ms);
            match commit::retained_fault(ms, commits, commits.len()) {
                Some(e) => r == Err::<StoreSpaceUsage, ChainError>(e),
                None => r == Ok::<StoreSpaceUsage, ChainError>(
                    usage_of(ms, live@, log, free, available),
                ),
            }
        }),
{
    let ghost ms = c@.members;
    let commits = chain::container_retained_commits(c);
    let retained = match commit::read_retained(c, &commits) {
        Ok(r) => r,
        Err(e) => {
            return Err(e);
        },
    };
    let ghost lv = live@;
    let mut ln: usize = 0;
    let mut lb: u64 = 0;
    let mut rn: usize = 0;
    let mut rb: u64 = 0;
    let mut un: usize = 0;
    let mut ub: u64 = 0;
    let mut i: usize = 0;
    while i < c.members.len()
        invariant
            ms == c@.members,
            lv == live@,
            commits@ == chain::retained_commits(ms),
            retained@.len() == commits@.len(),
            forall|j: int|
                0 <= j < commits@.len() ==> chain::revision(ms, #[trigger] commits@[j]) is Ok
                    && chain::revision(ms, commits@[j])->Ok_0.1 == retained@[j]@,
            i <= c.members@.len(),
            ln == audit::fit(class_members(ms, lv, Reach::Live, i as nat)),
            lb == audit::fit64(class_bytes(ms, lv, Reach::Live, i as nat)),
            rn == audit::fit(class_members(ms, lv, Reach::RetainedOnly, i as nat)),
            rb == audit::fit64(class_bytes(ms, lv, Reach::RetainedOnly, i as nat)),
            un == audit::fit(class_members(ms, lv, Reach::Unclassified, i as nat)),
            ub == audit::fit64(class_bytes(ms, lv, Reach::Unclassified, i as nat)),
        decreases c.members.len() - i,
    {
        assert(ms[i as int] == c.members@[i as int]@);
        let name = c.members[i].name.as_str();
        let len: u64 = c.members[i].bytes.len() as u64;
        if live_holds(live, name) {
            ln = audit::add_fit(ln, 1, Ghost(class_members(ms, lv, Reach::Live, i as nat)));
            lb = audit::add_fit64(lb, len, Ghost(class_bytes(ms, lv, Reach::Live, i as nat)));
        } else if retained_holds(Ghost(ms), &commits, &retained, name) {
            rn =
            audit::add_fit(rn, 1, Ghost(class_members(ms, lv, Reach::RetainedOnly, i as nat)));
            rb =
            audit::add_fit64(rb, len, Ghost(class_bytes(ms, lv, Reach::RetainedOnly, i as nat)));
        } else {
            un =
            audit::add_fit(un, 1, Ghost(class_members(ms, lv, Reach::Unclassified, i as nat)));
            ub =
            audit::add_fit64(ub, len, Ghost(class_bytes(ms, lv, Reach::Unclassified, i as nat)));
        }
        i = i + 1;
    }
    let ghost a = class_total(ms, lv, Reach::Live, log, free);
    let ghost b = class_total(ms, lv, Reach::RetainedOnly, log, free);
    let ghost u = class_total(ms, lv, Reach::Unclassified, log, free);
    if let Some(len) = log {
        ln = audit::add_fit(ln, 1, Ghost(class_members(ms, lv, Reach::Live, ms.len())));
        lb = audit::add_fit64(lb, len, Ghost(class_bytes(ms, lv, Reach::Live, ms.len())));
    }
    ub = audit::add_fit64(ub, free, Ghost(class_bytes(ms, lv, Reach::Unclassified, ms.len())));
    let n2: usize = ln.saturating_add(rn);
    let members: usize = n2.saturating_add(un);
    let b2: u64 = lb.saturating_add(rb);
    let logical_bytes: u64 = b2.saturating_add(ub);
    assert(members == audit::fit((a.0 + b.0 + u.0) as nat));
    assert(logical_bytes == audit::fit64((a.1 + b.1 + u.1) as nat));
    Ok(
        StoreSpaceUsage {
            live: SpaceAmount { members: ln, logical_bytes: lb, allocated_bytes: None },
            retained_only: SpaceAmount { members: rn, logical_bytes: rb, allocated_bytes: None },
            unclassified: SpaceAmount { members: un, logical_bytes: ub, allocated_bytes: None },
            total: SpaceAmount { members, logical_bytes, allocated_bytes: None },
            filesystem_available_bytes: available,
        },
    )
}

// ---------------------------------------------------------------------------------------------
// Health.
// ---------------------------------------------------------------------------------------------
/// What the host knows of its caches and its fold configuration.
#[derive(Clone, Copy, Debug, PartialEq, Eq, Structural)]
pub struct HostFigures {
    pub fold_disk_bytes: u64,
    pub fold_segments: u32,
    pub fold_cache_hits: u64,
    pub fold_cache_misses: u64,
    pub fold_cache_bytes: usize,
    pub fold_cache_budget: usize,
    pub fold_segment_max_bytes: u32,
    pub fold_compression_level: i32,
    pub fold_compression_threads: usize,
    pub part_cache_bytes: usize,
    pub part_cache_budget: usize,
}

/// Operational state. Nothing is decoded for it.
#[derive(Clone, Copy, Debug, PartialEq, Eq, Structural)]
pub struct StoreHealth {
    /// Zero is the origin; a positive value is the current revision.
    pub commit: u64,
    pub fold_generation: u32,
    pub parts: usize,
    pub part_rows: u64,
    pub memtable_entries: usize,
    pub memtable_bytes: usize,
    pub wal_bytes: u64,
    pub wal_frames: u64,
    pub fold_disk_bytes: u64,
    pub fold_segments: u32,
    pub fold_cache_hits: u64,
    pub fold_cache_misses: u64,
    pub fold_cache_bytes: usize,
    pub fold_cache_budget: usize,
    pub fold_block_target_bytes: u32,
    pub fold_segment_max_bytes: u32,
    pub fold_compression_level: i32,
    pub fold_compression_threads: usize,
    pub part_cache_bytes: usize,
    pub part_cache_budget: usize,
    pub max_stored_frame_bytes: u64,
    pub max_decoded_frame_bytes: u64,
    pub max_directory_entries: u64,
    pub max_wal_frames: u64,
    pub max_fold_blocks: u64,
    pub dedup_window_entries: usize,
    pub retained_commits: usize,
    pub punched_blocks: u64,
}

/// Rows of the first `n` parts a manifest names.
pub open spec fn named_rows(parts: Seq<PartRefView>, n: nat) -> nat
    decreases n,
{
    if n == 0 {
        0
    } else {
        named_rows(parts, (n - 1) as nat) + parts[n - 1].records as nat
    }
}

/// Blocks in the first `n` ranges.
pub open spec fn blocks_in(ranges: Seq<(u32, u32)>, n: nat) -> nat
    decreases n,
{
    if n == 0 {
        0
    } else {
        blocks_in(ranges, (n - 1) as nat) + (ranges[n - 1].1 - ranges[n - 1].0 + 1) as nat
    }
}

/// Rows a manifest's parts have, up to the largest count.
pub fn part_rows(m: &Manifest) -> (r: u64)
    ensures
        r == audit::fit64(named_rows(m@.parts, m@.parts.len())),
{
    let ghost parts = m@.parts;
    let mut sum: u64 = 0;
    let mut i: usize = 0;
    while i < m.parts.len()
        invariant
            parts == m@.parts,
            i <= m.parts@.len(),
            sum == audit::fit64(named_rows(parts, i as nat)),
        decreases m.parts.len() - i,
    {
        assert(parts[i as int] == m.parts@[i as int]@);
        sum = audit::add_fit64(sum, m.parts[i].records as u64, Ghost(named_rows(parts, i as nat)));
        i = i + 1;
    }
    sum
}

/// Blocks that ranges cover, up to the largest count.
pub fn punched_blocks(ranges: &Vec<(u32, u32)>) -> (r: u64)
    requires
        manifest::ranges_ok(ranges@),
    ensures
        r == audit::fit64(blocks_in(ranges@, ranges@.len())),
{
    let mut sum: u64 = 0;
    let mut i: usize = 0;
    while i < ranges.len()
        invariant
            manifest::ranges_ok(ranges@),
            i <= ranges@.len(),
            sum == audit::fit64(blocks_in(ranges@, i as nat)),
        decreases ranges.len() - i,
    {
        assert(ranges@[i as int].0 <= ranges@[i as int].1);
        let n: u64 = (ranges[i].1 - ranges[i].0) as u64 + 1;
        sum = audit::add_fit64(sum, n, Ghost(blocks_in(ranges@, i as nat)));
        i = i + 1;
    }
    sum
}

/// What a store and its host report.
pub open spec fn health_of(s: StoreView, h: HostFigures) -> StoreHealth {
    StoreHealth {
        commit: s.manifest.commit,
        fold_generation: s.manifest.fold_gen,
        parts: s.parts.len() as usize,
        part_rows: audit::fit64(named_rows(s.manifest.parts, s.manifest.parts.len())),
        memtable_entries: s.mem.len() as usize,
        memtable_bytes: s.mem_bytes,
        wal_bytes: (s.wal.written() + s.wal.buffered().len()) as u64,
        wal_frames: s.wal.frames() as u64,
        fold_disk_bytes: h.fold_disk_bytes,
        fold_segments: h.fold_segments,
        fold_cache_hits: h.fold_cache_hits,
        fold_cache_misses: h.fold_cache_misses,
        fold_cache_bytes: h.fold_cache_bytes,
        fold_cache_budget: h.fold_cache_budget,
        fold_block_target_bytes: s.writer.target,
        fold_segment_max_bytes: h.fold_segment_max_bytes,
        fold_compression_level: h.fold_compression_level,
        fold_compression_threads: h.fold_compression_threads,
        part_cache_bytes: h.part_cache_bytes,
        part_cache_budget: h.part_cache_budget,
        max_stored_frame_bytes: s.read_limits.max_stored_frame_bytes,
        max_decoded_frame_bytes: s.read_limits.max_decoded_frame_bytes,
        max_directory_entries: s.read_limits.max_directory_entries,
        max_wal_frames: s.read_limits.max_wal_frames,
        max_fold_blocks: s.read_limits.max_fold_blocks,
        dedup_window_entries: s.writer.window.len() as usize,
        retained_commits: s.retained_commit_count,
        punched_blocks: audit::fit64(blocks_in(s.manifest.punched, s.manifest.punched.len())),
    }
}

// ---------------------------------------------------------------------------------------------
// Refold estimates.
// ---------------------------------------------------------------------------------------------
/// What rewriting the fold would read and write. The stage estimate is planning evidence, not a
/// bound.
#[derive(Clone, Copy, Debug, PartialEq, Eq, Structural)]
pub struct RefoldSpaceEstimate {
    pub source_fold_logical_bytes: u64,
    pub source_part_bytes: u64,
    pub source_part_sections: usize,
    pub source_part_raw_section_bytes: u64,
    pub retained_only_bytes_before: u64,
    pub estimated_stage_bytes: u64,
    pub estimate_is_hard_bound: bool,
    pub filesystem_available_bytes: Option<u64>,
}

/// Why there is no refold estimate.
#[allow(inconsistent_fields)]
#[derive(Clone, Copy, Debug, PartialEq, Eq, Structural)]
pub enum RefoldEstimateError {
    Estimate { error: EstimateError },
    /// A retained revision does not read.
    Retained { error: ChainError },
}

/// What a refold of a store's parts would cost.
pub open spec fn refold_estimate_of(
    s: StoreView,
    ms: Seq<MemberView>,
    fold_bytes: u64,
    usage: StoreSpaceUsage,
) -> Result<RefoldSpaceEstimate, EstimateError> {
    let parts = s.manifest.parts;
    let n = s.parts.len() as int;
    let costs = compact::part_costs(ms, parts);
    let bytes = compact::values_sum(compact::cost_bytes(costs), costs.len());
    let rows = compact::values_sum(compact::cost_rows(costs), costs.len());
    let sections = compact::section_count(s.parts, 0, n);
    let raw = compact::section_bytes(s.parts, 0, n);
    let stage = compact::stage_bytes(fold_bytes as nat, raw, rows, sections);
    if compact::missing_part(ms, parts, parts.len()) is Some {
        Err(
            EstimateError::MissingPart {
                index: compact::missing_part(ms, parts, parts.len())->0,
            },
        )
    } else if bytes > u64::MAX || rows > u64::MAX || sections > usize::MAX || raw > u64::MAX
        || stage > u64::MAX {
        Err(EstimateError::Overflow)
    } else {
        Ok(
            RefoldSpaceEstimate {
                source_fold_logical_bytes: fold_bytes,
                source_part_bytes: bytes as u64,
                source_part_sections: sections as usize,
                source_part_raw_section_bytes: raw as u64,
                retained_only_bytes_before: usage.retained_only.logical_bytes,
                estimated_stage_bytes: stage as u64,
                estimate_is_hard_bound: false,
                filesystem_available_bytes: usage.filesystem_available_bytes,
            },
        )
    }
}

impl Store {
    /// A snapshot of operational state.
    pub fn health(&self, host: &HostFigures) -> (r: StoreHealth)
        requires
            engine::store_ok(self@),
        ensures
            r == health_of(self@, *host),
    {
        StoreHealth {
            commit: self.manifest.commit,
            fold_generation: self.manifest.fold_gen,
            parts: self.parts.len(),
            part_rows: part_rows(&self.manifest),
            memtable_entries: self.mem.len(),
            memtable_bytes: self.mem_bytes,
            wal_bytes: self.wal.bytes(),
            wal_frames: self.wal.frame_count(),
            fold_disk_bytes: host.fold_disk_bytes,
            fold_segments: host.fold_segments,
            fold_cache_hits: host.fold_cache_hits,
            fold_cache_misses: host.fold_cache_misses,
            fold_cache_bytes: host.fold_cache_bytes,
            fold_cache_budget: host.fold_cache_budget,
            fold_block_target_bytes: self.writer.target,
            fold_segment_max_bytes: host.fold_segment_max_bytes,
            fold_compression_level: host.fold_compression_level,
            fold_compression_threads: host.fold_compression_threads,
            part_cache_bytes: host.part_cache_bytes,
            part_cache_budget: host.part_cache_budget,
            max_stored_frame_bytes: self.read_limits.max_stored_frame_bytes,
            max_decoded_frame_bytes: self.read_limits.max_decoded_frame_bytes,
            max_directory_entries: self.read_limits.max_directory_entries,
            max_wal_frames: self.read_limits.max_wal_frames,
            max_fold_blocks: self.read_limits.max_fold_blocks,
            dedup_window_entries: self.writer.window.len(),
            retained_commits: self.retained_commit_count,
            punched_blocks: punched_blocks(&self.manifest.punched),
        }
    }

    /// Classify a container's bytes under this store's authority.
    pub fn space_usage(
        &self,
        c: &Container,
        log: Option<u64>,
        free: u64,
        available: Option<u64>,
    ) -> (r: Result<StoreSpaceUsage, ChainError>)
        ensures
            ({
                let ms = c@.members;
                let commits = chain::retained_commits(ms);
                match commit::retained_fault(ms, commits, commits.len()) {
                    Some(e) => r == Err::<StoreSpaceUsage, ChainError>(e),
                    None => r == Ok::<StoreSpaceUsage, ChainError>(
                        usage_of(ms, self@.manifest, log, free, available),
                    ),
                }
            }),
    {
        container_space_usage(c, &self.manifest, log, free, available)
    }

    /// Estimate what rewriting the fold would cost; nothing for a store without parts.
    pub fn estimate_refold_space(
        &self,
        c: &Container,
        fold_bytes: u64,
        log: Option<u64>,
        free: u64,
        available: Option<u64>,
    ) -> (r: Result<Option<RefoldSpaceEstimate>, RefoldEstimateError>)
        requires
            engine::store_ok(self@),
        ensures
            ({
                let s = self@;
                let ms = c@.members;
                let commits = chain::retained_commits(ms);
                let usage = usage_of(ms, s.manifest, log, free, available);
                if s.mem.len() > 0 {
                    r == Err::<Option<RefoldSpaceEstimate>, RefoldEstimateError>(
                        RefoldEstimateError::Estimate { error: EstimateError::UnflushedMemtable },
                    )
                } else if s.parts.len() == 0 {
                    r == Ok::<Option<RefoldSpaceEstimate>, RefoldEstimateError>(None)
                } else {
                    match refold_estimate_of(s, ms, fold_bytes, usage) {
                        Err(error) => r == Err::<
                            Option<RefoldSpaceEstimate>,
                            RefoldEstimateError,
                        >(RefoldEstimateError::Estimate { error }),
                        Ok(e) => match commit::retained_fault(ms, commits, commits.len()) {
                            Some(error) => r == Err::<
                                Option<RefoldSpaceEstimate>,
                                RefoldEstimateError,
                            >(RefoldEstimateError::Retained { error }),
                            None => r == Ok::<Option<RefoldSpaceEstimate>, RefoldEstimateError>(
                                Some(e),
                            ),
                        },
                    }
                }
            }),
    {
        if self.mem.len() > 0 {
            return Err(
                RefoldEstimateError::Estimate { error: EstimateError::UnflushedMemtable },
            );
        }
        if self.parts.len() == 0 {
            return Ok(None);
        }
        let costs = match compact::measure_parts(c, &self.manifest) {
            Ok(costs) => costs,
            Err(index) => {
                return Err(
                    RefoldEstimateError::Estimate { error: EstimateError::MissingPart { index } },
                );
            },
        };
        let totals = compact::total_costs(&costs);
        let counted = compact::count_sections(&self.parts, 0, self.parts.len());
        let (rows, bytes, sections, raw) = match (totals, counted) {
            (Some((rows, bytes)), Some((sections, raw))) => (rows, bytes, sections, raw),
            _ => {
                return Err(RefoldEstimateError::Estimate { error: EstimateError::Overflow });
            },
        };
        let stage: u64 = match compact::estimate_stage(fold_bytes, raw, rows, sections) {
            Some(n) => n,
            None => {
                return Err(RefoldEstimateError::Estimate { error: EstimateError::Overflow });
            },
        };
        let usage = match container_space_usage(c, &self.manifest, log, free, available) {
            Ok(u) => u,
            Err(error) => {
                return Err(RefoldEstimateError::Retained { error });
            },
        };
        Ok(
            Some(
                RefoldSpaceEstimate {
                    source_fold_logical_bytes: fold_bytes,
                    source_part_bytes: bytes,
                    source_part_sections: sections,
                    source_part_raw_section_bytes: raw,
                    retained_only_bytes_before: usage.retained_only.logical_bytes,
                    estimated_stage_bytes: stage,
                    estimate_is_hard_bound: false,
                    filesystem_available_bytes: usage.filesystem_available_bytes,
                },
            ),
        )
    }
}

} // verus!
