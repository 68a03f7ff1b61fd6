//! Choosing what to merge, and what a merge would cost.

use crate::container;
use crate::container::{Container, MemberView};
use crate::part;
use crate::part::{Part, PartView};
use crate::store::audit;
use crate::store::chain;
use crate::store::engine;
use crate::store::engine::{Store, StoreView};
use crate::store::manifest;
use crate::store::manifest::{Manifest, PartRefView};
use crate::store::publish;
use crate::store::publish::{PartPlan, PlanView, PublishError};
use vstd::prelude::*;

verus! {

/// Bounds on what one merge may read.
#[derive(Clone, Copy, Debug, PartialEq, Eq, Structural)]
pub struct CompactionBudget {
    /// Adjacent parts.
    pub max_input_parts: usize,
    /// Rows across them.
    pub max_input_rows: u64,
    /// Sum of their member lengths.
    pub max_input_bytes: u64,
}

/// A contiguous run of parts.
#[derive(Clone, Copy, Debug, PartialEq, Eq, Structural)]
pub struct CompactionPlan {
    /// The oldest part of the run.
    pub start_part: usize,
    pub input_parts: usize,
    pub input_rows: u64,
    pub input_bytes: u64,
    /// Whether the run is every part there is.
    pub drops_tombstones: bool,
}

/// A budget that describes or admits no run.
#[derive(Debug, PartialEq, Eq)]
pub enum CompactionError {
    /// A bound is unusable.
    InvalidBudget(String),
    /// No adjacent pair fits; this one needs the fewest bytes.
    BudgetTooSmall {
        start_part: usize,
        input_rows: u64,
        input_bytes: u64,
        budget: CompactionBudget,
    },
}

/// View of a [`CompactionError`].
pub enum CompactionFault {
    InvalidBudget(Seq<char>),
    BudgetTooSmall {
        start_part: usize,
        input_rows: u64,
        input_bytes: u64,
        budget: CompactionBudget,
    },
}

impl View for CompactionError {
    type V = CompactionFault;

    open spec fn view(&self) -> CompactionFault {
        match self {
            CompactionError::InvalidBudget(reason) => CompactionFault::InvalidBudget(reason@),
            CompactionError::BudgetTooSmall { start_part, input_rows, input_bytes, budget } =>
                CompactionFault::BudgetTooSmall {
                start_part: *start_part,
                input_rows: *input_rows,
                input_bytes: *input_bytes,
                budget: *budget,
            },
        }
    }
}

/// Why there is no compaction plan.
#[derive(Debug, PartialEq, Eq)]
pub enum CompactionPlanError {
    Compaction(CompactionError),
    /// The container does not hold a part that the manifest names.
    MissingPart { index: usize },
}

/// The first unusable bound of a budget.
pub open spec fn budget_fault(b: CompactionBudget) -> Option<Seq<char>> {
    if b.max_input_parts < 2 {
        Some("max_input_parts must be at least 2"@)
    } else if b.max_input_rows == 0 {
        Some("max_input_rows must be greater than zero"@)
    } else if b.max_input_bytes == 0 {
        Some("max_input_bytes must be greater than zero"@)
    } else {
        None
    }
}

impl CompactionBudget {
    /// Reject unusable bounds before any work begins.
    pub fn validate(self) -> (r: Result<(), CompactionError>)
        ensures
            match r {
                Ok(()) => budget_fault(self) is None,
                Err(e) => budget_fault(self) matches Some(reason) && e@
                    == CompactionFault::InvalidBudget(reason),
            },
    {
        if self.max_input_parts < 2 {
            return Err(
                CompactionError::InvalidBudget("max_input_parts must be at least 2".to_owned()),
            );
        }
        if self.max_input_rows == 0 {
            return Err(
                CompactionError::InvalidBudget(
                    "max_input_rows must be greater than zero".to_owned(),
                ),
            );
        }
        if self.max_input_bytes == 0 {
            return Err(
                CompactionError::InvalidBudget(
                    "max_input_bytes must be greater than zero".to_owned(),
                ),
            );
        }
        Ok(())
    }
}

/// Rows of the `k` parts from `start` on.
pub open spec fn rows_sum(costs: Seq<(u64, u64)>, start: int, k: nat) -> nat
    decreases k,
{
    if k == 0 {
        0
    } else {
        rows_sum(costs, start, (k - 1) as nat) + costs[start + k - 1].0 as nat
    }
}

/// Bytes of the `k` parts from `start` on.
pub open spec fn bytes_sum(costs: Seq<(u64, u64)>, start: int, k: nat) -> nat
    decreases k,
{
    if k == 0 {
        0
    } else {
        bytes_sum(costs, start, (k - 1) as nat) + costs[start + k - 1].1 as nat
    }
}

/// Whether a run's rows and bytes keep within a budget.
pub open spec fn fits(costs: Seq<(u64, u64)>, start: int, k: nat, b: CompactionBudget) -> bool {
    &&& audit::fit64(rows_sum(costs, start, k)) <= b.max_input_rows
    &&& audit::fit64(bytes_sum(costs, start, k)) <= b.max_input_bytes
}

/// Whether a run of at least two parts is within a budget.
pub open spec fn eligible(costs: Seq<(u64, u64)>, start: int, k: nat, b: CompactionBudget) -> bool {
    &&& 0 <= start
    &&& 2 <= k <= b.max_input_parts
    &&& start + k <= costs.len()
    &&& fits(costs, start, k, b)
}

/// The widest run within a budget, the oldest of those.
pub open spec fn is_plan(costs: Seq<(u64, u64)>, b: CompactionBudget, p: CompactionPlan) -> bool {
    &&& eligible(costs, p.start_part as int, p.input_parts as nat, b)
    &&& p.input_rows == audit::fit64(
        rows_sum(costs, p.start_part as int, p.input_parts as nat),
    )
    &&& p.input_bytes == audit::fit64(
        bytes_sum(costs, p.start_part as int, p.input_parts as nat),
    )
    &&& p.drops_tombstones == (p.start_part == 0 && p.input_parts == costs.len())
    &&& forall|start: int, k: nat|
        #[trigger] eligible(costs, start, k, b) ==> k < p.input_parts || (k == p.input_parts
            && start >= p.start_part)
}

/// What an adjacent pair costs: bytes before rows before age.
pub open spec fn pair_before(costs: Seq<(u64, u64)>, a: int, b: int) -> bool {
    let ab = audit::fit64(bytes_sum(costs, a, 2));
    let bb = audit::fit64(bytes_sum(costs, b, 2));
    let ar = audit::fit64(rows_sum(costs, a, 2));
    let br = audit::fit64(rows_sum(costs, b, 2));
    ab < bb || (ab == bb && (ar < br || (ar == br && a <= b)))
}

/// The length of each part a manifest names, beside its rows.
pub open spec fn part_costs(ms: Seq<MemberView>, parts: Seq<PartRefView>) -> Seq<(u64, u64)> {
    Seq::new(
        parts.len(),
        |i: int|
            (
                parts[i].records as u64,
                ms[container::position_of(ms, parts[i].member)->0].bytes.len() as u64,
            ),
    )
}

/// The first of `n` parts that a container does not hold.
pub open spec fn missing_part(ms: Seq<MemberView>, parts: Seq<PartRefView>, n: nat) -> Option<usize>
    decreases n,
{
    if n == 0 {
        None
    } else {
        match missing_part(ms, parts, (n - 1) as nat) {
            Some(i) => Some(i),
            None => if container::position_of(ms, parts[n - 1].member) is None {
                Some((n - 1) as usize)
            } else {
                None
            },
        }
    }
}

proof fn lemma_missing_prefix(ms: Seq<MemberView>, parts: Seq<PartRefView>, k: nat, n: nat)
    requires
        k <= n,
        missing_part(ms, parts, k) is Some,
    ensures
        missing_part(ms, parts, n) == missing_part(ms, parts, k),
    decreases n,
{
    if k < n {
        lemma_missing_prefix(ms, parts, k, (n - 1) as nat);
    }
}

proof fn lemma_sums_grow(costs: Seq<(u64, u64)>, start: int, k: nat, n: nat)
    requires
        k <= n,
    ensures
        rows_sum(costs, start, k) <= rows_sum(costs, start, n),
        bytes_sum(costs, start, k) <= bytes_sum(costs, start, n),
    decreases n,
{
    if k < n {
        lemma_sums_grow(costs, start, k, (n - 1) as nat);
    }
}

/// The rows and member lengths of a manifest's parts.
pub fn measure_parts(c: &Container, m: &Manifest) -> (r: Result<Vec<(u64, u64)>, usize>)
    ensures
        match r {
            Ok(costs) => missing_part(c@.members, m@.parts, m@.parts.len()) is None && costs@
                == part_costs(c@.members, m@.parts),
            Err(index) => missing_part(c@.members, m@.parts, m@.parts.len()) == Some(index),
        },
{
    let ghost ms = c@.members;
    let ghost parts = m@.parts;
    let mut out: Vec<(u64, u64)> = Vec::new();
    let mut i: usize = 0;
    while i < m.parts.len()
        invariant
            ms == c@.members,
            parts == m@.parts,
            i <= m.parts@.len(),
            out@.len() == i,
            missing_part(ms, parts, i as nat) is None,
            forall|k: int| 0 <= k < i ==> #[trigger] out@[k] == part_costs(ms, parts)[k],
        decreases m.parts.len() - i,
    {
        assert(parts[i as int] == m.parts@[i as int]@);
        match c.find(m.parts[i].member.as_str()) {
            None => {
                proof {
                    lemma_missing_prefix(ms, parts, (i + 1) as nat, parts.len());
                }
                return Err(i);
            },
            Some(at) => {
                assert(ms[at as int] == c.members@[at as int]@);
                out.push((m.parts[i].records as u64, c.members[at].bytes.len() as u64));
            },
        }
        i = i + 1;
    }
    assert(out@ =~= part_costs(ms, parts));
    Ok(out)
}

/// The widest run from one start that is wider than the best so far.
spec fn best_among(
    costs: Seq<(u64, u64)>,
    b: CompactionBudget,
    best: Option<CompactionPlan>,
    start: int,
    k: nat,
) -> bool {
    match best {
        None => false,
        Some(p) => k < p.input_parts || (k == p.input_parts && start >= p.start_part),
    }
}

spec fn plan_made(costs: Seq<(u64, u64)>, b: CompactionBudget, best: Option<CompactionPlan>) -> bool {
    best matches Some(p) ==> {
        &&& eligible(costs, p.start_part as int, p.input_parts as nat, b)
        &&& p.input_rows == audit::fit64(
            rows_sum(costs, p.start_part as int, p.input_parts as nat),
        )
        &&& p.input_bytes == audit::fit64(
            bytes_sum(costs, p.start_part as int, p.input_parts as nat),
        )
        &&& p.drops_tombstones == (p.start_part == 0 && p.input_parts == costs.len())
    }
}

fn widen(
    costs: &Vec<(u64, u64)>,
    b: CompactionBudget,
    start: usize,
    best: Option<CompactionPlan>,
) -> (r: Option<CompactionPlan>)
    requires
        start < costs@.len(),
        plan_made(costs@, b, best),
        best matches Some(p) ==> p.start_part < start,
        forall|s: int, k: nat|
            s < start && #[trigger] eligible(costs@, s, k, b) ==> best_among(
                costs@,
                b,
                best,
                s,
                k,
            ),
    ensures
        plan_made(costs@, b, r),
        r matches Some(p) ==> p.start_part <= start,
        forall|s: int, k: nat|
            s <= start && #[trigger] eligible(costs@, s, k, b) ==> best_among(costs@, b, r, s, k),
{
    let mut found = best;
    let mut rows: u64 = 0;
    let mut bytes: u64 = 0;
    let mut k: usize = 0;
    let total: usize = costs.len();
    let ghost cs = costs@;
    let mut open = true;
    while open && k < total - start && k < b.max_input_parts
        invariant
            cs == costs@,
            total == cs.len(),
            start < total,
            k <= total - start,
            k <= b.max_input_parts,
            open ==> rows == audit::fit64(rows_sum(cs, start as int, k as nat)),
            open ==> bytes == audit::fit64(bytes_sum(cs, start as int, k as nat)),
            !open ==> k < total - start && !fits(cs, start as int, (k + 1) as nat, b),
            plan_made(cs, b, found),
            found matches Some(p) ==> p.start_part <= start,
            forall|s: int, j: nat|
                s < start && #[trigger] eligible(cs, s, j, b) ==> best_among(cs, b, found, s, j),
            forall|j: nat|
                j <= k && #[trigger] eligible(cs, start as int, j, b) ==> best_among(
                    cs,
                    b,
                    found,
                    start as int,
                    j,
                ),
            best matches Some(p) ==> p.start_part < start,
        decreases total - k + if open { 1int } else { 0int },
    {
        let cost = costs[start + k];
        let ghost more = (k + 1) as nat;
        assert(rows_sum(cs, start as int, more) == rows_sum(cs, start as int, k as nat)
            + cost.0 as nat);
        assert(bytes_sum(cs, start as int, more) == bytes_sum(cs, start as int, k as nat)
            + cost.1 as nat);
        rows = audit::add_fit64(rows, cost.0, Ghost(rows_sum(cs, start as int, k as nat)));
        bytes = audit::add_fit64(bytes, cost.1, Ghost(bytes_sum(cs, start as int, k as nat)));
        if rows > b.max_input_rows || bytes > b.max_input_bytes {
            open = false;
        } else {
            k = k + 1;
            let wider = match found {
                Some(p) => k > p.input_parts,
                None => true,
            };
            if k >= 2 && wider {
                found = Some(
                    CompactionPlan {
                        start_part: start,
                        input_parts: k,
                        input_rows: rows,
                        input_bytes: bytes,
                        drops_tombstones: start == 0 && k == total,
                    },
                );
            }
        }
    }
    proof {
        assert forall|s: int, j: nat| s <= start && #[trigger] eligible(
            cs,
            s,
            j,
            b,
        ) implies best_among(cs, b, found, s, j) by {
            if s == start && j > k {
                if !open {
                    lemma_sums_grow(cs, start as int, (k + 1) as nat, j);
                }
            }
        }
    }
    found
}

fn smallest_pair(costs: &Vec<(u64, u64)>) -> (r: (usize, u64, u64))
    requires
        costs@.len() >= 2,
    ensures
        r.0 + 2 <= costs@.len(),
        r.1 == audit::fit64(rows_sum(costs@, r.0 as int, 2)),
        r.2 == audit::fit64(bytes_sum(costs@, r.0 as int, 2)),
        forall|i: int|
            0 <= i && i + 2 <= costs@.len() ==> #[trigger] pair_before(costs@, r.0 as int, i),
{
    let ghost cs = costs@;
    let mut best: (usize, u64, u64) = (
        0,
        costs[0].0.saturating_add(costs[1].0),
        costs[0].1.saturating_add(costs[1].1),
    );
    proof {
        reveal_with_fuel(rows_sum, 3);
        reveal_with_fuel(bytes_sum, 3);
    }
    let mut i: usize = 1;
    let total: usize = costs.len();
    while i < total - 1
        invariant
            cs == costs@,
            total == cs.len(),
            1 <= i <= total - 1,
            best.0 < i,
            best.1 == audit::fit64(rows_sum(cs, best.0 as int, 2)),
            best.2 == audit::fit64(bytes_sum(cs, best.0 as int, 2)),
            forall|j: int| 0 <= j < i ==> #[trigger] pair_before(cs, best.0 as int, j),
        decreases total - i,
    {
        proof {
            reveal_with_fuel(rows_sum, 3);
            reveal_with_fuel(bytes_sum, 3);
        }
        let rows: u64 = costs[i].0.saturating_add(costs[i + 1].0);
        let bytes: u64 = costs[i].1.saturating_add(costs[i + 1].1);
        assert(rows == audit::fit64(rows_sum(cs, i as int, 2)));
        assert(bytes == audit::fit64(bytes_sum(cs, i as int, 2)));
        let ghost prev = best.0 as int;
        if bytes < best.2 || (bytes == best.2 && rows < best.1) {
            best = (i, rows, bytes);
        }
        proof {
            assert forall|j: int| 0 <= j < i + 1 implies #[trigger] pair_before(
                cs,
                best.0 as int,
                j,
            ) by {
                if j < i {
                    assert(pair_before(cs, prev, j));
                }
            }
        }
        i = i + 1;
    }
    best
}

/// The run to merge: the widest within a budget, the oldest of those. Fewer than two parts have
/// none; where no adjacent pair fits, the cheapest one is named.
pub fn plan_run(costs: &Vec<(u64, u64)>, budget: CompactionBudget) -> (r: Result<
    Option<CompactionPlan>,
    CompactionError,
>)
    ensures
        if budget_fault(budget) is Some {
            r matches Err(e) && e@ == CompactionFault::InvalidBudget(budget_fault(budget)->0)
        } else if costs@.len() < 2 {
            r == Ok::<Option<CompactionPlan>, CompactionError>(None)
        } else {
            match r {
                Ok(Some(p)) => is_plan(costs@, budget, p),
                Ok(None) => false,
                Err(e) => too_small(costs@, budget, e@),
            }
        },
{
    if let Err(e) = budget.validate() {
        return Err(e);
    }
    if costs.len() < 2 {
        return Ok(None);
    }
    let ghost cs = costs@;
    let mut best: Option<CompactionPlan> = None;
    let mut start: usize = 0;
    let total: usize = costs.len();
    while start < total - 1
        invariant
            cs == costs@,
            total == cs.len(),
            total >= 2,
            start <= total - 1,
            plan_made(cs, budget, best),
            best matches Some(p) ==> p.start_part < start,
            forall|s: int, k: nat|
                s < start && #[trigger] eligible(cs, s, k, budget) ==> best_among(
                    cs,
                    budget,
                    best,
                    s,
                    k,
                ),
        decreases total - start,
    {
        best = widen(costs, budget, start, best);
        start = start + 1;
    }
    match best {
        Some(p) => {
            proof {
                assert forall|s: int, k: nat| #[trigger] eligible(cs, s, k, budget) implies k
                    < p.input_parts || (k == p.input_parts && s >= p.start_part) by {
                    assert(s < start);
                    assert(best_among(cs, budget, best, s, k));
                }
            }
            Ok(Some(p))
        },
        None => {
            proof {
                assert forall|s: int, k: nat| !#[trigger] eligible(cs, s, k, budget) by {
                    if eligible(cs, s, k, budget) {
                        assert(s < start);
                        assert(best_among(cs, budget, best, s, k));
                    }
                }
            }
            let (start_part, input_rows, input_bytes) = smallest_pair(costs);
            Err(CompactionError::BudgetTooSmall { start_part, input_rows, input_bytes, budget })
        },
    }
}

// ---------------------------------------------------------------------------------------------
// Estimates.
// ---------------------------------------------------------------------------------------------
/// What a merge would read and write. The stage estimate is planning evidence, not a bound.
#[derive(Clone, Copy, Debug, PartialEq, Eq, Structural)]
pub struct CompactionSpaceEstimate {
    pub plan: CompactionPlan,
    pub input_sections: usize,
    pub input_raw_section_bytes: u64,
    pub estimated_stage_bytes: u64,
    pub estimate_is_hard_bound: bool,
    /// The inputs stay pinned by the revision before the merge.
    pub retained_input_bytes_after_commit: u64,
    pub filesystem_available_bytes: Option<u64>,
}

/// Why there is no estimate.
#[derive(Clone, Copy, Debug, PartialEq, Eq, Structural)]
pub enum EstimateError {
    /// A count or a sum does not fit.
    Overflow,
    /// The container does not hold a part that the manifest names.
    MissingPart { index: usize },
    /// Rows are staged that must be flushed first.
    UnflushedMemtable,
}

/// Sections of the parts from `lo` up to `hi`.
pub open spec fn section_count(parts: Seq<PartView>, lo: int, hi: int) -> nat
    decreases hi - lo,
{
    if hi <= lo {
        0
    } else {
        section_count(parts, lo, hi - 1) + parts[hi - 1].sections as nat
    }
}

/// What those sections hold before compression.
pub open spec fn section_bytes(parts: Seq<PartView>, lo: int, hi: int) -> nat
    decreases hi - lo,
{
    if hi <= lo {
        0
    } else {
        section_bytes(parts, lo, hi - 1) + parts[hi - 1].section_bytes as nat
    }
}

/// Section bytes, with an allowance for rows and sections and a fixed one for the rest.
pub open spec fn stage_bytes(base: nat, raw: nat, rows: nat, sections: nat) -> nat {
    base + raw + rows * 64 + sections * 256 + 0x10_0000
}

proof fn lemma_sections_grow(parts: Seq<PartView>, lo: int, k: int, hi: int)
    requires
        lo <= k <= hi,
    ensures
        section_count(parts, lo, k) <= section_count(parts, lo, hi),
        section_bytes(parts, lo, k) <= section_bytes(parts, lo, hi),
    decreases hi - k,
{
    if k < hi {
        lemma_sections_grow(parts, lo, k, hi - 1);
    }
}

/// Count the sections of a run; none where a count does not fit.
pub fn count_sections(parts: &Vec<Part>, lo: usize, hi: usize) -> (r: Option<(usize, u64)>)
    requires
        lo <= hi <= parts@.len(),
    ensures
        ({
            let pv = part::parts_view(parts@);
            let n = section_count(pv, lo as int, hi as int);
            let raw = section_bytes(pv, lo as int, hi as int);
            match r {
                Some((count, bytes)) => count == n && bytes == raw,
                None => n > usize::MAX || raw > u64::MAX,
            }
        }),
{
    let ghost pv = part::parts_view(parts@);
    let mut count: usize = 0;
    let mut bytes: u64 = 0;
    let mut p: usize = lo;
    while p < hi
        invariant
            pv == part::parts_view(parts@),
            lo <= p <= hi <= parts@.len(),
            count == section_count(pv, lo as int, p as int),
            bytes == section_bytes(pv, lo as int, p as int),
        decreases hi - p,
    {
        assert(pv[p as int] == parts@[p as int]@);
        proof {
            lemma_sections_grow(pv, lo as int, p + 1, hi as int);
        }
        count =
        match count.checked_add(parts[p].sections) {
            Some(n) => n,
            None => {
                return None;
            },
        };
        bytes =
        match bytes.checked_add(parts[p].section_bytes) {
            Some(n) => n,
            None => {
                return None;
            },
        };
        p = p + 1;
    }
    Some((count, bytes))
}

/// Add up an estimate; none where it does not fit.
pub fn estimate_stage(base: u64, raw: u64, rows: u64, sections: usize) -> (r: Option<u64>)
    ensures
        match r {
            Some(n) => n == stage_bytes(base as nat, raw as nat, rows as nat, sections as nat),
            None => stage_bytes(base as nat, raw as nat, rows as nat, sections as nat) > u64::MAX,
        },
{
    let row_allowance: u64 = match rows.checked_mul(64) {
        Some(n) => n,
        None => {
            return None;
        },
    };
    let section_allowance: u64 = match (sections as u64).checked_mul(256) {
        Some(n) => n,
        None => {
            return None;
        },
    };
    let mut sum: u64 = match base.checked_add(raw) {
        Some(n) => n,
        None => {
            return None;
        },
    };
    sum =
    match sum.checked_add(row_allowance) {
        Some(n) => n,
        None => {
            return None;
        },
    };
    sum =
    match sum.checked_add(section_allowance) {
        Some(n) => n,
        None => {
            return None;
        },
    };
    sum.checked_add(0x10_0000)
}

/// What a plan costs.
pub open spec fn estimate_of(parts: Seq<PartView>, p: CompactionPlan, available: Option<u64>) -> Result<
    CompactionSpaceEstimate,
    EstimateError,
> {
    let lo = p.start_part as int;
    let hi = lo + p.input_parts;
    let sections = section_count(parts, lo, hi);
    let raw = section_bytes(parts, lo, hi);
    let stage = stage_bytes(0, raw, p.input_rows as nat, sections);
    if sections > usize::MAX || raw > u64::MAX || stage > u64::MAX {
        Err(EstimateError::Overflow)
    } else {
        Ok(
            CompactionSpaceEstimate {
                plan: p,
                input_sections: sections as usize,
                input_raw_section_bytes: raw as u64,
                estimated_stage_bytes: stage as u64,
                estimate_is_hard_bound: false,
                retained_input_bytes_after_commit: p.input_bytes,
                filesystem_available_bytes: available,
            },
        )
    }
}

/// Part count at which a total merge is due.
pub const AUTO_COMPACT_K: usize = 8;

/// The run that size-tiered compaction merges: the oldest parts, once there are enough.
pub open spec fn tiered_run(parts: nat, trigger: nat, run: nat) -> Option<nat> {
    if parts < trigger {
        None
    } else if run < parts {
        Some(run)
    } else {
        Some(parts)
    }
}

/// Why a budget has no estimate.
#[derive(Debug, PartialEq, Eq)]
pub enum CompactionSpaceError {
    Plan(CompactionPlanError),
    Estimate(EstimateError),
}

/// One bounded merge: the run it covers, and the part that the run becomes.
pub struct BoundedCompaction {
    pub plan: CompactionPlan,
    pub merge: PartPlan,
}

/// Why a bounded merge is not planned.
#[derive(Debug, PartialEq, Eq)]
pub enum BoundedError {
    Plan(CompactionPlanError),
    Publish(PublishError),
}

/// Why a budget selects no run of a manifest's parts.
pub open spec fn no_plan(
    ms: Seq<MemberView>,
    parts: Seq<PartRefView>,
    budget: CompactionBudget,
    e: CompactionPlanError,
) -> bool {
    if budget_fault(budget) is Some {
        e matches CompactionPlanError::Compaction(f) && f@ == CompactionFault::InvalidBudget(
            budget_fault(budget)->0,
        )
    } else if parts.len() < 2 {
        false
    } else if missing_part(ms, parts, parts.len()) is Some {
        e == CompactionPlanError::MissingPart { index: missing_part(ms, parts, parts.len())->0 }
    } else {
        &&& e matches CompactionPlanError::Compaction(f)
        &&& too_small(part_costs(ms, parts), budget, f@)
    }
}

/// The refusal of a budget that no adjacent pair fits: it names the cheapest pair.
pub open spec fn too_small(
    costs: Seq<(u64, u64)>,
    budget: CompactionBudget,
    f: CompactionFault,
) -> bool {
    &&& forall|start: int, k: nat| !#[trigger] eligible(costs, start, k, budget)
    &&& f matches CompactionFault::BudgetTooSmall { start_part, input_rows, input_bytes, budget: b }
    &&& b == budget
    &&& start_part + 2 <= costs.len()
    &&& input_rows == audit::fit64(rows_sum(costs, start_part as int, 2))
    &&& input_bytes == audit::fit64(bytes_sum(costs, start_part as int, 2))
    &&& forall|i: int|
        0 <= i && i + 2 <= costs.len() ==> #[trigger] pair_before(costs, start_part as int, i)
}

impl Store {
    /// Select a contiguous run whose inputs fit a budget.
    pub fn plan_compaction(&self, c: &Container, budget: CompactionBudget) -> (r: Result<
        Option<CompactionPlan>,
        CompactionPlanError,
    >)
        ensures
            ({
                let parts = self@.manifest.parts;
                let ms = c@.members;
                let costs = part_costs(ms, parts);
                if budget_fault(budget) is Some {
                    r matches Err(CompactionPlanError::Compaction(e)) && e@
                        == CompactionFault::InvalidBudget(budget_fault(budget)->0)
                } else if parts.len() < 2 {
                    r == Ok::<Option<CompactionPlan>, CompactionPlanError>(None)
                } else if missing_part(ms, parts, parts.len()) is Some {
                    r == Err::<Option<CompactionPlan>, CompactionPlanError>(
                        CompactionPlanError::MissingPart {
                            index: missing_part(ms, parts, parts.len())->0,
                        },
                    )
                } else {
                    match r {
                        Ok(Some(p)) => is_plan(costs, budget, p),
                        Ok(None) => false,
                        Err(e) => no_plan(ms, parts, budget, e),
                    }
                }
            }),
    {
        if let Err(e) = budget.validate() {
            return Err(CompactionPlanError::Compaction(e));
        }
        if self.manifest.parts.len() < 2 {
            return Ok(None);
        }
        let costs = match measure_parts(c, &self.manifest) {
            Ok(costs) => costs,
            Err(index) => {
                return Err(CompactionPlanError::MissingPart { index });
            },
        };
        match plan_run(&costs, budget) {
            Ok(p) => Ok(p),
            Err(e) => Err(CompactionPlanError::Compaction(e)),
        }
    }

    /// What a planned merge would cost.
    pub fn estimate_plan(&self, plan: CompactionPlan, available: Option<u64>) -> (r: Result<
        CompactionSpaceEstimate,
        EstimateError,
    >)
        requires
            plan.start_part + plan.input_parts <= self@.parts.len(),
        ensures
            r == estimate_of(self@.parts, plan, available),
    {
        let total: usize = self.parts.len();
        assert(plan.start_part + plan.input_parts <= total);
        let hi: usize = plan.start_part + plan.input_parts;
        let (sections, raw) = match count_sections(&self.parts, plan.start_part, hi) {
            Some(found) => found,
            None => {
                return Err(EstimateError::Overflow);
            },
        };
        match estimate_stage(0, raw, plan.input_rows, sections) {
            None => Err(EstimateError::Overflow),
            Some(stage) => Ok(
                CompactionSpaceEstimate {
                    plan,
                    input_sections: sections,
                    input_raw_section_bytes: raw,
                    estimated_stage_bytes: stage,
                    estimate_is_hard_bound: false,
                    retained_input_bytes_after_commit: plan.input_bytes,
                    filesystem_available_bytes: available,
                },
            ),
        }
    }

    /// Estimate the merge that a budget selects.
    pub fn estimate_compaction_space(
        &self,
        c: &Container,
        budget: CompactionBudget,
        available: Option<u64>,
    ) -> (r: Result<Option<CompactionSpaceEstimate>, CompactionSpaceError>)
        requires
            engine::store_ok(self@),
        ensures
            ({
                let costs = part_costs(c@.members, self@.manifest.parts);
                match r {
                    Ok(None) => self@.parts.len() < 2 && budget_fault(budget) is None,
                    Ok(Some(e)) => missing_part(
                        c@.members,
                        self@.manifest.parts,
                        self@.manifest.parts.len(),
                    ) is None && is_plan(costs, budget, e.plan) && estimate_of(
                        self@.parts,
                        e.plan,
                        available,
                    ) == Ok::<CompactionSpaceEstimate, EstimateError>(e),
                    Err(CompactionSpaceError::Estimate(e)) => exists|p: CompactionPlan| #[trigger]
                        is_plan(costs, budget, p) && estimate_of(self@.parts, p, available)
                            == Err::<CompactionSpaceEstimate, EstimateError>(e),
                    Err(CompactionSpaceError::Plan(e)) => no_plan(
                        c@.members,
                        self@.manifest.parts,
                        budget,
                        e,
                    ),
                }
            }),
    {
        let plan = match self.plan_compaction(c, budget) {
            Ok(Some(p)) => p,
            Ok(None) => {
                return Ok(None);
            },
            Err(e) => {
                return Err(CompactionSpaceError::Plan(e));
            },
        };
        match self.estimate_plan(plan, available) {
            Ok(e) => Ok(Some(e)),
            Err(e) => Err(CompactionSpaceError::Estimate(e)),
        }
    }

    /// Select a run within a budget and plan its merge.
    pub fn compact_bounded(&self, c: &Container, budget: CompactionBudget) -> (r: Result<
        Option<BoundedCompaction>,
        BoundedError,
    >)
        requires
            engine::store_ok(self@),
        ensures
            ({
                let costs = part_costs(c@.members, self@.manifest.parts);
                if self@.requires_reopen {
                    r == Err::<Option<BoundedCompaction>, BoundedError>(
                        BoundedError::Publish(PublishError::RequiresReopen),
                    )
                } else {
                    match r {
                        Ok(None) => self@.parts.len() < 2 && budget_fault(budget) is None,
                        Ok(Some(b)) => missing_part(
                            c@.members,
                            self@.manifest.parts,
                            self@.manifest.parts.len(),
                        ) is None && is_plan(costs, budget, b.plan) && publish::merge_plan(
                            self@,
                            b.plan.start_part as int,
                            b.plan.input_parts as int,
                        ) == Ok::<PlanView, PublishError>(b.merge@) && publish::plan_sound(
                            b.merge@,
                        ),
                        Err(BoundedError::Publish(e)) => exists|p: CompactionPlan| #[trigger]
                            is_plan(costs, budget, p) && publish::merge_plan(
                                self@,
                                p.start_part as int,
                                p.input_parts as int,
                            ) == Err::<PlanView, PublishError>(e),
                        Err(BoundedError::Plan(e)) => no_plan(
                            c@.members,
                            self@.manifest.parts,
                            budget,
                            e,
                        ),
                    }
                }
            }),
    {
        if self.requires_reopen {
            return Err(BoundedError::Publish(PublishError::RequiresReopen));
        }
        let plan = match self.plan_compaction(c, budget) {
            Ok(Some(p)) => p,
            Ok(None) => {
                return Ok(None);
            },
            Err(e) => {
                return Err(BoundedError::Plan(e));
            },
        };
        proof {
            lemma_plan_mergeable(self@, c@.members, budget, plan);
        }
        match self.plan_merge(plan.start_part, plan.input_parts) {
            Ok(Some(merge)) => Ok(Some(BoundedCompaction { plan, merge })),
            // A plan covers at least two parts.
            Ok(None) => Ok(None),
            Err(e) => Err(BoundedError::Publish(e)),
        }
    }

    /// Plan the merge of the oldest run once parts pile up.
    pub fn maybe_compact(&self, trigger: usize, run: usize) -> (r: Result<
        Option<PartPlan>,
        PublishError,
    >)
        requires
            engine::store_ok(self@),
        ensures
            match tiered_run(self@.parts.len(), trigger as nat, run as nat) {
                None => r == Ok::<Option<PartPlan>, PublishError>(None),
                Some(len) => if self@.requires_reopen {
                    r == Err::<Option<PartPlan>, PublishError>(PublishError::RequiresReopen)
                } else if !publish::mergeable(self@, 0, len as int) {
                    r == Ok::<Option<PartPlan>, PublishError>(None)
                } else {
                    match r {
                        Ok(Some(plan)) => publish::merge_plan(self@, 0, len as int) == Ok::<
                            PlanView,
                            PublishError,
                        >(plan@) && publish::plan_sound(plan@),
                        Ok(None) => false,
                        Err(e) => publish::merge_plan(self@, 0, len as int) == Err::<
                            PlanView,
                            PublishError,
                        >(e),
                    }
                },
            },
    {
        if self.parts.len() < trigger {
            return Ok(None);
        }
        let len: usize = if run < self.parts.len() {
            run
        } else {
            self.parts.len()
        };
        self.plan_merge(0, len)
    }

    /// Plan a total merge once there are enough parts.
    pub fn auto_compact(&self) -> (r: Result<Option<PartPlan>, PublishError>)
        requires
            engine::store_ok(self@),
        ensures
            ({
                let n = self@.parts.len();
                if self@.requires_reopen {
                    r == Err::<Option<PartPlan>, PublishError>(PublishError::RequiresReopen)
                } else if n < AUTO_COMPACT_K {
                    r == Ok::<Option<PartPlan>, PublishError>(None)
                } else {
                    match r {
                        Ok(Some(plan)) => publish::merge_plan(self@, 0, n as int) == Ok::<
                            PlanView,
                            PublishError,
                        >(plan@) && publish::plan_sound(plan@),
                        Ok(None) => false,
                        Err(e) => publish::merge_plan(self@, 0, n as int) == Err::<
                            PlanView,
                            PublishError,
                        >(e),
                    }
                }
            }),
    {
        if self.requires_reopen {
            return Err(PublishError::RequiresReopen);
        }
        if self.parts.len() < AUTO_COMPACT_K {
            return Ok(None);
        }
        self.plan_merge(0, self.parts.len())
    }
}

/// A plan over a store's parts can be merged.
pub proof fn lemma_plan_mergeable(
    s: StoreView,
    ms: Seq<MemberView>,
    budget: CompactionBudget,
    p: CompactionPlan,
)
    requires
        engine::store_ok(s),
        is_plan(part_costs(ms, s.manifest.parts), budget, p),
    ensures
        publish::mergeable(s, p.start_part as int, p.input_parts as int),
        p.drops_tombstones == (p.start_part == 0 && p.input_parts == s.parts.len()),
{
}

// ---------------------------------------------------------------------------------------------
// Distribution.
// ---------------------------------------------------------------------------------------------
/// How large the parts are.
#[derive(Clone, Copy, Debug, PartialEq, Eq, Structural)]
pub struct PartDistribution {
    pub parts: usize,
    pub total_bytes: u64,
    pub min_bytes: u64,
    pub p50_bytes: u64,
    pub p95_bytes: u64,
    pub max_bytes: u64,
    pub total_rows: u64,
    pub min_rows: u64,
    pub p50_rows: u64,
    pub p95_rows: u64,
    pub max_rows: u64,
}

/// Values in ascending order.
pub open spec fn sorted_values(vs: Seq<u64>, n: nat) -> Seq<u64>
    decreases n,
{
    if n == 0 {
        Seq::empty()
    } else {
        chain::inserted(sorted_values(vs, (n - 1) as nat), vs[n - 1])
    }
}

/// The value at a percentile of ascending values, by the nearest rank.
pub open spec fn percentile(sorted: Seq<u64>, percent: nat) -> u64 {
    if sorted.len() == 0 {
        0
    } else {
        let rank = (sorted.len() * percent + 99) / 100;
        let at = if rank == 0 {
            0
        } else {
            rank - 1
        };
        if at >= sorted.len() {
            sorted.last()
        } else {
            sorted[at as int]
        }
    }
}

/// The sum of the first `n` values.
pub open spec fn values_sum(vs: Seq<u64>, n: nat) -> nat
    decreases n,
{
    if n == 0 {
        0
    } else {
        values_sum(vs, (n - 1) as nat) + vs[n - 1] as nat
    }
}

/// The first component of each cost.
pub open spec fn cost_rows(costs: Seq<(u64, u64)>) -> Seq<u64> {
    Seq::new(costs.len(), |i: int| costs[i].0)
}

/// The second component of each cost.
pub open spec fn cost_bytes(costs: Seq<(u64, u64)>) -> Seq<u64> {
    Seq::new(costs.len(), |i: int| costs[i].1)
}

/// What the costs of a store's parts say of their distribution.
pub open spec fn distribution_of(costs: Seq<(u64, u64)>) -> Option<PartDistribution> {
    let n = costs.len();
    let rows = cost_rows(costs);
    let bytes = cost_bytes(costs);
    let sr = sorted_values(rows, n);
    let sb = sorted_values(bytes, n);
    if values_sum(bytes, n) > u64::MAX || values_sum(rows, n) > u64::MAX {
        None
    } else {
        Some(
            PartDistribution {
                parts: n as usize,
                total_bytes: values_sum(bytes, n) as u64,
                min_bytes: if n == 0 {
                    0
                } else {
                    sb[0]
                },
                p50_bytes: percentile(sb, 50),
                p95_bytes: percentile(sb, 95),
                max_bytes: if n == 0 {
                    0
                } else {
                    sb.last()
                },
                total_rows: values_sum(rows, n) as u64,
                min_rows: if n == 0 {
                    0
                } else {
                    sr[0]
                },
                p50_rows: percentile(sr, 50),
                p95_rows: percentile(sr, 95),
                max_rows: if n == 0 {
                    0
                } else {
                    sr.last()
                },
            },
        )
    }
}

/// Sorting gives the same values, in ascending order.
pub proof fn lemma_sorted_values(vs: Seq<u64>, n: nat)
    requires
        n <= vs.len(),
    ensures
        sorted_values(vs, n).len() == n,
        forall|i: int, j: int|
            0 <= i < j < n ==> sorted_values(vs, n)[i] <= sorted_values(vs, n)[j],
        forall|x: u64|
            #[trigger] sorted_values(vs, n).contains(x) <==> exists|i: int|
                0 <= i < n && #[trigger] vs[i] == x,
    decreases n,
{
    if n > 0 {
        lemma_sorted_values(vs, (n - 1) as nat);
        let before = sorted_values(vs, (n - 1) as nat);
        chain::lemma_inserted(before, vs[n - 1]);
        assert forall|x: u64| #[trigger] sorted_values(vs, n).contains(x) <==> exists|i: int|
            0 <= i < n && #[trigger] vs[i] == x by {
            if before.contains(x) {
                let i = choose|i: int| 0 <= i < n - 1 && #[trigger] vs[i] == x;
                assert(vs[i] == x);
            }
            if x == vs[n - 1] {
                assert(vs[n - 1] == x);
            }
            if exists|i: int| 0 <= i < n && #[trigger] vs[i] == x {
                let i = choose|i: int| 0 <= i < n && #[trigger] vs[i] == x;
                if i < n - 1 {
                    assert(before.contains(x));
                }
            }
        }
    }
}

proof fn lemma_values_sum_grows(vs: Seq<u64>, k: nat, n: nat)
    requires
        k <= n,
    ensures
        values_sum(vs, k) <= values_sum(vs, n),
    decreases n,
{
    if k < n {
        lemma_values_sum_grows(vs, k, (n - 1) as nat);
    }
}

/// Rows and bytes of all parts; none where a total does not fit.
pub fn total_costs(costs: &Vec<(u64, u64)>) -> (r: Option<(u64, u64)>)
    ensures
        ({
            let rows = values_sum(cost_rows(costs@), costs@.len());
            let bytes = values_sum(cost_bytes(costs@), costs@.len());
            match r {
                Some((a, b)) => a == rows && b == bytes,
                None => rows > u64::MAX || bytes > u64::MAX,
            }
        }),
{
    let ghost rv = cost_rows(costs@);
    let ghost bv = cost_bytes(costs@);
    let mut rows: u64 = 0;
    let mut bytes: u64 = 0;
    let mut i: usize = 0;
    while i < costs.len()
        invariant
            rv == cost_rows(costs@),
            bv == cost_bytes(costs@),
            i <= costs@.len(),
            rows == values_sum(rv, i as nat),
            bytes == values_sum(bv, i as nat),
        decreases costs.len() - i,
    {
        proof {
            lemma_values_sum_grows(rv, (i + 1) as nat, costs@.len());
            lemma_values_sum_grows(bv, (i + 1) as nat, costs@.len());
        }
        rows =
        match rows.checked_add(costs[i].0) {
            Some(n) => n,
            None => {
                return None;
            },
        };
        bytes =
        match bytes.checked_add(costs[i].1) {
            Some(n) => n,
            None => {
                return None;
            },
        };
        i = i + 1;
    }
    Some((rows, bytes))
}

fn percentile_of(sorted: &Vec<u64>, percent: usize) -> (r: u64)
    requires
        percent <= 100,
    ensures
        r == percentile(sorted@, percent as nat),
{
    if sorted.len() == 0 {
        return 0;
    }
    let n: usize = sorted.len();
    assert(n as nat * percent as nat <= usize::MAX as nat * 100) by (nonlinear_arith)
        requires
            n <= usize::MAX,
            percent <= 100,
    ;
    let wide: u128 = (n as u128 * percent as u128 + 99) / 100;
    assert(wide == (n as nat * percent as nat + 99) / 100);
    let at: u128 = if wide == 0 {
        0
    } else {
        wide - 1
    };
    if at >= n as u128 {
        sorted[n - 1]
    } else {
        sorted[at as usize]
    }
}

/// How a list of costs is distributed; none where a total does not fit.
pub fn distribution(costs: &Vec<(u64, u64)>) -> (r: Option<PartDistribution>)
    ensures
        r == distribution_of(costs@),
{
    let ghost cs = costs@;
    let ghost rv = cost_rows(cs);
    let ghost bv = cost_bytes(cs);
    let mut rows: Vec<u64> = Vec::new();
    let mut bytes: Vec<u64> = Vec::new();
    let mut total_rows: u64 = 0;
    let mut total_bytes: u64 = 0;
    let mut i: usize = 0;
    while i < costs.len()
        invariant
            cs == costs@,
            rv == cost_rows(cs),
            bv == cost_bytes(cs),
            i <= costs@.len(),
            rows@ == sorted_values(rv, i as nat),
            bytes@ == sorted_values(bv, i as nat),
            total_rows == values_sum(rv, i as nat),
            total_bytes == values_sum(bv, i as nat),
        decreases costs.len() - i,
    {
        let cost = costs[i];
        proof {
            lemma_values_sum_grows(rv, (i + 1) as nat, cs.len());
            lemma_values_sum_grows(bv, (i + 1) as nat, cs.len());
        }
        total_bytes =
        match total_bytes.checked_add(cost.1) {
            Some(n) => n,
            None => {
                return None;
            },
        };
        total_rows =
        match total_rows.checked_add(cost.0) {
            Some(n) => n,
            None => {
                return None;
            },
        };
        chain::insert_sorted(&mut rows, cost.0);
        chain::insert_sorted(&mut bytes, cost.1);
        i = i + 1;
    }
    proof {
        lemma_sorted_values(rv, cs.len());
        lemma_sorted_values(bv, cs.len());
    }
    let n: usize = costs.len();
    Some(
        PartDistribution {
            parts: n,
            total_bytes,
            min_bytes: if n == 0 {
                0
            } else {
                bytes[0]
            },
            p50_bytes: percentile_of(&bytes, 50),
            p95_bytes: percentile_of(&bytes, 95),
            max_bytes: if n == 0 {
                0
            } else {
                bytes[n - 1]
            },
            total_rows,
            min_rows: if n == 0 {
                0
            } else {
                rows[0]
            },
            p50_rows: percentile_of(&rows, 50),
            p95_rows: percentile_of(&rows, 95),
            max_rows: if n == 0 {
                0
            } else {
                rows[n - 1]
            },
        },
    )
}

impl Store {
    /// How large the committed parts are.
    pub fn part_distribution(&self, c: &Container) -> (r: Result<PartDistribution, EstimateError>)
        ensures
            ({
                let parts = self@.manifest.parts;
                let ms = c@.members;
                match missing_part(ms, parts, parts.len()) {
                    Some(index) => r == Err::<PartDistribution, EstimateError>(
                        EstimateError::MissingPart { index },
                    ),
                    None => match distribution_of(part_costs(ms, parts)) {
                        Some(d) => r == Ok::<PartDistribution, EstimateError>(d),
                        None => r == Err::<PartDistribution, EstimateError>(
                            EstimateError::Overflow,
                        ),
                    },
                }
            }),
    {
        let costs = match measure_parts(c, &self.manifest) {
            Ok(costs) => costs,
            Err(index) => {
                return Err(EstimateError::MissingPart { index });
            },
        };
        match distribution(&costs) {
            Some(d) => Ok(d),
            None => Err(EstimateError::Overflow),
        }
    }
}

} // verus!
