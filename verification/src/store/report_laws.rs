//! Laws of what a store reports of itself: where its bytes are, how large its parts are, what a
//! merge may take, and what an operation would cost.

use crate::container::MemberView;
use crate::fold;
use crate::part::PartView;
use crate::store::chain;
use crate::store::commit_laws;
use crate::store::compact;
use crate::store::compact::{CompactionBudget, CompactionPlan};
use crate::store::engine::StoreView;
use crate::store::manifest;
use crate::store::manifest::{ManifestView, PartRefView};
use crate::store::names;
use crate::store::namespace;
use crate::store::space;
use crate::store::space::{HostFigures, Reach, StoreSpaceUsage};
use crate::store::sum_laws;
use crate::text;
use vstd::prelude::*;
use vstd::utf8::*;

verus! {

// ---------------------------------------------------------------------------------------------
// Where bytes are.
// ---------------------------------------------------------------------------------------------
/// Whether a manifest holds on to a member: its part, or a member of its fold generation.
pub open spec fn holds_on(m: ManifestView, name: Seq<char>) -> bool {
    ||| exists|j: int| 0 <= j < m.parts.len() && (#[trigger] m.parts[j]).member == name
    ||| names::fold_generation(encode_utf8(name)) == Some(m.fold_gen)
}

/// Whether a member is the current manifest, or current authority holds on to it.
pub open spec fn is_live(live: ManifestView, name: Seq<char>) -> bool {
    name == "MANIFEST"@ || holds_on(live, name)
}

/// Whether a member is a retained revision, or one of them holds on to it.
pub open spec fn is_retained(ms: Seq<MemberView>, name: Seq<char>) -> bool {
    exists|c: u64| #[trigger]
        chain::retained_commits(ms).contains(c) && (name == text::chars(names::retained_name(c))
            || holds_on(chain::revision(ms, c)->Ok_0.1, name))
}

proof fn lemma_reach(ms: Seq<MemberView>, live: ManifestView, name: Seq<char>)
    ensures
        space::reach(ms, live, name) == Reach::Live <==> is_live(live, name),
        space::reach(ms, live, name) == Reach::RetainedOnly <==> !is_live(live, name)
            && is_retained(ms, name),
        space::reach(ms, live, name) == Reach::Unclassified <==> !is_live(live, name)
            && !is_retained(ms, name),
{
    let commits = chain::retained_commits(ms);
    let n = commits.len() as int;
    assert(space::live_reach(live, name) <==> is_live(live, name));
    assert(space::retained_reach(ms, name) <==> is_retained(ms, name)) by {
        if is_retained(ms, name) {
            let c = choose|c: u64| #[trigger]
                commits.contains(c) && (name == text::chars(names::retained_name(c)) || holds_on(
                    chain::revision(ms, c)->Ok_0.1,
                    name,
                ));
            let k = choose|k: int| 0 <= k < n && commits[k] == c;
            if name == text::chars(names::retained_name(c)) {
                assert(text::chars(names::retained_name(commits[k])) == name);
            } else if namespace::names_part(chain::revision(ms, c)->Ok_0.1, name) {
                assert(namespace::names_part(chain::revision(ms, commits[k])->Ok_0.1, name));
                assert(chain::named_before(ms, commits, n, name));
            } else {
                let g = names::fold_generation(encode_utf8(name))->0;
                assert(chain::revision(ms, commits[k])->Ok_0.1.fold_gen == g);
                assert(crate::store::commit::generation_before(ms, commits, n, g));
            }
        }
        if space::retained_reach(ms, name) {
            if exists|k: int|
                0 <= k < n && text::chars(names::retained_name(#[trigger] commits[k])) == name {
                let k = choose|k: int|
                    0 <= k < n && text::chars(names::retained_name(#[trigger] commits[k])) == name;
                assert(commits.contains(commits[k]));
            } else if chain::named_before(ms, commits, n, name) {
                let k = choose|k: int|
                    0 <= k < n && namespace::names_part(
                        chain::revision(ms, #[trigger] commits[k])->Ok_0.1,
                        name,
                    );
                assert(commits.contains(commits[k]));
            } else {
                let g = names::fold_generation(encode_utf8(name))->0;
                let k = choose|k: int|
                    0 <= k < n && chain::revision(ms, #[trigger] commits[k])->Ok_0.1.fold_gen == g;
                assert(commits.contains(commits[k]));
            }
        }
    }
}

/// What a member counts for, where it counts.
pub open spec fn bytes_if(counts: bool, m: MemberView) -> nat {
    if counts {
        m.bytes.len()
    } else {
        0
    }
}

proof fn lemma_class(ms: Seq<MemberView>, live: ManifestView, n: nat)
    requires
        n <= ms.len(),
    ensures
        space::class_members(ms, live, Reach::Live, n) == sum_laws::count(
            n,
            |i: int| is_live(live, ms[i].name),
        ),
        space::class_members(ms, live, Reach::RetainedOnly, n) == sum_laws::count(
            n,
            |i: int| !is_live(live, ms[i].name) && is_retained(ms, ms[i].name),
        ),
        space::class_members(ms, live, Reach::Live, n) + space::class_members(
            ms,
            live,
            Reach::RetainedOnly,
            n,
        ) + space::class_members(ms, live, Reach::Unclassified, n) == n,
        space::class_bytes(ms, live, Reach::Live, n) == sum_laws::sum(
            n,
            |i: int| bytes_if(is_live(live, ms[i].name), ms[i]),
        ),
        space::class_bytes(ms, live, Reach::RetainedOnly, n) == sum_laws::sum(
            n,
            |i: int|
                bytes_if(!is_live(live, ms[i].name) && is_retained(ms, ms[i].name), ms[i]),
        ),
        space::class_bytes(ms, live, Reach::Live, n) + space::class_bytes(
            ms,
            live,
            Reach::RetainedOnly,
            n,
        ) + space::class_bytes(ms, live, Reach::Unclassified, n) == sum_laws::sum(
            n,
            |i: int| ms[i].bytes.len(),
        ),
    decreases n,
{
    let a = |i: int| is_live(live, ms[i].name);
    let b = |i: int| !is_live(live, ms[i].name) && is_retained(ms, ms[i].name);
    let x = |i: int| bytes_if(is_live(live, ms[i].name), ms[i]);
    let y = |i: int|
        bytes_if(!is_live(live, ms[i].name) && is_retained(ms, ms[i].name), ms[i]);
    let z = |i: int| ms[i].bytes.len();
    let m = (n - 1) as nat;
    sum_laws::lemma_count(m, a);
    sum_laws::lemma_count(m, b);
    sum_laws::lemma_sum(m, x);
    sum_laws::lemma_sum(m, y);
    sum_laws::lemma_sum(m, z);
    if n > 0 {
        lemma_class(ms, live, m);
        lemma_reach(ms, live, ms[n - 1].name);
    }
}

/// An inventory counts every member in one class: what current authority holds on to, with the log
/// beside the store; what only a retained revision holds on to; and the rest, with the free extents.
/// The total is every member and the log, and all their bytes with the free ones.
pub proof fn lemma_usage(
    ms: Seq<MemberView>,
    live: ManifestView,
    log: Option<u64>,
    free: u64,
    available: Option<u64>,
)
    ensures
        ({
            let r = space::usage_of(ms, live, log, free, available);
            let n = ms.len();
            let (few, many) = (usize::MAX as nat, u64::MAX as nat);
            let logs: nat = if log is Some {
                1
            } else {
                0
            };
            let logged: nat = if log is Some {
                log->0 as nat
            } else {
                0
            };
            let ln = sum_laws::count(n, |i: int| is_live(live, ms[i].name));
            let rn = sum_laws::count(
                n,
                |i: int| !is_live(live, ms[i].name) && is_retained(ms, ms[i].name),
            );
            let lb = sum_laws::sum(n, |i: int| bytes_if(is_live(live, ms[i].name), ms[i]));
            let rb = sum_laws::sum(
                n,
                |i: int|
                    bytes_if(!is_live(live, ms[i].name) && is_retained(ms, ms[i].name), ms[i]),
            );
            let all = sum_laws::sum(n, |i: int| ms[i].bytes.len());
            &&& r.live.members == sum_laws::held_at(ln + logs, few)
            &&& r.live.logical_bytes == sum_laws::held_at(lb + logged, many)
            &&& r.retained_only.members == sum_laws::held_at(rn, few)
            &&& r.retained_only.logical_bytes == sum_laws::held_at(rb, many)
            &&& r.unclassified.members == sum_laws::held_at((n - ln - rn) as nat, few)
            &&& r.unclassified.logical_bytes == sum_laws::held_at(
                (all - lb - rb + free) as nat,
                many,
            )
            &&& r.total.members == sum_laws::held_at(n + logs, few)
            &&& r.total.logical_bytes == sum_laws::held_at(all + logged + free as nat, many)
            &&& r.filesystem_available_bytes == available
            &&& r.live.allocated_bytes is None
            &&& r.retained_only.allocated_bytes is None
            &&& r.unclassified.allocated_bytes is None
            &&& r.total.allocated_bytes is None
        }),
{
    lemma_class(ms, live, ms.len());
}

// ---------------------------------------------------------------------------------------------
// Health.
// ---------------------------------------------------------------------------------------------
proof fn lemma_named_rows(parts: Seq<PartRefView>, n: nat)
    requires
        n <= parts.len(),
    ensures
        space::named_rows(parts, n) == sum_laws::sum(n, |i: int| parts[i].records as nat),
    decreases n,
{
    let m = (n - 1) as nat;
    sum_laws::lemma_sum(m, |i: int| parts[i].records as nat);
    if n > 0 {
        lemma_named_rows(parts, m);
    }
}

/// Blocks below a bound that some of the first `n` ranges hold.
proof fn lemma_blocks_in(ranges: Seq<(u32, u32)>, n: nat, most: nat)
    requires
        manifest::ranges_ok(ranges),
        n <= ranges.len(),
        n > 0 ==> most == ranges[n - 1].1 + 1,
        n == 0 ==> most == 0,
    ensures
        space::blocks_in(ranges, n) == sum_laws::count(
            most,
            |b: int| fold::in_ranges(ranges.take(n as int), b as u32),
        ),
    decreases n,
{
    let held = |b: int| fold::in_ranges(ranges.take(n as int), b as u32);
    if n > 0 {
        let m = (n - 1) as nat;
        let before: nat = if m > 0 {
            (ranges[m - 1].1 + 1) as nat
        } else {
            0
        };
        lemma_blocks_in(ranges, m, before);
        let held_before = |b: int| fold::in_ranges(ranges.take(m as int), b as u32);
        let (lo, hi) = ranges[n - 1];
        let now = ranges.take(n as int);
        let earlier = ranges.take(m as int);
        assert(ranges[n - 1].0 <= ranges[n - 1].1);
        if m > 0 {
            assert(ranges[m - 1].1 < ranges[n - 1].0);
        }
        assert forall|b: int| 0 <= b < most implies (#[trigger] held(b) <==> (b < before
            && held_before(b)) || lo <= b) by {
            if b < before && held_before(b) {
                let k = choose|k: int|
                    0 <= k < earlier.len() && (#[trigger] earlier[k]).0 <= b as u32 <= earlier[k].1;
                assert(now[k].0 <= b as u32 <= now[k].1);
            }
            if lo <= b {
                assert(now[n - 1].0 <= b as u32 <= now[n - 1].1);
            }
            if held(b) {
                let k = choose|k: int|
                    0 <= k < now.len() && (#[trigger] now[k]).0 <= b as u32 <= now[k].1;
                if k < m {
                    assert(earlier[k].0 <= b as u32 <= earlier[k].1);
                    if k < m - 1 {
                        assert(ranges[k].1 < ranges[m - 1].0);
                        assert(ranges[m - 1].0 <= ranges[m - 1].1);
                    }
                }
            }
        }
        lemma_count_split(most, before, lo as nat, held, held_before);
    } else {
        sum_laws::lemma_count(0, held);
    }
}

proof fn lemma_count_split(
    n: nat,
    a: nat,
    lo: nat,
    held: spec_fn(int) -> bool,
    before: spec_fn(int) -> bool,
)
    requires
        a <= lo <= n,
        forall|b: int| 0 <= b < n ==> (#[trigger] held(b) <==> (b < a && before(b)) || lo <= b),
    ensures
        sum_laws::count(n, held) == sum_laws::count(a, before) + (n - lo),
    decreases n,
{
    if n > lo {
        let m = (n - 1) as nat;
        sum_laws::lemma_count(m, held);
        assert(held(n - 1));
        lemma_count_split(m, a, lo, held, before);
    } else if n > a {
        let m = (n - 1) as nat;
        sum_laws::lemma_count(m, held);
        assert(held(n - 1) <==> false);
        lemma_count_split(m, a, m, held, before);
    } else {
        assert forall|b: int| 0 <= b < n implies #[trigger] held(b) == before(b) by {}
        sum_laws::lemma_count_same(n, held, before);
    }
}

/// What a store says of itself: its revision and generation, its parts and their rows, what is
/// staged and logged, and how many blocks its ranges give up, each block once.
pub proof fn lemma_health(s: StoreView, h: HostFigures)
    requires
        manifest::ranges_ok(s.manifest.punched),
        s.parts.len() <= usize::MAX,
        s.mem.len() <= usize::MAX,
    ensures
        ({
            let r = space::health_of(s, h);
            let parts = s.manifest.parts;
            &&& r.commit == s.manifest.commit
            &&& r.fold_generation == s.manifest.fold_gen
            &&& r.parts == s.parts.len()
            &&& r.memtable_entries == s.mem.len()
            &&& r.memtable_bytes == s.mem_bytes
            &&& r.retained_commits == s.retained_commit_count
            &&& s.wal.written() + s.wal.buffered().len() <= u64::MAX ==> r.wal_bytes
                == s.wal.written() + s.wal.buffered().len()
            &&& s.wal.frames() <= u64::MAX ==> r.wal_frames == s.wal.frames()
            &&& r.fold_block_target_bytes == s.writer.target
            &&& s.writer.window.len() <= usize::MAX ==> r.dedup_window_entries
                == s.writer.window.len()
            &&& r.max_stored_frame_bytes == s.read_limits.max_stored_frame_bytes
            &&& r.max_decoded_frame_bytes == s.read_limits.max_decoded_frame_bytes
            &&& r.max_directory_entries == s.read_limits.max_directory_entries
            &&& r.max_wal_frames == s.read_limits.max_wal_frames
            &&& r.max_fold_blocks == s.read_limits.max_fold_blocks
            &&& r.fold_disk_bytes == h.fold_disk_bytes && r.fold_segments == h.fold_segments
            &&& r.fold_cache_hits == h.fold_cache_hits && r.fold_cache_misses
                == h.fold_cache_misses
            &&& r.fold_cache_bytes == h.fold_cache_bytes && r.fold_cache_budget
                == h.fold_cache_budget
            &&& r.part_cache_bytes == h.part_cache_bytes && r.part_cache_budget
                == h.part_cache_budget
            &&& r.part_rows == sum_laws::held_at(
                sum_laws::sum(parts.len(), |i: int| parts[i].records as nat),
                u64::MAX as nat,
            )
            &&& r.punched_blocks == sum_laws::count(
                0x1_0000_0000,
                |b: int| fold::in_ranges(s.manifest.punched, b as u32),
            )
        }),
{
    let parts = s.manifest.parts;
    let ranges = s.manifest.punched;
    lemma_named_rows(parts, parts.len());
    let n = ranges.len();
    let most: nat = if n > 0 {
        (ranges[n - 1].1 + 1) as nat
    } else {
        0
    };
    lemma_blocks_in(ranges, n, most);
    assert(ranges.take(n as int) =~= ranges);
    let held = |b: int| fold::in_ranges(ranges, b as u32);
    lemma_none_beyond(ranges, most, 0x1_0000_0000);
    sum_laws::lemma_count(most, held);
}

proof fn lemma_none_beyond(ranges: Seq<(u32, u32)>, most: nat, n: nat)
    requires
        manifest::ranges_ok(ranges),
        ranges.len() > 0 ==> most == ranges.last().1 + 1,
        ranges.len() == 0 ==> most == 0,
        most <= n <= 0x1_0000_0000,
    ensures
        sum_laws::count(n, |b: int| fold::in_ranges(ranges, b as u32)) == sum_laws::count(
            most,
            |b: int| fold::in_ranges(ranges, b as u32),
        ),
    decreases n,
{
    let held = |b: int| fold::in_ranges(ranges, b as u32);
    if n > most {
        let m = (n - 1) as nat;
        sum_laws::lemma_count(m, held);
        assert(!held(n - 1)) by {
            if held(n - 1) {
                let k = choose|k: int|
                    0 <= k < ranges.len() && (#[trigger] ranges[k]).0 <= (n - 1) as u32
                        <= ranges[k].1;
                if k < ranges.len() - 1 {
                    assert(ranges[k].1 < ranges[ranges.len() - 1].0);
                    assert(ranges[ranges.len() - 1].0 <= ranges[ranges.len() - 1].1);
                }
            }
        }
        lemma_none_beyond(ranges, most, m);
    }
}

// ---------------------------------------------------------------------------------------------
// Merges.
// ---------------------------------------------------------------------------------------------
proof fn lemma_run_sums(costs: Seq<(u64, u64)>, start: int, k: nat)
    ensures
        compact::rows_sum(costs, start, k) == sum_laws::sum(
            k,
            |i: int| costs[start + i].0 as nat,
        ),
        compact::bytes_sum(costs, start, k) == sum_laws::sum(
            k,
            |i: int| costs[start + i].1 as nat,
        ),
    decreases k,
{
    let m = (k - 1) as nat;
    sum_laws::lemma_sum(m, |i: int| costs[start + i].0 as nat);
    sum_laws::lemma_sum(m, |i: int| costs[start + i].1 as nat);
    if k > 0 {
        lemma_run_sums(costs, start, m);
    }
}

/// Whether `k` parts from `start` on may be merged under a budget: they are two at least, they are
/// there, and neither their number, their rows nor their bytes are more than the budget allows.
pub open spec fn allowed(
    costs: Seq<(u64, u64)>,
    start: int,
    k: nat,
    b: CompactionBudget,
) -> bool {
    let most = u64::MAX as nat;
    &&& 0 <= start
    &&& start + k <= costs.len()
    &&& 2 <= k
    &&& k <= b.max_input_parts
    &&& sum_laws::held_at(sum_laws::sum(k, |i: int| costs[start + i].0 as nat), most)
        <= b.max_input_rows
    &&& sum_laws::held_at(sum_laws::sum(k, |i: int| costs[start + i].1 as nat), most)
        <= b.max_input_bytes
}

proof fn lemma_allowed(costs: Seq<(u64, u64)>, start: int, k: nat, b: CompactionBudget)
    ensures
        compact::eligible(costs, start, k, b) <==> allowed(costs, start, k, b),
{
    lemma_run_sums(costs, start, k);
}

/// What a plan is: a run that the budget allows, with its rows and bytes; no wider run is allowed,
/// and no older one as wide. Deletions are dropped only where every part is in it.
pub proof fn lemma_plan(costs: Seq<(u64, u64)>, b: CompactionBudget, p: CompactionPlan)
    requires
        compact::is_plan(costs, b, p),
    ensures
        ({
            let (start, k) = (p.start_part as int, p.input_parts as nat);
            let most = u64::MAX as nat;
            &&& allowed(costs, start, k, b)
            &&& p.input_rows == sum_laws::held_at(
                sum_laws::sum(k, |i: int| costs[start + i].0 as nat),
                most,
            )
            &&& p.input_bytes == sum_laws::held_at(
                sum_laws::sum(k, |i: int| costs[start + i].1 as nat),
                most,
            )
            &&& p.drops_tombstones <==> start == 0 && k == costs.len()
            &&& forall|other: int, j: nat| #[trigger]
                allowed(costs, other, j, b) ==> j < k || (j == k && other >= start)
        }),
{
    lemma_run_sums(costs, p.start_part as int, p.input_parts as nat);
    lemma_allowed(costs, p.start_part as int, p.input_parts as nat, b);
    assert forall|other: int, j: nat| #[trigger] allowed(costs, other, j, b) implies j
        < p.input_parts || (j == p.input_parts && other >= p.start_part) by {
        lemma_allowed(costs, other, j, b);
    }
}

/// A budget is refused as too small only where it allows no run, and what is named is the adjacent
/// pair that needs the fewest bytes; of those the one with the fewest rows, and of those the oldest.
pub proof fn lemma_too_small(
    costs: Seq<(u64, u64)>,
    b: CompactionBudget,
    f: compact::CompactionFault,
)
    requires
        compact::too_small(costs, b, f),
    ensures
        forall|start: int, k: nat| !#[trigger] allowed(costs, start, k, b),
        f matches compact::CompactionFault::BudgetTooSmall {
            start_part,
            input_rows,
            input_bytes,
            budget,
        } && {
            let most = u64::MAX as nat;
            let s = start_part as int;
            &&& budget == b
            &&& s + 2 <= costs.len()
            &&& input_rows == sum_laws::held_at((costs[s].0 + costs[s + 1].0) as nat, most)
            &&& input_bytes == sum_laws::held_at((costs[s].1 + costs[s + 1].1) as nat, most)
            &&& forall|i: int|
                0 <= i && i + 2 <= costs.len() ==> {
                    let bytes = sum_laws::held_at(
                        (#[trigger] costs[i].1 + costs[i + 1].1) as nat,
                        most,
                    );
                    let rows = sum_laws::held_at((costs[i].0 + costs[i + 1].0) as nat, most);
                    input_bytes < bytes || (input_bytes == bytes && (input_rows < rows || (
                    input_rows == rows && s <= i)))
                }
        },
{
    assert forall|start: int, k: nat| !#[trigger] allowed(costs, start, k, b) by {
        lemma_allowed(costs, start, k, b);
    }
    reveal_with_fuel(compact::rows_sum, 3);
    reveal_with_fuel(compact::bytes_sum, 3);
    let s = f->BudgetTooSmall_start_part as int;
    assert forall|i: int| 0 <= i && i + 2 <= costs.len() implies {
        let most = u64::MAX as nat;
        let bytes = sum_laws::held_at((#[trigger] costs[i].1 + costs[i + 1].1) as nat, most);
        let rows = sum_laws::held_at((costs[i].0 + costs[i + 1].0) as nat, most);
        f->BudgetTooSmall_input_bytes < bytes || (f->BudgetTooSmall_input_bytes == bytes && (
        f->BudgetTooSmall_input_rows < rows || (f->BudgetTooSmall_input_rows == rows && s <= i)))
    } by {
        assert(compact::pair_before(costs, s, i));
    }
}

/// Size-tiered compaction waits until there are as many parts as its trigger, and then takes the
/// oldest ones: as many as its run, or all of them where there are fewer.
pub proof fn lemma_tiered(parts: nat, trigger: nat, run: nat)
    ensures
        compact::tiered_run(parts, trigger, run) is Some <==> parts >= trigger,
        compact::tiered_run(parts, trigger, run) matches Some(k) ==> k <= run && k <= parts && (k
            == run || k == parts),
{
}

// ---------------------------------------------------------------------------------------------
// How large parts are.
// ---------------------------------------------------------------------------------------------
proof fn lemma_values_sum(vs: Seq<u64>, n: nat)
    requires
        n <= vs.len(),
    ensures
        compact::values_sum(vs, n) == sum_laws::sum(n, |i: int| vs[i] as nat),
    decreases n,
{
    let m = (n - 1) as nat;
    sum_laws::lemma_sum(m, |i: int| vs[i] as nat);
    if n > 0 {
        lemma_values_sum(vs, m);
    }
}

/// How many of the first `n` values are at most a value.
pub open spec fn at_most(vs: Seq<u64>, n: nat, v: u64) -> nat {
    sum_laws::count(n, |i: int| vs[i] <= v)
}

/// How many of the first `n` values are below a value.
pub open spec fn below(vs: Seq<u64>, n: nat, v: u64) -> nat {
    sum_laws::count(n, |i: int| vs[i] < v)
}

proof fn lemma_push_counts(vs: Seq<u64>, x: u64, v: u64)
    ensures
        at_most(vs.push(x), vs.len() + 1, v) == at_most(vs, vs.len(), v) + if x <= v {
            1nat
        } else {
            0
        },
        below(vs.push(x), vs.len() + 1, v) == below(vs, vs.len(), v) + if x < v {
            1nat
        } else {
            0
        },
{
    let more = vs.push(x);
    let n = vs.len();
    sum_laws::lemma_count(n, |i: int| more[i] <= v);
    sum_laws::lemma_count(n, |i: int| more[i] < v);
    sum_laws::lemma_count_same(n, |i: int| more[i] <= v, |i: int| vs[i] <= v);
    sum_laws::lemma_count_same(n, |i: int| more[i] < v, |i: int| vs[i] < v);
}

proof fn lemma_inserted_counts(s: Seq<u64>, x: u64, v: u64)
    ensures
        ({
            let r = chain::inserted(s, x);
            &&& r.len() == s.len() + 1
            &&& at_most(r, r.len(), v) == at_most(s, s.len(), v) + if x <= v {
                1nat
            } else {
                0
            }
            &&& below(r, r.len(), v) == below(s, s.len(), v) + if x < v {
                1nat
            } else {
                0
            }
        }),
    decreases s.len(),
{
    if s.len() == 0 || s.last() <= x {
        lemma_push_counts(s, x, v);
    } else {
        let front = s.drop_last();
        lemma_inserted_counts(front, x, v);
        lemma_push_counts(chain::inserted(front, x), s.last(), v);
        lemma_push_counts(front, s.last(), v);
        assert(front.push(s.last()) =~= s);
    }
}

proof fn lemma_sorted_counts(vs: Seq<u64>, n: nat, v: u64)
    requires
        n <= vs.len(),
    ensures
        ({
            let r = compact::sorted_values(vs, n);
            &&& r.len() == n
            &&& at_most(r, n, v) == at_most(vs, n, v)
            &&& below(r, n, v) == below(vs, n, v)
        }),
    decreases n,
{
    if n > 0 {
        let m = (n - 1) as nat;
        lemma_sorted_counts(vs, m, v);
        lemma_inserted_counts(compact::sorted_values(vs, m), vs[n - 1], v);
        sum_laws::lemma_count(m, |i: int| vs[i] <= v);
        sum_laws::lemma_count(m, |i: int| vs[i] < v);
    } else {
        let r = compact::sorted_values(vs, n);
        sum_laws::lemma_count(0, |i: int| vs[i] <= v);
        sum_laws::lemma_count(0, |i: int| vs[i] < v);
        sum_laws::lemma_count(0, |i: int| r[i] <= v);
        sum_laws::lemma_count(0, |i: int| r[i] < v);
    }
}

/// In ascending values, those up to a place are at most the one there, and only earlier ones are
/// below it.
proof fn lemma_place(s: Seq<u64>, at: int, n: nat)
    requires
        0 <= at < s.len(),
        n <= s.len(),
        forall|i: int, j: int| 0 <= i < j < s.len() ==> s[i] <= s[j],
    ensures
        at_most(s, n, s[at]) >= if n <= at + 1 {
            n as int
        } else {
            at + 1
        },
        below(s, n, s[at]) <= at,
        below(s, n, s[at]) <= n,
    decreases n,
{
    let v = s[at];
    let m = (n - 1) as nat;
    sum_laws::lemma_count(m, |i: int| s[i] <= v);
    sum_laws::lemma_count(m, |i: int| s[i] < v);
    if n > 0 {
        lemma_place(s, at, m);
        if n - 1 < at {
            assert(s[n - 1] <= s[at]);
        } else if at < n - 1 {
            assert(s[at] <= s[n - 1]);
        }
    } else {
        sum_laws::lemma_count(0, |i: int| s[i] <= v);
        sum_laws::lemma_count(0, |i: int| s[i] < v);
    }
}

/// Whether a value is at a percentile, by the nearest rank: it is one of the values, at least that
/// share of them is at most it, and a smaller share is below it.
pub open spec fn at_percentile(vs: Seq<u64>, percent: nat, v: u64) -> bool {
    let n = vs.len();
    &&& vs.contains(v)
    &&& at_most(vs, n, v) * 100 >= percent * n
    &&& below(vs, n, v) * 100 < percent * n
}

proof fn lemma_percentile(vs: Seq<u64>, percent: nat)
    requires
        vs.len() > 0,
        1 <= percent <= 100,
    ensures
        at_percentile(
            vs,
            percent,
            compact::percentile(compact::sorted_values(vs, vs.len()), percent),
        ),
{
    let n = vs.len();
    let s = compact::sorted_values(vs, n);
    compact::lemma_sorted_values(vs, n);
    let rank = (n * percent + 99) / 100;
    assert(n * percent >= 1) by (nonlinear_arith)
        requires
            n >= 1,
            percent >= 1,
    ;
    assert(n * percent <= n * 100) by (nonlinear_arith)
        requires
            percent <= 100,
    ;
    assert(1 <= rank <= n);
    let at = rank - 1;
    let v = s[at];
    assert(compact::percentile(s, percent) == v);
    lemma_place(s, at, n);
    lemma_sorted_counts(vs, n, v);
    assert(s.contains(v));
    let i = choose|i: int| 0 <= i < n && #[trigger] vs[i] == v;
    assert(vs.contains(v));
    assert(rank * 100 >= n * percent);
    assert((rank - 1) * 100 < n * percent);
    assert(percent * n == n * percent) by (nonlinear_arith);
}

/// Whether a value is one of the values and none is smaller.
pub open spec fn is_least(vs: Seq<u64>, v: u64) -> bool {
    vs.contains(v) && forall|i: int| 0 <= i < vs.len() ==> v <= #[trigger] vs[i]
}

/// Whether a value is one of the values and none is larger.
pub open spec fn is_greatest(vs: Seq<u64>, v: u64) -> bool {
    vs.contains(v) && forall|i: int| 0 <= i < vs.len() ==> #[trigger] vs[i] <= v
}

proof fn lemma_ends(vs: Seq<u64>)
    requires
        vs.len() > 0,
    ensures
        is_least(vs, compact::sorted_values(vs, vs.len())[0]),
        is_greatest(vs, compact::sorted_values(vs, vs.len()).last()),
{
    let n = vs.len();
    let s = compact::sorted_values(vs, n);
    compact::lemma_sorted_values(vs, n);
    assert(s.contains(s[0]) && s.contains(s[n - 1]));
    let a = choose|i: int| 0 <= i < n && #[trigger] vs[i] == s[0];
    let b = choose|i: int| 0 <= i < n && #[trigger] vs[i] == s[n - 1];
    assert(vs.contains(s[0]) && vs.contains(s[n - 1]));
    assert forall|i: int| 0 <= i < n implies s[0] <= #[trigger] vs[i] && vs[i] <= s[n - 1] by {
        assert(s.contains(vs[i]));
        let j = choose|j: int| 0 <= j < n && s[j] == vs[i];
        if j > 0 {
            assert(s[0] <= s[j]);
        }
        if j < n - 1 {
            assert(s[j] <= s[n - 1]);
        }
    }
}

/// What is said of the sizes of parts: how many there are, their rows and bytes in all, the least
/// and the greatest of each, and the values at the fiftieth and the ninety-fifth percentile.
pub proof fn lemma_distribution(costs: Seq<(u64, u64)>)
    requires
        compact::distribution_of(costs) is Some,
        costs.len() <= usize::MAX,
    ensures
        ({
            let r = compact::distribution_of(costs)->0;
            let rows = Seq::new(costs.len(), |i: int| costs[i].0);
            let bytes = Seq::new(costs.len(), |i: int| costs[i].1);
            &&& r.parts == costs.len()
            &&& r.total_rows == sum_laws::sum(costs.len(), |i: int| costs[i].0 as nat)
            &&& r.total_bytes == sum_laws::sum(costs.len(), |i: int| costs[i].1 as nat)
            &&& costs.len() > 0 ==> {
                &&& is_least(rows, r.min_rows) && is_greatest(rows, r.max_rows)
                &&& is_least(bytes, r.min_bytes) && is_greatest(bytes, r.max_bytes)
                &&& at_percentile(rows, 50, r.p50_rows) && at_percentile(rows, 95, r.p95_rows)
                &&& at_percentile(bytes, 50, r.p50_bytes) && at_percentile(bytes, 95, r.p95_bytes)
            }
            &&& costs.len() == 0 ==> {
                &&& r.min_rows == 0 && r.p50_rows == 0 && r.p95_rows == 0 && r.max_rows == 0
                &&& r.min_bytes == 0 && r.p50_bytes == 0 && r.p95_bytes == 0 && r.max_bytes == 0
            }
        }),
{
    let n = costs.len();
    let rows = compact::cost_rows(costs);
    let bytes = compact::cost_bytes(costs);
    lemma_values_sum(rows, n);
    lemma_values_sum(bytes, n);
    sum_laws::lemma_sum_same(n, |i: int| rows[i] as nat, |i: int| costs[i].0 as nat);
    sum_laws::lemma_sum_same(n, |i: int| bytes[i] as nat, |i: int| costs[i].1 as nat);
    assert(rows =~= Seq::new(n, |i: int| costs[i].0));
    assert(bytes =~= Seq::new(n, |i: int| costs[i].1));
    compact::lemma_sorted_values(rows, n);
    compact::lemma_sorted_values(bytes, n);
    if n > 0 {
        lemma_ends(rows);
        lemma_ends(bytes);
        lemma_percentile(rows, 50);
        lemma_percentile(rows, 95);
        lemma_percentile(bytes, 50);
        lemma_percentile(bytes, 95);
    }
}

/// A part costs the rows its reference counts and the bytes that the container holds for it.
pub proof fn lemma_part_cost(ms: Seq<MemberView>, parts: Seq<PartRefView>, i: int)
    requires
        0 <= i < parts.len(),
        commit_laws::held(ms, parts[i].member) is Some,
        (commit_laws::held(ms, parts[i].member)->0).bytes.len() <= u64::MAX,
    ensures
        compact::part_costs(ms, parts).len() == parts.len(),
        compact::part_costs(ms, parts)[i].0 == parts[i].records,
        compact::part_costs(ms, parts)[i].1 == (commit_laws::held(
            ms,
            parts[i].member,
        )->0).bytes.len(),
{
}

/// A part is reported missing exactly where the container does not hold it, and no earlier one is
/// missing.
pub proof fn lemma_missing(ms: Seq<MemberView>, parts: Seq<PartRefView>, n: nat)
    requires
        n <= parts.len() <= usize::MAX,
    ensures
        match compact::missing_part(ms, parts, n) {
            None => forall|i: int|
                0 <= i < n ==> commit_laws::held(ms, (#[trigger] parts[i]).member) is Some,
            Some(k) => {
                &&& k < n
                &&& commit_laws::held(ms, parts[k as int].member) is None
                &&& forall|i: int|
                    0 <= i < k ==> commit_laws::held(ms, (#[trigger] parts[i]).member) is Some
            },
        },
    decreases n,
{
    if n > 0 {
        lemma_missing(ms, parts, (n - 1) as nat);
    }
}

// ---------------------------------------------------------------------------------------------
// Estimates.
// ---------------------------------------------------------------------------------------------
proof fn lemma_section_sums(parts: Seq<PartView>, lo: int, k: nat)
    ensures
        compact::section_count(parts, lo, lo + k) == sum_laws::sum(
            k,
            |i: int| parts[lo + i].sections as nat,
        ),
        compact::section_bytes(parts, lo, lo + k) == sum_laws::sum(
            k,
            |i: int| parts[lo + i].section_bytes as nat,
        ),
    decreases k,
{
    let m = (k - 1) as nat;
    sum_laws::lemma_sum(m, |i: int| parts[lo + i].sections as nat);
    sum_laws::lemma_sum(m, |i: int| parts[lo + i].section_bytes as nat);
    if k > 0 {
        lemma_section_sums(parts, lo, m);
    }
}

/// What a merge is estimated to need: what its inputs' sections hold, with 64 bytes for each row, 256
/// for each section and one mebibyte besides. It is no bound, and the inputs stay on disk.
pub proof fn lemma_estimate(parts: Seq<PartView>, p: CompactionPlan, available: Option<u64>)
    ensures
        ({
            let (lo, k) = (p.start_part as int, p.input_parts as nat);
            let sections = sum_laws::sum(k, |i: int| parts[lo + i].sections as nat);
            let raw = sum_laws::sum(k, |i: int| parts[lo + i].section_bytes as nat);
            let stage = raw + p.input_rows * 64 + sections * 256 + 1024 * 1024;
            match compact::estimate_of(parts, p, available) {
                Ok(r) => {
                    &&& r.plan == p
                    &&& r.input_sections == sections
                    &&& r.input_raw_section_bytes == raw
                    &&& r.estimated_stage_bytes == stage
                    &&& !r.estimate_is_hard_bound
                    &&& r.retained_input_bytes_after_commit == p.input_bytes
                    &&& r.filesystem_available_bytes == available
                },
                Err(_) => sections > usize::MAX || stage > u64::MAX,
            }
        }),
{
    lemma_section_sums(parts, p.start_part as int, p.input_parts as nat);
}

/// What a refold is estimated to need: the fold's bytes and what every part's sections hold, with
/// the same allowances.
pub proof fn lemma_refold_estimate(
    s: StoreView,
    ms: Seq<MemberView>,
    fold_bytes: u64,
    usage: StoreSpaceUsage,
)
    requires
        space::refold_estimate_of(s, ms, fold_bytes, usage) is Ok,
    ensures
        ({
            let r = space::refold_estimate_of(s, ms, fold_bytes, usage)->Ok_0;
            let costs = compact::part_costs(ms, s.manifest.parts);
            let n = s.parts.len();
            let rows = sum_laws::sum(costs.len(), |i: int| costs[i].0 as nat);
            let sections = sum_laws::sum(n, |i: int| s.parts[i].sections as nat);
            let raw = sum_laws::sum(n, |i: int| s.parts[i].section_bytes as nat);
            &&& r.source_fold_logical_bytes == fold_bytes
            &&& r.source_part_bytes == sum_laws::sum(costs.len(), |i: int| costs[i].1 as nat)
            &&& r.source_part_sections == sections
            &&& r.source_part_raw_section_bytes == raw
            &&& r.retained_only_bytes_before == usage.retained_only.logical_bytes
            &&& r.estimated_stage_bytes == fold_bytes + raw + rows * 64 + sections * 256 + 1024
                * 1024
            &&& !r.estimate_is_hard_bound
            &&& r.filesystem_available_bytes == usage.filesystem_available_bytes
        }),
{
    let costs = compact::part_costs(ms, s.manifest.parts);
    let n = costs.len();
    let rows = compact::cost_rows(costs);
    let bytes = compact::cost_bytes(costs);
    lemma_values_sum(rows, n);
    lemma_values_sum(bytes, n);
    sum_laws::lemma_sum_same(n, |i: int| rows[i] as nat, |i: int| costs[i].0 as nat);
    sum_laws::lemma_sum_same(n, |i: int| bytes[i] as nat, |i: int| costs[i].1 as nat);
    lemma_section_sums(s.parts, 0, s.parts.len());
    sum_laws::lemma_sum_same(
        s.parts.len(),
        |i: int| s.parts[0 + i].sections as nat,
        |i: int| s.parts[i].sections as nat,
    );
    sum_laws::lemma_sum_same(
        s.parts.len(),
        |i: int| s.parts[0 + i].section_bytes as nat,
        |i: int| s.parts[i].section_bytes as nat,
    );
}

} // verus!
