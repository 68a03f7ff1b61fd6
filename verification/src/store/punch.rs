//! Giving up fold blocks that no visible record reaches, and counting what that would free.
//!
//! A revision declares the blocks before their bytes go. A crash in between leaves blocks that are
//! declared and still readable, never zeros that nothing accounts for.

use crate::container::{Container, MemberView};
use crate::fold;
use crate::fold::{Fold, FoldView, Loc};
use crate::part;
use crate::part::ReadError;
use crate::store::chain;
use crate::store::commit;
use crate::store::commit::CommitOutcome;
use crate::store::engine;
use crate::store::engine::{Store, StoreView};
use crate::store::engine_read;
use crate::store::liveness;
use crate::store::manifest;
use crate::store::manifest::{FoldTail, Manifest, ManifestView, MANIFEST_RETAIN};
use crate::store::publish;
use crate::store::publish::PublishError;
use crate::store::read;
use crate::store::writer::WriterView;
use crate::types::OpView;
use vstd::prelude::*;

verus! {

/// Ranges with a gap between any two: there is one way to write a set of blocks so.
pub open spec fn separated(ranges: Seq<(u32, u32)>) -> bool {
    &&& forall|i: int| 0 <= i < ranges.len() ==> (#[trigger] ranges[i]).0 <= ranges[i].1
    &&& forall|i: int, j: int|
        0 <= i < j < ranges.len() ==> (#[trigger] ranges[i]).1 + 1 < (#[trigger] ranges[j]).0
}

/// Collapse a sorted id list into inclusive ranges.
pub fn to_ranges(ids: &[u32]) -> (r: Vec<(u32, u32)>)
    requires
        forall|i: int, j: int| 0 <= i <= j < ids@.len() ==> ids@[i] <= ids@[j],
    ensures
        separated(r@),
        manifest::ranges_ok(r@),
        forall|id: u32| #[trigger] fold::in_ranges(r@, id) <==> ids@.contains(id),
{
    let mut out: Vec<(u32, u32)> = Vec::new();
    let mut i: usize = 0;
    while i < ids.len()
        invariant
            forall|a: int, b: int| 0 <= a <= b < ids@.len() ==> ids@[a] <= ids@[b],
            i <= ids@.len(),
            separated(out@),
            i == 0 <==> out@.len() == 0,
            i > 0 ==> out@[out@.len() - 1].1 == ids@[i - 1],
            forall|id: u32| #[trigger]
                fold::in_ranges(out@, id) <==> ids@.take(i as int).contains(id),
        decreases ids.len() - i,
    {
        let id: u32 = ids[i];
        let ghost before = out@;
        let ghost seen = ids@.take(i as int);
        let ghost next = ids@.take(i + 1);
        let n: usize = out.len();
        proof {
            assert(next =~= seen.push(id));
            assert forall|x: u32| next.contains(x) <==> seen.contains(x) || x == id by {
                if seen.contains(x) {
                    let k = choose|k: int| 0 <= k < seen.len() && seen[k] == x;
                    assert(next[k] == x);
                }
                if x == id {
                    assert(next[i as int] == x);
                }
            }
            if i > 0 {
                assert(ids@[i - 1] <= ids@[i as int]);
            }
        }
        if n > 0 && out[n - 1].1 == id {
            assert(fold::in_ranges(before, id)) by {
                assert(before[n - 1].0 <= id <= before[n - 1].1);
            }
        } else if n > 0 && out[n - 1].1 + 1 == id {
            let lo: u32 = out[n - 1].0;
            out.set(n - 1, (lo, id));
            proof {
                assert forall|x: u32| #[trigger] fold::in_ranges(out@, x) <==> fold::in_ranges(
                    before,
                    x,
                ) || x == id by {
                    lemma_last_grown(before, out@, id, x);
                }
            }
        } else {
            out.push((id, id));
            proof {
                assert forall|x: u32| #[trigger] fold::in_ranges(out@, x) <==> fold::in_ranges(
                    before,
                    x,
                ) || x == id by {
                    lemma_pushed(before, id, x);
                }
            }
        }
        i = i + 1;
    }
    assert(ids@.take(ids@.len() as int) =~= ids@);
    out
}

proof fn lemma_last_grown(before: Seq<(u32, u32)>, after: Seq<(u32, u32)>, id: u32, x: u32)
    requires
        before.len() > 0,
        before.last().0 <= before.last().1,
        before.last().1 + 1 == id,
        after == before.update(before.len() - 1, (before.last().0, id)),
    ensures
        fold::in_ranges(after, x) <==> fold::in_ranges(before, x) || x == id,
{
    let n = before.len() - 1;
    if fold::in_ranges(before, x) {
        let k = choose|k: int|
            0 <= k < before.len() && (#[trigger] before[k]).0 <= x <= before[k].1;
        assert(after[k].0 <= x <= after[k].1);
    }
    if x == id {
        assert(after[n].0 <= x <= after[n].1);
    }
    if fold::in_ranges(after, x) {
        let k = choose|k: int| 0 <= k < after.len() && (#[trigger] after[k]).0 <= x <= after[k].1;
        assert(k < n ==> before[k] == after[k]);
        assert(before[k].0 <= x);
    }
}

proof fn lemma_pushed(before: Seq<(u32, u32)>, id: u32, x: u32)
    ensures
        fold::in_ranges(before.push((id, id)), x) <==> fold::in_ranges(before, x) || x == id,
{
    let after = before.push((id, id));
    if fold::in_ranges(before, x) {
        let k = choose|k: int|
            0 <= k < before.len() && (#[trigger] before[k]).0 <= x <= before[k].1;
        assert(after[k].0 <= x <= after[k].1);
    }
    if x == id {
        assert(after[before.len() as int].0 <= x <= after[before.len() as int].1);
    }
    if fold::in_ranges(after, x) {
        let k = choose|k: int| 0 <= k < after.len() && (#[trigger] after[k]).0 <= x <= after[k].1;
        assert(k < before.len() ==> before[k] == after[k]);
    }
}

// ---------------------------------------------------------------------------------------------
// Dead blocks.
// ---------------------------------------------------------------------------------------------
/// Whether some location lies in a block.
pub open spec fn block_live(locs: Seq<Loc>, id: u32) -> bool {
    exists|i: int| 0 <= i < locs.len() && (#[trigger] locs[i]).block_id == id
}

/// The blocks among the first `n` that no location lies in, ascending.
pub open spec fn dead_blocks(locs: Seq<Loc>, n: nat) -> Seq<u32>
    decreases n,
{
    if n == 0 {
        Seq::empty()
    } else {
        let before = dead_blocks(locs, (n - 1) as nat);
        if block_live(locs, (n - 1) as u32) {
            before
        } else {
            before.push((n - 1) as u32)
        }
    }
}

/// Dead blocks ascend, and are what their name says.
pub proof fn lemma_dead_blocks(locs: Seq<Loc>, n: nat)
    requires
        n <= u32::MAX,
    ensures
        dead_blocks(locs, n).len() <= n,
        forall|id: u32| #[trigger]
            dead_blocks(locs, n).contains(id) <==> id < n && !block_live(locs, id),
        forall|i: int, j: int|
            0 <= i < j < dead_blocks(locs, n).len() ==> dead_blocks(locs, n)[i] < dead_blocks(
                locs,
                n,
            )[j],
        forall|i: int|
            0 <= i < dead_blocks(locs, n).len() ==> #[trigger] dead_blocks(locs, n)[i] < n,
    decreases n,
{
    if n > 0 {
        lemma_dead_blocks(locs, (n - 1) as nat);
        let before = dead_blocks(locs, (n - 1) as nat);
        let all = dead_blocks(locs, n);
        let last = (n - 1) as u32;
        assert forall|id: u32| #[trigger] all.contains(id) <==> id < n && !block_live(
            locs,
            id,
        ) by {
            if !block_live(locs, last) {
                assert(all[all.len() - 1] == last);
                if before.contains(id) {
                    let k = choose|k: int| 0 <= k < before.len() && before[k] == id;
                    assert(all[k] == id);
                }
                if all.contains(id) && id != last {
                    let k = choose|k: int| 0 <= k < all.len() && all[k] == id;
                    assert(before[k] == id);
                }
            }
            assert(before.contains(id) <==> id < n - 1 && !block_live(locs, id));
        }
        assert forall|i: int| 0 <= i < all.len() implies #[trigger] all[i] < n by {
            if i < before.len() {
                assert(all[i] == before[i]);
            }
        }
        assert forall|i: int, j: int| 0 <= i < j < all.len() implies all[i] < all[j] by {
            assert(all[i] == before[i]);
            if j < before.len() {
                assert(all[j] == before[j]);
            }
        }
    }
}

fn is_live(locs: &Vec<Loc>, id: u32) -> (r: bool)
    ensures
        r == block_live(locs@, id),
{
    let mut i: usize = 0;
    while i < locs.len()
        invariant
            i <= locs@.len(),
            forall|k: int| 0 <= k < i ==> (#[trigger] locs@[k]).block_id != id,
        decreases locs.len() - i,
    {
        if locs[i].block_id == id {
            assert(locs@[i as int].block_id == id);
            return true;
        }
        i = i + 1;
    }
    false
}

fn find_dead(locs: &Vec<Loc>, n: u32) -> (r: Vec<u32>)
    ensures
        r@ == dead_blocks(locs@, n as nat),
{
    let mut out: Vec<u32> = Vec::new();
    let mut id: u32 = 0;
    while id < n
        invariant
            id <= n,
            out@ == dead_blocks(locs@, id as nat),
        decreases n - id,
    {
        if !is_live(locs, id) {
            out.push(id);
        }
        id = id + 1;
    }
    out
}

// ---------------------------------------------------------------------------------------------
// Counting.
// ---------------------------------------------------------------------------------------------
/// Blocks and their bytes.
#[derive(Clone, Copy, Debug, PartialEq, Eq, Structural)]
pub struct BlockTotals {
    pub blocks: u64,
    pub raw_bytes: u64,
    pub stored_bytes: u64,
}

/// What the visible records keep alive, and what could be given up.
#[derive(Clone, Copy, Debug, PartialEq, Eq, Structural)]
pub struct ContentLiveness {
    pub live_pieces: u64,
    pub live_logical_bytes: u64,
    /// Blocks some live piece lies in.
    pub live_blocks: BlockTotals,
    /// Blocks that can be given up as they are.
    pub reclaimable_blocks: BlockTotals,
    /// Bytes in live blocks that no live piece covers.
    pub stranded_dead_logical_bytes: u64,
    pub dead_logical_bytes: u64,
}

/// Why liveness is not reported.
#[derive(Clone, Copy, Debug, PartialEq, Eq, Structural)]
pub enum LivenessError {
    /// Staged records reach content this would take for unreachable.
    UnflushedMemtable,
    /// A visible record does not read.
    Read { error: ReadError },
    /// A total does not fit.
    Overflow,
    /// Live pieces overlap: they add up to more than the blocks that hold them.
    Overlap,
}

/// Bytes of the first `n` locations.
pub open spec fn piece_bytes(locs: Seq<Loc>, n: nat) -> nat
    decreases n,
{
    if n == 0 {
        0
    } else {
        piece_bytes(locs, (n - 1) as nat) + locs[n - 1].raw as nat
    }
}

/// Whether a block counts: it was not given up, and it is live or not as asked.
pub open spec fn counts(f: FoldView, locs: Seq<Loc>, live: bool, id: u32) -> bool {
    !fold::in_ranges(f.punched, id) && block_live(locs, id) == live
}

/// How many of the first `n` blocks count.
pub open spec fn block_count(f: FoldView, locs: Seq<Loc>, live: bool, n: nat) -> nat
    decreases n,
{
    if n == 0 {
        0
    } else {
        block_count(f, locs, live, (n - 1) as nat) + if counts(f, locs, live, (n - 1) as u32) {
            1nat
        } else {
            0
        }
    }
}

/// Bytes the first `n` blocks that count decode to.
pub open spec fn raw_total(f: FoldView, locs: Seq<Loc>, live: bool, n: nat) -> nat
    decreases n,
{
    if n == 0 {
        0
    } else {
        raw_total(f, locs, live, (n - 1) as nat) + if counts(f, locs, live, (n - 1) as u32) {
            f.blocks[n - 1].bytes.len()
        } else {
            0
        }
    }
}

/// Bytes that the host stores for the first `n` blocks that count.
pub open spec fn stored_total(
    f: FoldView,
    stored: Seq<u64>,
    locs: Seq<Loc>,
    live: bool,
    n: nat,
) -> nat
    decreases n,
{
    if n == 0 {
        0
    } else {
        stored_total(f, stored, locs, live, (n - 1) as nat) + if counts(
            f,
            locs,
            live,
            (n - 1) as u32,
        ) {
            stored[n - 1] as nat
        } else {
            0
        }
    }
}

/// Totals of the blocks that count; none where one does not fit.
pub open spec fn totals(f: FoldView, stored: Seq<u64>, locs: Seq<Loc>, live: bool) -> Option<
    BlockTotals,
> {
    let n = f.blocks.len();
    let blocks = block_count(f, locs, live, n);
    let raw = raw_total(f, locs, live, n);
    let held = stored_total(f, stored, locs, live, n);
    if blocks <= u64::MAX && raw <= u64::MAX && held <= u64::MAX {
        Some(
            BlockTotals {
                blocks: blocks as u64,
                raw_bytes: raw as u64,
                stored_bytes: held as u64,
            },
        )
    } else {
        None
    }
}

/// What the live locations of a fold come to.
pub open spec fn liveness_of(f: FoldView, stored: Seq<u64>, locs: Seq<Loc>) -> Result<
    ContentLiveness,
    LivenessError,
> {
    let live_bytes = piece_bytes(locs, locs.len());
    match (totals(f, stored, locs, true), totals(f, stored, locs, false)) {
        (Some(live), Some(dead)) => if live_bytes > u64::MAX {
            Err(LivenessError::Overflow)
        } else if live_bytes > live.raw_bytes {
            Err(LivenessError::Overlap)
        } else if dead.raw_bytes + (live.raw_bytes - live_bytes) > u64::MAX {
            Err(LivenessError::Overflow)
        } else {
            Ok(
                ContentLiveness {
                    live_pieces: locs.len() as u64,
                    live_logical_bytes: live_bytes as u64,
                    live_blocks: live,
                    reclaimable_blocks: dead,
                    stranded_dead_logical_bytes: (live.raw_bytes - live_bytes) as u64,
                    dead_logical_bytes: (dead.raw_bytes + (live.raw_bytes - live_bytes)) as u64,
                },
            )
        },
        _ => Err(LivenessError::Overflow),
    }
}

proof fn lemma_totals_grow(f: FoldView, stored: Seq<u64>, locs: Seq<Loc>, live: bool, k: nat, n: nat)
    requires
        k <= n,
    ensures
        raw_total(f, locs, live, k) <= raw_total(f, locs, live, n),
        stored_total(f, stored, locs, live, k) <= stored_total(f, stored, locs, live, n),
    decreases n,
{
    if k < n {
        lemma_totals_grow(f, stored, locs, live, k, (n - 1) as nat);
    }
}

proof fn lemma_pieces_grow(locs: Seq<Loc>, k: nat, n: nat)
    requires
        k <= n,
    ensures
        piece_bytes(locs, k) <= piece_bytes(locs, n),
    decreases n,
{
    if k < n {
        lemma_pieces_grow(locs, k, (n - 1) as nat);
    }
}

proof fn lemma_count_bound(f: FoldView, locs: Seq<Loc>, live: bool, n: nat)
    ensures
        block_count(f, locs, live, n) <= n,
    decreases n,
{
    if n > 0 {
        lemma_count_bound(f, locs, live, (n - 1) as nat);
    }
}

fn count_blocks(f: &Fold, stored: &[u64], locs: &Vec<Loc>, live: bool) -> (r: Option<BlockTotals>)
    requires
        f@.blocks.len() <= u32::MAX,
        stored@.len() == f@.blocks.len(),
    ensures
        r == totals(f@, stored@, locs@, live),
{
    let ghost fv = f@;
    let ghost n = fv.blocks.len();
    let mut t = BlockTotals { blocks: 0, raw_bytes: 0, stored_bytes: 0 };
    let mut i: usize = 0;
    while i < f.blocks.len()
        invariant
            fv == f@,
            n == fv.blocks.len(),
            f@.blocks.len() <= u32::MAX,
            stored@.len() == f@.blocks.len(),
            i <= f.blocks@.len(),
            t.blocks == block_count(fv, locs@, live, i as nat),
            t.raw_bytes == raw_total(fv, locs@, live, i as nat),
            t.stored_bytes == stored_total(fv, stored@, locs@, live, i as nat),
        decreases f.blocks.len() - i,
    {
        let id: u32 = i as u32;
        assert(fv.blocks[i as int] == f.blocks@[i as int]@);
        proof {
            lemma_totals_grow(fv, stored@, locs@, live, (i + 1) as nat, n);
            lemma_count_bound(fv, locs@, live, i as nat);
        }
        if !f.is_punched(id) && is_live(locs, id) == live {
            let raw_bytes: u64 = match t.raw_bytes.checked_add(f.blocks[i].bytes.len() as u64) {
                Some(n) => n,
                None => {
                    return None;
                },
            };
            let stored_bytes: u64 = match t.stored_bytes.checked_add(stored[i]) {
                Some(n) => n,
                None => {
                    return None;
                },
            };
            t = BlockTotals { blocks: t.blocks + 1, raw_bytes, stored_bytes };
        }
        i = i + 1;
    }
    proof {
        lemma_count_bound(fv, locs@, live, n);
    }
    Some(t)
}

fn sum_pieces(locs: &Vec<Loc>) -> (r: Option<u64>)
    ensures
        match r {
            Some(n) => n == piece_bytes(locs@, locs@.len()),
            None => piece_bytes(locs@, locs@.len()) > u64::MAX,
        },
{
    let mut sum: u64 = 0;
    let mut i: usize = 0;
    while i < locs.len()
        invariant
            i <= locs@.len(),
            sum == piece_bytes(locs@, i as nat),
        decreases locs.len() - i,
    {
        sum =
        match sum.checked_add(locs[i].raw as u64) {
            Some(n) => n,
            None => {
                proof {
                    lemma_pieces_grow(locs@, (i + 1) as nat, locs@.len());
                }
                return None;
            },
        };
        i = i + 1;
    }
    Some(sum)
}

// ---------------------------------------------------------------------------------------------
// Punching.
// ---------------------------------------------------------------------------------------------
/// Blocks to be given up.
#[derive(Debug)]
pub struct PunchPlan {
    /// Every block no visible record reaches, ascending; also those declared earlier, so that an
    /// interrupted run is taken up again.
    pub dead: Vec<u32>,
    /// All of them as ranges.
    pub ranges: Vec<(u32, u32)>,
    /// Whether some are not declared yet, so that a revision must declare them.
    pub declare: bool,
}

/// What a run of punching did.
#[derive(Clone, Copy, Debug, PartialEq, Eq, Structural)]
pub struct ContentPunchStats {
    pub blocks_examined: usize,
    /// Fewer than examined when blocks sit in the active segment, which is never punched.
    pub blocks_punched: usize,
}

/// Why nothing is given up.
#[derive(Clone, Copy, Debug, PartialEq, Eq, Structural)]
pub enum PunchError {
    RequiresReopen,
    /// Staged records reach content this would take for unreachable.
    UnflushedMemtable,
    /// A visible record does not read.
    Read { error: ReadError },
}

/// The dead blocks of a store.
pub open spec fn store_dead(s: StoreView) -> Seq<u32> {
    dead_blocks(liveness::live_locs(s.parts, s.parts.len()), s.writer.fold.blocks.len())
}

/// A plan for a store.
pub open spec fn is_punch_plan(s: StoreView, p: PunchPlan) -> bool {
    &&& p.dead@ == store_dead(s)
    &&& forall|i: int| 0 <= i < p.dead@.len() ==> #[trigger] p.dead@[i] < s.writer.fold.blocks.len()
    &&& separated(p.ranges@)
    &&& manifest::ranges_ok(p.ranges@)
    &&& forall|id: u32| #[trigger] fold::in_ranges(p.ranges@, id) <==> store_dead(s).contains(id)
    &&& forall|id: u32| #[trigger]
        fold::in_ranges(p.ranges@, id) ==> id < s.writer.fold.blocks.len()
    &&& p.declare <==> exists|i: int|
        0 <= i < store_dead(s).len() && !fold::in_ranges(
            s.manifest.punched,
            #[trigger] store_dead(s)[i],
        )
}

/// The revision that declares ranges given up.
pub open spec fn punched_manifest(m: ManifestView, ranges: Seq<(u32, u32)>, tail: FoldTail) -> ManifestView {
    ManifestView { punched: ranges, fold_seg: tail.seg, fold_off: tail.off, ..m }
}

/// A store that declared ranges given up.
pub open spec fn punched_store(s: StoreView, m: ManifestView) -> StoreView {
    StoreView {
        manifest: m,
        writer: WriterView {
            fold: FoldView { punched: m.punched, ..s.writer.fold },
            ..s.writer
        },
        retained_commit_count: publish::one_more_retained(s.retained_commit_count),
        ..s
    }
}

/// What staging a declaration does: it leaves the store as it was, and gives the container's next
/// state.
pub open spec fn stage_outcome(
    s: StoreView,
    t: StoreView,
    before: Seq<MemberView>,
    m: ManifestView,
    json: Seq<u8>,
    r: Result<Seq<MemberView>, PublishError>,
) -> bool {
    let staged = commit::committed(before, m, json);
    let commits = chain::retained_commits(staged);
    if s.requires_reopen {
        r == Err::<Seq<MemberView>, PublishError>(PublishError::RequiresReopen) && t == s
    } else {
        match commit::retained_fault(staged, commits, commits.len()) {
            Some(error) => {
                &&& r == Err::<Seq<MemberView>, PublishError>(PublishError::Sweep { error })
                &&& t == publish::closed(s)
            },
            None => {
                &&& r == Ok::<Seq<MemberView>, PublishError>(commit::swept(staged, m))
                &&& t == s
            },
        }
    }
}

/// What declaring does, given how the flip ended.
pub open spec fn declare_outcome(
    s: StoreView,
    t: StoreView,
    m: ManifestView,
    outcome: CommitOutcome,
    r: Result<(), PublishError>,
) -> bool {
    if s.requires_reopen {
        r == Err::<(), PublishError>(PublishError::RequiresReopen) && t == s
    } else {
        match outcome {
            CommitOutcome::NotSelected => {
                &&& r == Err::<(), PublishError>(PublishError::NotSelected)
                &&& t == s
            },
            CommitOutcome::SelectedUnsynced => {
                &&& r == Err::<(), PublishError>(PublishError::Unsynchronized)
                &&& t == StoreView { unsynced: true, ..punched_store(s, m) }
            },
            CommitOutcome::Committed => {
                &&& r == Ok::<(), PublishError>(())
                &&& t == StoreView { unsynced: false, ..punched_store(s, m) }
            },
        }
    }
}

/// The blocks of a list outside a segment, among the first `n`.
pub open spec fn outside_segment(segments: Seq<u32>, dead: Seq<u32>, active: u32, n: nat) -> Seq<u32>
    decreases n,
{
    if n == 0 {
        Seq::empty()
    } else {
        let before = outside_segment(segments, dead, active, (n - 1) as nat);
        if segments[dead[n - 1] as int] == active {
            before
        } else {
            before.push(dead[n - 1])
        }
    }
}

fn all_declared(dead: &Vec<u32>, ranges: &Vec<(u32, u32)>) -> (r: bool)
    ensures
        r <==> !exists|i: int|
            0 <= i < dead@.len() && !fold::in_ranges(ranges@, #[trigger] dead@[i]),
{
    let mut i: usize = 0;
    while i < dead.len()
        invariant
            i <= dead@.len(),
            forall|k: int| 0 <= k < i ==> fold::in_ranges(ranges@, #[trigger] dead@[k]),
        decreases dead.len() - i,
    {
        if !fold::range_holds(ranges, dead[i]) {
            assert(!fold::in_ranges(ranges@, dead@[i as int]));
            return false;
        }
        i = i + 1;
    }
    true
}

impl Store {
    /// Count what the visible records keep alive. The host says how many bytes it stores for each
    /// block.
    pub fn content_liveness(&self, stored: &[u64]) -> (r: Result<ContentLiveness, LivenessError>)
        requires
            engine::store_ok(self@),
            stored@.len() == self@.writer.fold.blocks.len(),
        ensures
            ({
                let s = self@;
                let f = s.writer.fold;
                let n = s.parts.len();
                if s.mem.len() > 0 {
                    r == Err::<ContentLiveness, LivenessError>(LivenessError::UnflushedMemtable)
                } else {
                    match liveness::live_fault(s.parts, f, n) {
                        Some(error) => r == Err::<ContentLiveness, LivenessError>(
                            LivenessError::Read { error },
                        ),
                        None => r == liveness_of(f, stored@, liveness::live_locs(s.parts, n)),
                    }
                }
            }),
    {
        if self.mem.len() > 0 {
            return Err(LivenessError::UnflushedMemtable);
        }
        let locs = match liveness::live_fold_pieces(&self.parts, &self.writer.fold) {
            Ok(l) => l,
            Err(error) => {
                return Err(LivenessError::Read { error });
            },
        };
        let live = count_blocks(&self.writer.fold, stored, &locs, true);
        let dead = count_blocks(&self.writer.fold, stored, &locs, false);
        let (live_blocks, reclaimable_blocks) = match (live, dead) {
            (Some(a), Some(b)) => (a, b),
            _ => {
                return Err(LivenessError::Overflow);
            },
        };
        let live_logical_bytes: u64 = match sum_pieces(&locs) {
            Some(n) => n,
            None => {
                return Err(LivenessError::Overflow);
            },
        };
        if live_logical_bytes > live_blocks.raw_bytes {
            return Err(LivenessError::Overlap);
        }
        let stranded: u64 = live_blocks.raw_bytes - live_logical_bytes;
        let dead_logical_bytes: u64 = match reclaimable_blocks.raw_bytes.checked_add(stranded) {
            Some(n) => n,
            None => {
                return Err(LivenessError::Overflow);
            },
        };
        Ok(
            ContentLiveness {
                live_pieces: locs.len() as u64,
                live_logical_bytes,
                live_blocks,
                reclaimable_blocks,
                stranded_dead_logical_bytes: stranded,
                dead_logical_bytes,
            },
        )
    }

    /// Find every block that no visible record reaches.
    pub fn plan_punch(&self) -> (r: Result<PunchPlan, PunchError>)
        requires
            engine::store_ok(self@),
        ensures
            ({
                let s = self@;
                if s.requires_reopen {
                    r == Err::<PunchPlan, PunchError>(PunchError::RequiresReopen)
                } else if s.mem.len() > 0 {
                    r == Err::<PunchPlan, PunchError>(PunchError::UnflushedMemtable)
                } else {
                    match liveness::live_fault(s.parts, s.writer.fold, s.parts.len()) {
                        Some(error) => r == Err::<PunchPlan, PunchError>(
                            PunchError::Read { error },
                        ),
                        None => r is Ok && is_punch_plan(s, r->Ok_0),
                    }
                }
            }),
    {
        if self.requires_reopen {
            return Err(PunchError::RequiresReopen);
        }
        if self.mem.len() > 0 {
            return Err(PunchError::UnflushedMemtable);
        }
        let locs = match liveness::live_fold_pieces(&self.parts, &self.writer.fold) {
            Ok(l) => l,
            Err(error) => {
                return Err(PunchError::Read { error });
            },
        };
        let n: u32 = self.writer.fold.blocks.len() as u32;
        let dead = find_dead(&locs, n);
        proof {
            lemma_dead_blocks(locs@, n as nat);
        }
        let ranges = to_ranges(dead.as_slice());
        let declare = !all_declared(&dead, &self.manifest.punched);
        assert(n == self@.writer.fold.blocks.len());
        assert(dead@ == store_dead(self@));
        Ok(PunchPlan { dead, ranges, declare })
    }

    /// Make the revision that declares a plan's blocks. A failure closes the writer.
    pub fn prepare_punch(&mut self, c: &Container, plan: &PunchPlan, tail: FoldTail) -> (r: Result<
        Manifest,
        PublishError,
    >)
        requires
            engine::store_ok(old(self)@),
        ensures
            engine::store_ok(final(self)@),
            publish::prepare_outcome(
                old(self)@,
                final(self)@,
                punched_manifest(old(self)@.manifest, plan.ranges@, tail),
                publish::predecessor_bytes(c@.members),
                match r {
                    Ok(m) => Ok(m@),
                    Err(e) => Err(e),
                },
            ),
    {
        let ghost before = self.manifest@;
        let mut next = self.manifest.clone();
        let mut ranges: Vec<(u32, u32)> = Vec::new();
        let mut i: usize = 0;
        while i < plan.ranges.len()
            invariant
                i <= plan.ranges@.len(),
                ranges@ == plan.ranges@.take(i as int),
            decreases plan.ranges.len() - i,
        {
            ranges.push(plan.ranges[i]);
            i = i + 1;
            assert(ranges@ =~= plan.ranges@.take(i as int));
        }
        assert(ranges@ =~= plan.ranges@);
        next.punched = ranges;
        next.fold_seg = tail.seg;
        next.fold_off = tail.off;
        assert(next@ == punched_manifest(before, plan.ranges@, tail));
        self.prepare_next(c, next)
    }

    /// Stage the revision that declares blocks given up: the container's next state, which the
    /// host then flips to. The store stays as it was. Where a retained revision does not read,
    /// nothing is staged and the writer is closed.
    pub fn stage_punch(&mut self, c: &Container, m: &Manifest, json: &Vec<u8>) -> (r: Result<
        Container,
        PublishError,
    >)
        requires
            engine::store_ok(old(self)@),
        ensures
            engine::store_ok(final(self)@),
            stage_outcome(
                old(self)@,
                final(self)@,
                c@.members,
                m@,
                json@,
                match r {
                    Ok(next) => Ok(next@.members),
                    Err(e) => Err(e),
                },
            ),
            r matches Ok(next) ==> next@.seq == c@.seq,
    {
        if self.requires_reopen {
            return Err(PublishError::RequiresReopen);
        }
        let mut next = publish::clone_container(c);
        commit::commit_into_container(&mut next, m, json);
        if let Err(error) = commit::sweep_unreachable_container(&mut next, m) {
            self.requires_reopen = true;
            return Err(PublishError::Sweep { error });
        }
        Ok(next)
    }

    /// Take the outcome of the flip to a staged declaration. Only a flip that selected it declares
    /// the blocks given up.
    pub fn adopt_punch(&mut self, m: Manifest, outcome: CommitOutcome) -> (r: Result<
        (),
        PublishError,
    >)
        requires
            engine::store_ok(old(self)@),
            old(self)@.mem.len() == 0,
            m@.parts.len() == old(self)@.parts.len(),
            manifest::ranges_ok(m@.punched),
            forall|id: u32| #[trigger]
                fold::in_ranges(m@.punched, id) ==> id < old(self)@.writer.sealed,
        ensures
            engine::store_ok(final(self)@),
            declare_outcome(old(self)@, final(self)@, m@, outcome, r),
    {
        if self.requires_reopen {
            return Err(PublishError::RequiresReopen);
        }
        if outcome == CommitOutcome::NotSelected {
            return Err(PublishError::NotSelected);
        }
        let mut ranges: Vec<(u32, u32)> = Vec::new();
        let mut i: usize = 0;
        while i < m.punched.len()
            invariant
                i <= m.punched@.len(),
                ranges@ == m.punched@.take(i as int),
            decreases m.punched.len() - i,
        {
            ranges.push(m.punched[i]);
            i = i + 1;
            assert(ranges@ =~= m.punched@.take(i as int));
        }
        assert(ranges@ =~= m.punched@);
        self.writer.fold.punched = ranges;
        self.manifest = m;
        if self.retained_commit_count < MANIFEST_RETAIN {
            self.retained_commit_count = self.retained_commit_count + 1;
        } else {
            self.retained_commit_count = MANIFEST_RETAIN;
        }
        self.unsynced = outcome == CommitOutcome::SelectedUnsynced;
        if outcome == CommitOutcome::SelectedUnsynced {
            return Err(PublishError::Unsynchronized);
        }
        Ok(())
    }

    /// The planned blocks whose bytes the host may deallocate: those outside the active segment.
    /// They are declared given up, and the declaration is durable: at no point may a block's bytes
    /// be gone while some state still calls them content. The host says which segment stores each
    /// block.
    pub fn punch_unreferenced(&self, dead: &Vec<u32>, segments: &[u32], active: u32) -> (r: (
        Vec<u32>,
        ContentPunchStats,
    ))
        requires
            !self@.unsynced,
            forall|i: int|
                0 <= i < dead@.len() ==> fold::in_ranges(
                    self@.manifest.punched,
                    #[trigger] dead@[i],
                ),
            forall|i: int| 0 <= i < dead@.len() ==> #[trigger] dead@[i] < segments@.len(),
        ensures
            ({
                let targets = outside_segment(segments@, dead@, active, dead@.len());
                &&& r.0@ == targets
                &&& r.1.blocks_examined == dead@.len()
                &&& r.1.blocks_punched == targets.len()
            }),
            forall|i: int|
                0 <= i < r.0@.len() ==> fold::in_ranges(
                    self@.manifest.punched,
                    #[trigger] r.0@[i],
                ),
    {
        let mut out: Vec<u32> = Vec::new();
        let mut i: usize = 0;
        while i < dead.len()
            invariant
                forall|k: int| 0 <= k < dead@.len() ==> #[trigger] dead@[k] < segments@.len(),
                forall|k: int|
                    0 <= k < dead@.len() ==> fold::in_ranges(
                        self@.manifest.punched,
                        #[trigger] dead@[k],
                    ),
                forall|k: int|
                    0 <= k < out@.len() ==> fold::in_ranges(
                        self@.manifest.punched,
                        #[trigger] out@[k],
                    ),
                i <= dead@.len(),
                out@ == outside_segment(segments@, dead@, active, i as nat),
            decreases dead.len() - i,
        {
            let id: u32 = dead[i];
            assert(dead@[i as int] < segments@.len());
            if segments[id as usize] != active {
                out.push(id);
            }
            i = i + 1;
        }
        let stats = ContentPunchStats { blocks_examined: dead.len(), blocks_punched: out.len() };
        (out, stats)
    }
}

// ---------------------------------------------------------------------------------------------
// What punching keeps.
// ---------------------------------------------------------------------------------------------
proof fn lemma_program_kept(
    dict: Seq<(Seq<u8>, Loc)>,
    f: FoldView,
    g: FoldView,
    ops: Seq<OpView>,
)
    requires
        g.blocks == f.blocks,
        forall|k: int|
            #![trigger ops[k]]
            0 <= k < ops.len() ==> (ops[k] matches OpView::Piece { hash, len: _ }
                ==> part::find_loc(dict, hash) is Some ==> !fold::in_ranges(
                f.punched,
                part::find_loc(dict, hash)->0.block_id,
            ) && !fold::in_ranges(g.punched, part::find_loc(dict, hash)->0.block_id)),
    ensures
        part::program_bytes(dict, g, ops) == part::program_bytes(dict, f, ops),
    decreases ops.len(),
{
    if ops.len() > 0 {
        let front = ops.drop_last();
        assert forall|k: int|
            #![trigger front[k]]
            0 <= k < front.len() implies (front[k] matches OpView::Piece { hash, len: _ }
                ==> part::find_loc(dict, hash) is Some ==> !fold::in_ranges(
                f.punched,
                part::find_loc(dict, hash)->0.block_id,
            ) && !fold::in_ranges(g.punched, part::find_loc(dict, hash)->0.block_id)) by {
            assert(front[k] == ops[k]);
        }
        lemma_program_kept(dict, f, g, front);
        assert(ops.last() == ops[ops.len() - 1]);
    }
}

/// Giving up the dead blocks changes no value of a visible record.
pub proof fn lemma_punch_keeps_values(
    s: StoreView,
    m: ManifestView,
    id: Seq<char>,
    name: Seq<char>,
)
    requires
        engine::store_ok(s),
        s.mem.len() == 0,
        liveness::live_fault(s.parts, s.writer.fold, s.parts.len()) is None,
        forall|b: u32| #[trigger] fold::in_ranges(m.punched, b) <==> store_dead(s).contains(b),
    ensures
        engine_read::visible(punched_store(s, m), id) == engine_read::visible(s, id),
        engine_read::value(punched_store(s, m), id, name) == engine_read::value(s, id, name),
{
    let t = punched_store(s, m);
    let f = s.writer.fold;
    let g = t.writer.fold;
    let locs = liveness::live_locs(s.parts, s.parts.len());
    lemma_dead_blocks(locs, f.blocks.len());
    liveness::lemma_live_within(s.parts, f, s.parts.len());
    match read::located(s.parts, id) {
        None => {},
        Some((p, row)) => {
            read::lemma_newest(s.parts, id);
            read::lemma_live_is_located(s.parts, p as int, row as int);
            let contents = s.parts[p as int].rows[row as int].record->0.contents;
            match part::content_named(contents, name) {
                None => {},
                Some(content) => {
                    let c = part::lemma_content_named(contents, name);
                    let dict = s.parts[p as int].pieces;
                    let ops = content.ops;
                    assert forall|k: int|
                        #![trigger ops[k]]
                        0 <= k < ops.len() implies (ops[k] matches OpView::Piece { hash, len: _ }
                            ==> part::find_loc(dict, hash) is Some ==> !fold::in_ranges(
                            f.punched,
                            part::find_loc(dict, hash)->0.block_id,
                        ) && !fold::in_ranges(
                            g.punched,
                            part::find_loc(dict, hash)->0.block_id,
                        )) by {
                        if let OpView::Piece { hash, len: _ } = ops[k] {
                            if part::find_loc(dict, hash) is Some {
                                let loc = part::find_loc(dict, hash)->0;
                                liveness::lemma_live_reaches(
                                    s.parts,
                                    s.parts.len(),
                                    p as int,
                                    row as int,
                                    c,
                                    k,
                                    loc,
                                );
                                let i = choose|i: int| 0 <= i < locs.len() && locs[i] == loc;
                                assert(locs[i].block_id == loc.block_id);
                                assert(block_live(locs, loc.block_id));
                                assert(!store_dead(s).contains(loc.block_id));
                            }
                        }
                    }
                    lemma_program_kept(dict, f, g, ops);
                },
            }
        },
    }
}

} // verus!
