//! Frames: how the blocks of an open fold lie in its segments, and what walking over them finds.

use crate::bytes;
use crate::container;
use crate::container::MemberView;
use crate::fold::{BlockView, FoldView};
use crate::read_limits::ReadLimits;
use crate::store::artifact;
use crate::store::backup_laws;
use crate::store::manifest;
use crate::store::manifest::{FoldTail, ManifestView};
use crate::store::names;
use crate::store::names::SEG_HDR_LEN;
use crate::store::open;
use crate::store::open::{FoldRole, TailRule};
use crate::store::source;
use crate::store::source::{EnvView, Found, UnitView};
use crate::store::source_counts;
use vstd::prelude::*;
use vstd::utf8::*;

verus! {

// ---------------------------------------------------------------------------------------------
// How blocks lie.
// ---------------------------------------------------------------------------------------------
/// Segments have different numbers, and every block lies in one of them, behind its header and
/// behind the blocks before it.
pub open spec fn laid_out(segments: Seq<(u32, u64)>, blocks: Seq<BlockView>) -> bool {
    &&& forall|a: int, b: int|
        0 <= a < b < segments.len() ==> (#[trigger] segments[a]).0 != (#[trigger] segments[b]).0
    &&& forall|i: int| 0 <= i < blocks.len() ==> lies(segments, #[trigger] blocks[i])
    &&& forall|i: int, j: int|
        0 <= i < j < blocks.len() && (#[trigger] blocks[i]).segment == (
        #[trigger] blocks[j]).segment ==> blocks[i].end < blocks[j].end
}

/// Whether a block lies in a segment.
pub open spec fn lies(segments: Seq<(u32, u64)>, b: BlockView) -> bool {
    exists|k: int|
        0 <= k < segments.len() && (#[trigger] segments[k]).0 == b.segment && SEG_HDR_LEN < b.end
            <= segments[k].1
}

proof fn lemma_until(blocks: Seq<BlockView>, seg: u32, len: u64, off: u64)
    requires
        open::framed(blocks, seg, len),
    ensures
        open::framed(open::blocks_until(blocks, off), seg, len),
        open::framed(open::blocks_until(blocks, off), seg, off),
        forall|i: int|
            0 <= i < open::blocks_until(blocks, off).len() ==> blocks.len() > 0 && (
            #[trigger] open::blocks_until(blocks, off)[i]).end <= blocks.last().end,
    decreases blocks.len(),
{
    if blocks.len() > 0 {
        let front = blocks.drop_last();
        assert(open::framed(front, seg, len)) by {
            assert forall|i: int| 0 <= i < front.len() implies (#[trigger] front[i]).segment == seg
                && SEG_HDR_LEN < front[i].end <= len by {
                assert(front[i] == blocks[i]);
            }
            assert forall|i: int, j: int| 0 <= i < j < front.len() implies (
            #[trigger] front[i]).end < (#[trigger] front[j]).end by {
                assert(front[i] == blocks[i] && front[j] == blocks[j]);
            }
        }
        lemma_until(front, seg, len, off);
        if front.len() > 0 {
            assert(front.last() == blocks[blocks.len() - 2]);
            assert(blocks[blocks.len() - 2].end < blocks[blocks.len() - 1].end);
        }
    }
}

/// A segment's number determines its member's name.
proof fn lemma_segment_name(a: Seq<char>, b: Seq<char>, generation: u32, seg: u32)
    requires
        open::role_of(a, generation) == (FoldRole::Segment { seg }),
        open::role_of(b, generation) == (FoldRole::Segment { seg }),
    ensures
        a == b,
{
    let (x, y) = (open::below_root(a, generation)->0, open::below_root(b, generation)->0);
    names::lemma_segment_number_unique(x, y, encode_utf8("seg-"@), encode_utf8(".fold"@));
    let root = names::fold_root(generation);
    assert(encode_utf8(a) =~= root + x);
    assert(encode_utf8(b) =~= root + y);
    bytes::lemma_utf8_injective(a, b);
}

proof fn lemma_laid_among(
    ms: Seq<MemberView>,
    generation: u32,
    tail: Option<FoldTail>,
    rule: TailRule,
    limits: ReadLimits,
    n: nat,
)
    requires
        n <= ms.len(),
        container::names_ascending(ms),
        open::fold_members_fault(ms, generation, tail, rule, limits, ms.len()) is None,
    ensures
        ({
            let segments = open::view_segments(ms, generation, tail, rule, n);
            &&& laid_out(segments, open::view_blocks(ms, generation, tail, rule, n))
            &&& forall|k: int|
                0 <= k < segments.len() ==> exists|i: int|
                    0 <= i < n && open::role_of((#[trigger] ms[i]).name, generation) == (
                    FoldRole::Segment { seg: (#[trigger] segments[k]).0 })
        }),
    decreases n,
{
    if n > 0 {
        lemma_laid_among(ms, generation, tail, rule, limits, (n - 1) as nat);
        let m = ms[n - 1];
        let before = open::view_segments(ms, generation, tail, rule, (n - 1) as nat);
        let blocks = open::view_blocks(ms, generation, tail, rule, (n - 1) as nat);
        let more = open::member_blocks(m, generation, tail, rule);
        let added = open::member_segments(m, generation, tail, rule);
        let segments = open::view_segments(ms, generation, tail, rule, n);
        let all = open::view_blocks(ms, generation, tail, rule, n);
        backup_laws::lemma_fold_fault_each(ms, generation, tail, rule, limits, ms.len(), n - 1);
        if let FoldRole::Segment { seg } = open::role_of(m.name, generation) {
            if !open::skipped(seg, tail, rule) {
                let len = m.bytes.len() as u64;
                if tail is Some {
                    lemma_until(m.blocks->0, seg, len, tail->0.off as u64);
                }
                assert(added.len() == 1);
                let reach = added[0].1;
                assert(open::framed(more, seg, reach));
                assert forall|k: int| 0 <= k < before.len() implies (#[trigger] before[k]).0
                    != seg by {
                    let i = choose|i: int|
                        0 <= i < n - 1 && open::role_of((#[trigger] ms[i]).name, generation) == (
                        FoldRole::Segment { seg: before[k].0 });
                    if before[k].0 == seg {
                        lemma_segment_name(ms[i].name, m.name, generation, seg);
                        assert(bytes::name_lt(ms[i].name, ms[n - 1].name));
                        bytes::lemma_name_order(m.name, m.name, m.name);
                    }
                }
                assert forall|i: int| 0 <= i < all.len() implies lies(
                    segments,
                    #[trigger] all[i],
                ) by {
                    if i < blocks.len() {
                        assert(all[i] == blocks[i]);
                        assert(lies(before, blocks[i]));
                        let k = choose|k: int|
                            0 <= k < before.len() && (#[trigger] before[k]).0
                                == blocks[i].segment && SEG_HDR_LEN < blocks[i].end
                                <= before[k].1;
                        assert(segments[k] == before[k]);
                    } else {
                        assert(all[i] == more[i - blocks.len()]);
                        assert(segments[before.len() as int] == (seg, reach));
                    }
                }
                assert forall|i: int, j: int|
                    0 <= i < j < all.len() && (#[trigger] all[i]).segment == (
                    #[trigger] all[j]).segment implies all[i].end < all[j].end by {
                    if j < blocks.len() {
                        assert(all[i] == blocks[i] && all[j] == blocks[j]);
                    } else if i < blocks.len() {
                        assert(all[i] == blocks[i]);
                        assert(all[j] == more[j - blocks.len()]);
                        assert(lies(before, blocks[i]));
                    } else {
                        assert(all[i] == more[i - blocks.len()]);
                        assert(all[j] == more[j - blocks.len()]);
                    }
                }
                assert forall|k: int| 0 <= k < segments.len() implies exists|i: int|
                    0 <= i < n && open::role_of((#[trigger] ms[i]).name, generation) == (
                    FoldRole::Segment { seg: (#[trigger] segments[k]).0 }) by {
                    if k < before.len() {
                        assert(segments[k] == before[k]);
                        let i = choose|i: int|
                            0 <= i < n - 1 && open::role_of((#[trigger] ms[i]).name, generation)
                                == (FoldRole::Segment { seg: before[k].0 });
                        assert(open::role_of(ms[i].name, generation) == (FoldRole::Segment {
                            seg: segments[k].0,
                        }));
                    } else {
                        assert(open::role_of(ms[n - 1].name, generation) == (FoldRole::Segment {
                            seg: segments[k].0,
                        }));
                    }
                }
            } else {
                assert(segments =~= before);
                assert(all =~= blocks);
            }
        } else {
            assert(segments =~= before);
            assert(all =~= blocks);
        }
    }
}

/// The blocks of an open fold lie in its segments, one after another.
pub proof fn lemma_fold_laid_out(
    ms: Seq<MemberView>,
    m: ManifestView,
    punched: Seq<(u32, u32)>,
    rule: TailRule,
    limits: ReadLimits,
)
    requires
        container::names_ascending(ms),
        open::fold_of(ms, m, punched, rule, limits) is Ok,
    ensures
        ({
            let f = open::fold_of(ms, m, punched, rule, limits)->Ok_0;
            laid_out(f.segments, f.blocks)
        }),
{
    lemma_laid_among(ms, m.fold_gen, manifest::tail_of(m), rule, limits, ms.len());
}

// ---------------------------------------------------------------------------------------------
// Units and the whole walk judge alike.
// ---------------------------------------------------------------------------------------------
/// The length of a segment is found under its number.
pub proof fn lemma_segment_len(segments: Seq<(u32, u64)>, k: int)
    requires
        0 <= k < segments.len(),
        forall|a: int, b: int|
            0 <= a < b < segments.len() ==> (#[trigger] segments[a]).0 != (
            #[trigger] segments[b]).0,
    ensures
        source::segment_len(segments, segments[k].0) == Some(segments[k].1),
    decreases segments.len(),
{
    if k > 0 {
        let rest = segments.drop_first();
        assert(segments[0].0 != segments[k].0);
        assert forall|a: int, b: int| 0 <= a < b < rest.len() implies (#[trigger] rest[a]).0 != (
        #[trigger] rest[b]).0 by {
            assert(rest[a] == segments[a + 1] && rest[b] == segments[b + 1]);
        }
        assert(rest[k - 1] == segments[k]);
        lemma_segment_len(rest, k - 1);
    }
}

proof fn lemma_last_window(f: FoldView, k: int, n: nat) -> (u: UnitView)
    requires
        0 <= k < n <= f.segments.len(),
    ensures
        source::frame_units(f, n).contains(u),
        u matches UnitView::FoldFrames { seg, start, stop } && seg == f.segments[k].0 && stop
            >= f.segments[k].1,
    decreases n,
{
    let before = source::frame_units(f, (n - 1) as nat);
    let more = source::segment_units(f.blocks, f.segments[n - 1].0, f.segments[n - 1].1);
    if k < n - 1 {
        let u = lemma_last_window(f, k, (n - 1) as nat);
        let i = choose|i: int| 0 <= i < before.len() && before[i] == u;
        assert((before + more)[i] == u);
        u
    } else {
        let u = more.last();
        assert((before + more)[before.len() + more.len() - 1] == u);
        u
    }
}

/// Where every frame window of a fold holds, its frames reach to the end of every segment.
pub proof fn lemma_frames_hold(e: EnvView, n: nat)
    requires
        n <= e.current.fold.segments.len(),
        laid_out(e.current.fold.segments, e.current.fold.blocks),
        forall|u: UnitView|
            source::frame_units(e.current.fold, e.current.fold.segments.len()).contains(u)
                ==> #[trigger] source::unit_fault(e, u) is None,
    ensures
        artifact::frames_fault(e.current.fold, n) is None,
    decreases n,
{
    let f = e.current.fold;
    if n > 0 {
        lemma_frames_hold(e, (n - 1) as nat);
        lemma_segment_len(f.segments, n - 1);
        let u = lemma_last_window(f, n - 1, f.segments.len());
        assert(source::unit_fault(e, u) is None);
    }
}

proof fn lemma_frames_fault_each(f: FoldView, n: nat, k: int)
    requires
        0 <= k < n,
        artifact::frames_fault(f, n) is None,
    ensures
        artifact::frames_end(f.blocks, f.segments[k].0, f.blocks.len()) == f.segments[k].1,
    decreases n,
{
    if k < n - 1 {
        lemma_frames_fault_each(f, (n - 1) as nat, k);
    }
}

proof fn lemma_windows_of_segment(blocks: Seq<BlockView>, seg: u32, n: nat, i: int)
    requires
        0 <= i < source::frames_among(blocks, seg, n).0.len(),
    ensures
        source::frames_among(blocks, seg, n).0[i] matches UnitView::FoldFrames {
            seg: s,
            start,
            stop,
        } && s == seg,
    decreases n,
{
    if n > 0 {
        if i < source::frames_among(blocks, seg, (n - 1) as nat).0.len() {
            lemma_windows_of_segment(blocks, seg, (n - 1) as nat, i);
        }
    }
}

/// Where the frames of a fold reach to the end of every segment, every frame window holds.
pub proof fn lemma_frames_each(e: EnvView, n: nat, u: UnitView)
    requires
        n <= e.current.fold.segments.len(),
        laid_out(e.current.fold.segments, e.current.fold.blocks),
        artifact::frames_fault(e.current.fold, e.current.fold.segments.len()) is None,
        source::frame_units(e.current.fold, n).contains(u),
    ensures
        source::unit_fault(e, u) is None,
    decreases n,
{
    let f = e.current.fold;
    if n > 0 {
        let before = source::frame_units(f, (n - 1) as nat);
        let (seg, len) = f.segments[n - 1];
        let more = source::segment_units(f.blocks, seg, len);
        let i = choose|i: int| 0 <= i < (before + more).len() && (before + more)[i] == u;
        if i < before.len() {
            assert(before[i] == u);
            lemma_frames_each(e, (n - 1) as nat, u);
        } else {
            let j = i - before.len();
            assert(more[j] == u);
            if j < more.len() - 1 {
                lemma_windows_of_segment(f.blocks, seg, f.blocks.len(), j);
            }
            lemma_segment_len(f.segments, n - 1);
            lemma_frames_fault_each(f, f.segments.len(), n - 1);
        }
    }
}

// ---------------------------------------------------------------------------------------------
// What the windows find.
// ---------------------------------------------------------------------------------------------
proof fn lemma_window_join(blocks: Seq<BlockView>, seg: u32, a: u64, b: u64, c: u64, n: nat)
    requires
        a <= b <= c,
    ensures
        source::window_blocks(blocks, seg, a, b, n) + source::window_blocks(blocks, seg, b, c, n)
            == source::window_blocks(blocks, seg, a, c, n),
        source::window_decoded(blocks, seg, a, b, n) + source::window_decoded(
            blocks,
            seg,
            b,
            c,
            n,
        ) == source::window_decoded(blocks, seg, a, c, n),
    decreases n,
{
    if n > 0 {
        lemma_window_join(blocks, seg, a, b, c, (n - 1) as nat);
    }
}

proof fn lemma_window_none(blocks: Seq<BlockView>, seg: u32, a: u64, n: nat)
    ensures
        source::window_blocks(blocks, seg, a, a, n) == 0,
        source::window_decoded(blocks, seg, a, a, n) == 0,
    decreases n,
{
    if n > 0 {
        lemma_window_none(blocks, seg, a, (n - 1) as nat);
    }
}

/// What the full windows of a segment find, before the last.
proof fn lemma_full_found(e: EnvView, k: int, n: nat)
    requires
        0 <= k < e.current.fold.segments.len(),
        n <= e.current.fold.blocks.len(),
        laid_out(e.current.fold.segments, e.current.fold.blocks),
    ensures
        ({
            let f = e.current.fold;
            let (seg, len) = f.segments[k];
            let (full, start, end) = source::frames_among(f.blocks, seg, n);
            &&& SEG_HDR_LEN <= start <= end
            &&& end == artifact::frames_end(f.blocks, seg, n)
            &&& end > SEG_HDR_LEN ==> exists|i: int|
                0 <= i < n && (#[trigger] f.blocks[i]).segment == seg && f.blocks[i].end == end
            &&& source_counts::sum_units(e, full) == (Found {
                segments: 0,
                blocks: source::window_blocks(f.blocks, seg, SEG_HDR_LEN, start, f.blocks.len()),
                fold_bytes: source::window_decoded(
                    f.blocks,
                    seg,
                    SEG_HDR_LEN,
                    start,
                    f.blocks.len(),
                ),
                ..source::nothing()
            })
        }),
    decreases n,
{
    let f = e.current.fold;
    let (seg, len) = f.segments[k];
    if n == 0 {
        lemma_window_none(f.blocks, seg, SEG_HDR_LEN, f.blocks.len());
    } else {
        lemma_full_found(e, k, (n - 1) as nat);
        let (before, start, end) = source::frames_among(f.blocks, seg, (n - 1) as nat);
        let b = f.blocks[n - 1];
        if b.segment == seg {
            assert(lies(f.segments, b));
            let h = choose|h: int|
                0 <= h < f.segments.len() && (#[trigger] f.segments[h]).0 == b.segment
                    && SEG_HDR_LEN < b.end <= f.segments[h].1;
            assert(h == k) by {
                if h < k {
                    assert(f.segments[h].0 != f.segments[k].0);
                } else if k < h {
                    assert(f.segments[k].0 != f.segments[h].0);
                }
            }
            if end > SEG_HDR_LEN {
                let i = choose|i: int|
                    0 <= i < n - 1 && (#[trigger] f.blocks[i]).segment == seg && f.blocks[i].end
                        == end;
                assert(f.blocks[i].end < f.blocks[n - 1].end);
            }
            assert(end < b.end <= len);
            if end - start >= crate::store::verify::WINDOW_BYTES {
                let u = UnitView::FoldFrames { seg, start, stop: end };
                assert(before.push(u) =~= before + seq![u]);
                source_counts::lemma_sum_add(e, before, seq![u]);
                source_counts::lemma_sum_one(e, u);
                lemma_segment_len(f.segments, k);
                lemma_window_join(f.blocks, seg, SEG_HDR_LEN, start, end, f.blocks.len());
            }
        }
    }
}

/// What all windows of a segment find: its blocks, and itself.
proof fn lemma_segment_found(e: EnvView, k: int)
    requires
        0 <= k < e.current.fold.segments.len(),
        laid_out(e.current.fold.segments, e.current.fold.blocks),
        artifact::frames_fault(e.current.fold, e.current.fold.segments.len()) is None,
    ensures
        ({
            let f = e.current.fold;
            let (seg, len) = f.segments[k];
            source_counts::sum_units(e, source::segment_units(f.blocks, seg, len)) == (Found {
                segments: 1,
                blocks: source::window_blocks(f.blocks, seg, SEG_HDR_LEN, len, f.blocks.len()),
                fold_bytes: source::window_decoded(
                    f.blocks,
                    seg,
                    SEG_HDR_LEN,
                    len,
                    f.blocks.len(),
                ),
                ..source::nothing()
            })
        }),
{
    let f = e.current.fold;
    let (seg, len) = f.segments[k];
    lemma_full_found(e, k, f.blocks.len());
    lemma_frames_fault_each(f, f.segments.len(), k);
    lemma_segment_len(f.segments, k);
    let (full, start, end) = source::frames_among(f.blocks, seg, f.blocks.len());
    let u = source::segment_units(f.blocks, seg, len).last();
    assert(u == UnitView::FoldFrames { seg, start, stop: len });
    assert(full.push(u) =~= full + seq![u]);
    source_counts::lemma_sum_add(e, full, seq![u]);
    source_counts::lemma_sum_one(e, u);
    lemma_window_join(f.blocks, seg, SEG_HDR_LEN, start, len, f.blocks.len());
}

/// How many of the first `n` blocks lie in the first `m` segments.
spec fn blocks_in(f: FoldView, m: nat, n: nat) -> nat
    decreases m,
{
    if m == 0 {
        0
    } else {
        blocks_in(f, (m - 1) as nat, n) + source::window_blocks(
            f.blocks,
            f.segments[m - 1].0,
            SEG_HDR_LEN,
            f.segments[m - 1].1,
            n,
        )
    }
}

/// How many bytes those decode to.
spec fn bytes_in(f: FoldView, m: nat, n: nat) -> nat
    decreases m,
{
    if m == 0 {
        0
    } else {
        bytes_in(f, (m - 1) as nat, n) + source::window_decoded(
            f.blocks,
            f.segments[m - 1].0,
            SEG_HDR_LEN,
            f.segments[m - 1].1,
            n,
        )
    }
}

proof fn lemma_blocks_step(f: FoldView, m: nat, n: nat, h: int)
    requires
        m <= f.segments.len(),
        0 < n <= f.blocks.len(),
        laid_out(f.segments, f.blocks),
        0 <= h < f.segments.len(),
        f.segments[h].0 == f.blocks[n - 1].segment,
        SEG_HDR_LEN < f.blocks[n - 1].end <= f.segments[h].1,
    ensures
        blocks_in(f, m, n) == blocks_in(f, m, (n - 1) as nat) + (if h < m {
            1nat
        } else {
            0
        }),
        bytes_in(f, m, n) == bytes_in(f, m, (n - 1) as nat) + (if h < m {
            f.blocks[n - 1].bytes.len()
        } else {
            0
        }),
    decreases m,
{
    if m > 0 {
        lemma_blocks_step(f, (m - 1) as nat, n, h);
        if h < m - 1 {
            assert(f.segments[h].0 != f.segments[m - 1].0);
        } else if m - 1 < h {
            assert(f.segments[m - 1].0 != f.segments[h].0);
        }
    }
}

proof fn lemma_nothing_in(f: FoldView, m: nat)
    ensures
        blocks_in(f, m, 0) == 0,
        bytes_in(f, m, 0) == 0,
    decreases m,
{
    if m > 0 {
        lemma_nothing_in(f, (m - 1) as nat);
    }
}

/// Every block lies in exactly one segment.
proof fn lemma_all_blocks(f: FoldView, n: nat)
    requires
        n <= f.blocks.len(),
        laid_out(f.segments, f.blocks),
    ensures
        blocks_in(f, f.segments.len(), n) == n,
        bytes_in(f, f.segments.len(), n) == artifact::decoded_bytes(f.blocks, n),
    decreases n,
{
    if n == 0 {
        lemma_nothing_in(f, f.segments.len());
    } else {
        lemma_all_blocks(f, (n - 1) as nat);
        let b = f.blocks[n - 1];
        assert(lies(f.segments, b));
        let h = choose|h: int|
            0 <= h < f.segments.len() && (#[trigger] f.segments[h]).0 == b.segment && SEG_HDR_LEN
                < b.end <= f.segments[h].1;
        lemma_blocks_step(f, f.segments.len(), n, h);
    }
}

proof fn lemma_frames_sum(e: EnvView, m: nat)
    requires
        m <= e.current.fold.segments.len(),
        laid_out(e.current.fold.segments, e.current.fold.blocks),
        artifact::frames_fault(e.current.fold, e.current.fold.segments.len()) is None,
    ensures
        source_counts::sum_units(e, source::frame_units(e.current.fold, m)) == (Found {
            segments: m,
            blocks: blocks_in(e.current.fold, m, e.current.fold.blocks.len()),
            fold_bytes: bytes_in(e.current.fold, m, e.current.fold.blocks.len()),
            ..source::nothing()
        }),
    decreases m,
{
    let f = e.current.fold;
    if m > 0 {
        lemma_frames_sum(e, (m - 1) as nat);
        lemma_segment_found(e, m - 1);
        source_counts::lemma_sum_add(
            e,
            source::frame_units(f, (m - 1) as nat),
            source::segment_units(f.blocks, f.segments[m - 1].0, f.segments[m - 1].1),
        );
    }
}

/// What the frame windows of a fold find together is what one walk over the fold counts.
pub proof fn lemma_frames_found(e: EnvView)
    requires
        laid_out(e.current.fold.segments, e.current.fold.blocks),
        artifact::frames_fault(e.current.fold, e.current.fold.segments.len()) is None,
    ensures
        ({
            let f = e.current.fold;
            source_counts::sum_units(e, source::frame_units(f, f.segments.len())) == (Found {
                segments: f.segments.len(),
                blocks: f.blocks.len(),
                fold_bytes: artifact::decoded_bytes(f.blocks, f.blocks.len()),
                ..source::nothing()
            })
        }),
{
    let f = e.current.fold;
    lemma_frames_sum(e, f.segments.len());
    lemma_all_blocks(f, f.blocks.len());
}

} // verus!
