//! Laws of what a unit of verification reads: the frames of every block it needs, the sections it
//! decodes, and nothing of what was given up.

use crate::bytes;
use crate::container::MemberView;
use crate::fold;
use crate::fold::{BlockView, FoldView, Loc};
use crate::part::PartView;
use crate::store::footprint;
use crate::store::footprint::{LayoutView, ReadView, SectionView};
use crate::store::liveness;
use crate::store::names::SEG_HDR_LEN;
use crate::store::namespace;
use crate::store::open::ReadStoreView;
use crate::store::punch_laws;
use crate::store::sum_laws;
use vstd::prelude::*;
use vstd::utf8::*;

verus! {

/// The blocks that are needed are those of the locations, but for those given up, each once.
pub proof fn lemma_needed(f: FoldView, locs: Seq<Loc>, n: nat)
    requires
        n <= locs.len(),
    ensures
        footprint::needed(f, locs, n).no_duplicates(),
        forall|id: u32| #[trigger]
            footprint::needed(f, locs, n).contains(id) <==> !fold::in_ranges(f.punched, id)
                && exists|i: int| 0 <= i < n && (#[trigger] locs[i]).block_id == id,
    decreases n,
{
    if n > 0 {
        let m = (n - 1) as nat;
        lemma_needed(f, locs, m);
        let before = footprint::needed(f, locs, m);
        let out = footprint::needed(f, locs, n);
        let last = locs[n - 1].block_id;
        assert forall|id: u32| #[trigger] out.contains(id) <==> !fold::in_ranges(f.punched, id)
            && exists|i: int| 0 <= i < n && (#[trigger] locs[i]).block_id == id by {
            if before.contains(id) {
                let i = choose|i: int| 0 <= i < m && (#[trigger] locs[i]).block_id == id;
                assert(locs[i].block_id == id);
                let k = choose|k: int| 0 <= k < before.len() && before[k] == id;
                assert(out[k] == id);
            }
            if out.contains(id) && !before.contains(id) {
                let k = choose|k: int| 0 <= k < out.len() && out[k] == id;
                if k < before.len() {
                    assert(before[k] == id);
                }
                assert(locs[n - 1].block_id == id);
            }
            if !fold::in_ranges(f.punched, id) && exists|i: int|
                0 <= i < n && (#[trigger] locs[i]).block_id == id {
                let i = choose|i: int| 0 <= i < n && (#[trigger] locs[i]).block_id == id;
                if i < m {
                    assert(locs[i].block_id == id);
                    assert(before.contains(id));
                } else if !before.contains(id) {
                    assert(out[before.len() as int] == id);
                }
            }
        }
    }
}

proof fn lemma_blocks_inside(f: FoldView, ids: Seq<u32>, n: nat)
    requires
        n <= ids.len(),
    ensures
        footprint::block_fault(f, ids, n) is None <==> forall|i: int|
            0 <= i < n ==> #[trigger] ids[i] < f.blocks.len(),
    decreases n,
{
    if n > 0 {
        lemma_blocks_inside(f, ids, (n - 1) as nat);
    }
}

/// A frame begins where the frame before it in its segment ends, and the first one behind the
/// segment's header.
pub proof fn lemma_frame_start(blocks: Seq<BlockView>, seg: u32, n: nat)
    requires
        n <= blocks.len(),
    ensures
        ({
            let at = footprint::frame_start(blocks, seg, n);
            ||| at == SEG_HDR_LEN && forall|b: int|
                0 <= b < n ==> (#[trigger] blocks[b]).segment != seg
            ||| exists|b: int|
                0 <= b < n && (#[trigger] blocks[b]).segment == seg && blocks[b].end == at
                    && forall|a: int| b < a < n ==> (#[trigger] blocks[a]).segment != seg
        }),
    decreases n,
{
    if n > 0 {
        if blocks[n - 1].segment == seg {
            assert(blocks[n - 1].end == footprint::frame_start(blocks, seg, n));
        } else {
            lemma_frame_start(blocks, seg, (n - 1) as nat);
            let at = footprint::frame_start(blocks, seg, (n - 1) as nat);
            if exists|b: int|
                0 <= b < n - 1 && (#[trigger] blocks[b]).segment == seg && blocks[b].end == at
                    && forall|a: int| b < a < n - 1 ==> (#[trigger] blocks[a]).segment != seg {
                let b = choose|b: int|
                    0 <= b < n - 1 && (#[trigger] blocks[b]).segment == seg && blocks[b].end == at
                        && forall|a: int| b < a < n - 1 ==> (#[trigger] blocks[a]).segment != seg;
                assert(blocks[b].segment == seg);
            }
        }
    }
}

/// Whether a section holds part of a dictionary, or, where contents are decoded, of a value.
pub open spec fn decoded(name: Seq<char>, content: bool) -> bool {
    ||| bytes::starts_with(encode_utf8(name), encode_utf8("pdict."@))
    ||| content && (name == "cmeta"@ || bytes::starts_with(
        encode_utf8(name),
        encode_utf8("con."@),
    ))
}

/// The sections that are read are those that are decoded, whole and in order.
pub proof fn lemma_section_reads(
    member: Seq<char>,
    sections: Seq<SectionView>,
    content: bool,
    n: nat,
)
    requires
        n <= sections.len(),
    ensures
        footprint::section_reads(member, sections, content, n) == sections.take(n as int).filter(
            |s: SectionView| decoded(s.name, content),
        ).map_values(|s: SectionView| ReadView { member, off: s.off, len: s.stored }),
    decreases n,
{
    reveal(Seq::filter);
    let keep = |s: SectionView| decoded(s.name, content);
    let as_read = |s: SectionView| ReadView { member, off: s.off, len: s.stored };
    let now = sections.take(n as int);
    if n > 0 {
        let m = (n - 1) as nat;
        lemma_section_reads(member, sections, content, m);
        assert(now.drop_last() =~= sections.take(m as int));
        assert(now.last() == sections[n - 1]);
        let before = sections.take(m as int).filter(keep);
        assert(before.push(sections[n - 1]).map_values(as_read) =~= before.map_values(
            as_read,
        ).push(as_read(sections[n - 1])));
    } else {
        assert(now =~= Seq::<SectionView>::empty());
        assert(Seq::<SectionView>::empty().map_values(as_read) =~= Seq::<ReadView>::empty());
    }
}

/// The manifests that are read are the current one and every retained one, whole and in order.
pub proof fn lemma_manifest_reads(ms: Seq<MemberView>, n: nat)
    requires
        n <= ms.len(),
    ensures
        footprint::manifest_reads(ms, n) == ms.take(n as int).filter(
            |m: MemberView| m.name == "MANIFEST"@ || namespace::claims_retained(m.name),
        ).map_values(
            |m: MemberView| ReadView { member: m.name, off: 0, len: m.bytes.len() as u64 },
        ),
    decreases n,
{
    reveal(Seq::filter);
    let keep = |m: MemberView| m.name == "MANIFEST"@ || namespace::claims_retained(m.name);
    let as_read = |m: MemberView| ReadView { member: m.name, off: 0, len: m.bytes.len() as u64 };
    let now = ms.take(n as int);
    if n > 0 {
        let k = (n - 1) as nat;
        lemma_manifest_reads(ms, k);
        assert(now.drop_last() =~= ms.take(k as int));
        assert(now.last() == ms[n - 1]);
        let before = ms.take(k as int).filter(keep);
        assert(before.push(ms[n - 1]).map_values(as_read) =~= before.map_values(as_read).push(
            as_read(ms[n - 1]),
        ));
    } else {
        assert(now =~= Seq::<MemberView>::empty());
        assert(Seq::<MemberView>::empty().map_values(as_read) =~= Seq::<ReadView>::empty());
    }
}

/// What is read of a part: the sections that are decoded, and then the frame of each block that a
/// location lies in and that was not given up, each once. A block outside the fold is refused.
pub proof fn lemma_part_reads(
    s: ReadStoreView,
    member: Seq<char>,
    sections: Seq<SectionView>,
    content: bool,
    locs: Seq<Loc>,
)
    ensures
        ({
            let ids = footprint::needed(s.fold, locs, locs.len());
            let first = footprint::section_reads(member, sections, content, sections.len());
            match footprint::part_reads(s, member, sections, content, locs) {
                Ok(r) => {
                    &&& r.len() == first.len() + ids.len()
                    &&& r.take(first.len() as int) == first
                    &&& forall|k: int|
                        0 <= k < ids.len() ==> r[first.len() + k] == footprint::frame_read(
                            s,
                            #[trigger] ids[k],
                        ) && ids[k] < s.fold.blocks.len()
                },
                Err(_) => exists|i: int|
                    0 <= i < locs.len() && !fold::in_ranges(
                        s.fold.punched,
                        (#[trigger] locs[i]).block_id,
                    ) && locs[i].block_id >= s.fold.blocks.len(),
            }
        }),
{
    let ids = footprint::needed(s.fold, locs, locs.len());
    lemma_needed(s.fold, locs, locs.len());
    lemma_blocks_inside(s.fold, ids, ids.len());
    let first = footprint::section_reads(member, sections, content, sections.len());
    match footprint::part_reads(s, member, sections, content, locs) {
        Ok(r) => {
            assert(r.take(first.len() as int) =~= first);
        },
        Err(_) => {
            let k = choose|k: int| 0 <= k < ids.len() && #[trigger] ids[k] >= s.fold.blocks.len();
            assert(ids.contains(ids[k]));
            let i = choose|i: int|
                0 <= i < locs.len() && (#[trigger] locs[i]).block_id == ids[k];
            assert(locs[i].block_id >= s.fold.blocks.len());
        },
    }
}

/// A frame's read covers it: from where it begins to where it ends, in its own segment.
pub proof fn lemma_frame_read(s: ReadStoreView, id: u32)
    requires
        id < s.fold.blocks.len(),
        footprint::frame_start(
            s.fold.blocks,
            s.fold.blocks[id as int].segment,
            id as nat,
        ) <= s.fold.blocks[id as int].end,
    ensures
        ({
            let b = s.fold.blocks[id as int];
            let r = footprint::frame_read(s, id);
            &&& r.off == footprint::frame_start(s.fold.blocks, b.segment, id as nat)
            &&& r.off + r.len == b.end
            &&& r.member == crate::text::chars(
                crate::store::names::segment_name(s.manifest.fold_gen, b.segment),
            )
        }),
{
}

/// The locations that rows use are those that a program of one of them reaches, each once.
pub proof fn lemma_window_locs(p: PartView, rows: Seq<usize>, n: nat)
    requires
        n <= rows.len(),
    ensures
        footprint::window_locs(p, rows, n).no_duplicates(),
        forall|loc: Loc| #[trigger]
            footprint::window_locs(p, rows, n).contains(loc) <==> exists|i: int|
                0 <= i < n && #[trigger] row_uses(p, rows[i], loc),
    decreases n,
{
    if n > 0 {
        let m = (n - 1) as nat;
        lemma_window_locs(p, rows, m);
        let before = footprint::window_locs(p, rows, m);
        let out = footprint::window_locs(p, rows, n);
        let contents = footprint::row_contents(p, rows[n - 1]);
        punch_laws::lemma_contents_from(p.pieces, contents, contents.len(), before);
        liveness::lemma_contents_keep(p.pieces, contents, contents.len(), before);
        assert forall|loc: Loc| #[trigger] out.contains(loc) <==> exists|i: int|
            0 <= i < n && #[trigger] row_uses(p, rows[i], loc) by {
            if before.contains(loc) {
                let i = choose|i: int| 0 <= i < m && #[trigger] row_uses(p, rows[i], loc);
                assert(row_uses(p, rows[i], loc));
            }
            if punch_laws::contents_from(p.pieces, contents, contents.len(), loc) {
                assert(row_uses(p, rows[n - 1], loc));
            }
            if exists|i: int| 0 <= i < n && #[trigger] row_uses(p, rows[i], loc) {
                let i = choose|i: int| 0 <= i < n && #[trigger] row_uses(p, rows[i], loc);
                if i < m {
                    assert(before.contains(loc));
                } else {
                    let c = choose|c: int|
                        0 <= c < contents.len() && punch_laws::program_from(
                            p.pieces,
                            (#[trigger] contents[c]).ops,
                            contents[c].ops.len(),
                            loc,
                        );
                    let ops = contents[c].ops;
                    let k = choose|k: int|
                        0 <= k < ops.len() && (#[trigger] ops[k] matches crate::types::OpView::Piece {
                            hash,
                            len: _,
                        } && crate::part::find_loc(p.pieces, hash) == Some(loc));
                    liveness::lemma_contents_reach(
                        p.pieces,
                        contents,
                        contents.len(),
                        before,
                        c,
                        k,
                        loc,
                    );
                }
            }
        }
    }
}

/// Whether a program of a row's record reaches a location.
pub open spec fn row_uses(p: PartView, row: usize, loc: Loc) -> bool {
    let contents = match p.rows[row as int].record {
        Some(r) => r.contents,
        None => Seq::empty(),
    };
    punch_laws::contents_from(p.pieces, contents, contents.len(), loc)
}

/// A byte of the file is touched exactly where one of the reads touches it.
pub proof fn lemma_touched(
    ms: Seq<MemberView>,
    layout: Seq<LayoutView>,
    reads: Seq<ReadView>,
    n: nat,
    x: int,
)
    ensures
        footprint::touched(ms, layout, reads, n, x) <==> exists|k: int|
            0 <= k < n && footprint::read_touches(ms, layout, #[trigger] reads[k], x),
    decreases n,
{
    if n > 0 {
        lemma_touched(ms, layout, reads, (n - 1) as nat, x);
        if footprint::touched(ms, layout, reads, n, x) {
            if footprint::touched(ms, layout, reads, (n - 1) as nat, x) {
                let k = choose|k: int|
                    0 <= k < n - 1 && footprint::read_touches(ms, layout, #[trigger] reads[k], x);
                assert(footprint::read_touches(ms, layout, reads[k], x));
            } else {
                assert(footprint::read_touches(ms, layout, reads[n - 1], x));
            }
        }
        if exists|k: int|
            0 <= k < n && footprint::read_touches(ms, layout, #[trigger] reads[k], x) {
            let k = choose|k: int|
                0 <= k < n && footprint::read_touches(ms, layout, #[trigger] reads[k], x);
            if k < n - 1 {
                assert(footprint::read_touches(ms, layout, reads[k], x));
            }
        }
    }
}

/// How many bytes the first `n` extents hold.
pub open spec fn held_by(extents: Seq<(u64, u64)>, n: nat) -> nat {
    sum_laws::sum(n, |i: int| extents[i].1 as nat)
}

/// A member's bytes lie in its extents, one after another: a byte is in the first extent that the
/// extents before it do not already account for.
pub proof fn lemma_address(extents: Seq<(u64, u64)>, p: int) -> (k: int)
    ensures
        footprint::address(extents, p) matches Some(x) ==> lies_in(extents, p, x, k),
        footprint::address(extents, p) is None ==> p < 0 || p >= held_by(extents, extents.len()),
    decreases extents.len(),
{
    let each = |i: int| extents[i].1 as nat;
    sum_laws::lemma_sum(0, each);
    assert(held_by(extents, 0) == 0);
    if extents.len() == 0 || p < 0 || p < extents[0].1 {
        0
    } else {
        let rest = extents.drop_first();
        let k = lemma_address(rest, p - extents[0].1);
        if footprint::address(extents, p) is Some {
            lemma_held_by_first(extents, k as nat);
            assert(rest[k] == extents[k + 1]);
            assert((k + 1) as nat == (k as nat) + 1);
        } else {
            lemma_held_by_first(extents, rest.len());
            assert(rest.len() + 1 == extents.len());
            assert(held_by(extents, extents.len()) == held_by(extents, rest.len() + 1));
        }
        k + 1
    }
}

/// Whether byte `p` of a member is byte `x` of the file, in extent `k`.
pub open spec fn lies_in(extents: Seq<(u64, u64)>, p: int, x: int, k: int) -> bool {
    &&& 0 <= k < extents.len()
    &&& held_by(extents, k as nat) <= p < held_by(extents, k as nat) + extents[k].1
    &&& x == extents[k].0 + (p - held_by(extents, k as nat))
}

proof fn lemma_held_by_first(extents: Seq<(u64, u64)>, n: nat)
    requires
        n < extents.len(),
    ensures
        held_by(extents, n + 1) == extents[0].1 + held_by(extents.drop_first(), n),
    decreases n,
{
    let rest = extents.drop_first();
    let each = |i: int| extents[i].1 as nat;
    let later = |i: int| rest[i].1 as nat;
    sum_laws::lemma_sum(n, each);
    if n > 0 {
        let m = (n - 1) as nat;
        lemma_held_by_first(extents, m);
        sum_laws::lemma_sum(m, later);
        assert(rest[m as int] == extents[n as int]);
    } else {
        sum_laws::lemma_sum(0, each);
        sum_laws::lemma_sum(0, later);
    }
}

} // verus!
