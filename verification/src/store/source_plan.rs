//! Planning a verification: from a container and its authorities to the list of units.

use crate::bytes;
use crate::container;
use crate::container::Container;
use crate::fold;
use crate::part;
use crate::store::manifest;
use crate::store::manifest::{Manifest, PartRef};
use crate::store::members;
use crate::store::names;
use crate::store::names::SEG_HDR_LEN;
use crate::store::namespace;
use crate::store::open::{ReadStore, ReadStoreView};
use crate::store::read;
use crate::store::scan;
use crate::store::source;
use crate::store::source::{EnvView, UnitView, VerifyUnit};
use crate::store::verify;
use crate::store::verify::{Authority, WINDOW_BYTES};
use crate::text;
use vstd::prelude::*;
use vstd::utf8::*;

verus! {

/// A retained revision and its view.
#[derive(Debug, PartialEq, Eq)]
pub struct RetainedAuthority {
    pub commit: u64,
    pub store: ReadStore,
}

/// Views of retained revisions.
pub open spec fn retained_view(v: Seq<RetainedAuthority>) -> Seq<(u64, ReadStoreView)> {
    Seq::new(v.len(), |i: int| (v[i].commit, v[i].store@))
}

/// Whether some revision names a part.
pub open spec fn named_anywhere(e: EnvView, name: Seq<char>) -> bool {
    namespace::names_part(e.current.manifest, name) || exists|k: int|
        0 <= k < e.retained.len() && namespace::names_part(
            (#[trigger] e.retained[k]).1.manifest,
            name,
        )
}

fn push_unit(out: &mut Vec<VerifyUnit>, u: VerifyUnit)
    ensures
        source::units_view(final(out)@) == source::units_view(old(out)@).push(u@),
{
    let ghost before = out@;
    let ghost v = u@;
    out.push(u);
    assert(source::units_view(out@) =~= source::units_view(before).push(v));
}

/// Whether a member's recorded checksum no longer applies.
pub fn is_exempt(s: &ReadStore, name: &str) -> (r: bool)
    ensures
        r == source::exempt(s@, name@),
{
    let ghost v = s@;
    let mut i: usize = 0;
    while i < s.fold.blocks.len() && i <= u32::MAX as usize
        invariant
            v == s@,
            i <= s.fold.blocks@.len(),
            i <= u32::MAX + 1,
            forall|k: int|
                0 <= k < i ==> !(k <= u32::MAX && fold::in_ranges(v.fold.punched, k as u32) && name@
                    == text::chars(
                    names::segment_name(v.manifest.fold_gen, (#[trigger] v.fold.blocks[k]).segment),
                )),
        decreases s.fold.blocks.len() - i,
    {
        assert(v.fold.blocks[i as int] == s.fold.blocks@[i as int]@);
        if s.fold.is_punched(i as u32) {
            let own = names::segment_member(s.manifest.fold_gen, s.fold.blocks[i].segment);
            if bytes::str_eq(own.as_str(), name) {
                assert(name@ == text::chars(
                    names::segment_name(
                        v.manifest.fold_gen,
                        v.fold.blocks[i as int].segment,
                    ),
                ));
                return true;
            }
        }
        if i == u32::MAX as usize {
            return false;
        }
        i = i + 1;
    }
    false
}

fn add_checksums(out: &mut Vec<VerifyUnit>, member: &String, len: u64)
    ensures
        source::units_view(final(out)@) == source::units_view(old(out)@) + source::checksum_units(
            member@,
            verify::windows_of(0, len),
        ),
{
    let windows = verify::windows(0, len);
    let ghost before = source::units_view(out@);
    let ghost all = source::checksum_units(member@, windows@);
    let mut i: usize = 0;
    assert(source::units_view(out@) =~= before + all.take(0));
    while i < windows.len()
        invariant
            all == source::checksum_units(member@, windows@),
            i <= windows@.len(),
            source::units_view(out@) == before + all.take(i as int),
        decreases windows.len() - i,
    {
        let (start, stop) = windows[i];
        push_unit(out, VerifyUnit::MemberChecksum { member: member.clone(), start, stop });
        proof {
            assert(all.take(i + 1) =~= all.take(i as int).push(all[i as int]));
            assert(before + all.take(i + 1) =~= (before + all.take(i as int)).push(all[i as int]));
        }
        i = i + 1;
    }
    assert(all.take(windows@.len() as int) =~= all);
}

fn add_digests(out: &mut Vec<VerifyUnit>, member: &String, len: u64)
    ensures
        source::units_view(final(out)@) == source::units_view(old(out)@) + source::digest_units(
            member@,
            verify::windows_of(0, len),
        ),
{
    let windows = verify::windows(0, len);
    let ghost before = source::units_view(out@);
    let ghost all = source::digest_units(member@, windows@);
    let mut i: usize = 0;
    assert(source::units_view(out@) =~= before + all.take(0));
    while i < windows.len()
        invariant
            all == source::digest_units(member@, windows@),
            i <= windows@.len(),
            source::units_view(out@) == before + all.take(i as int),
        decreases windows.len() - i,
    {
        let (start, stop) = windows[i];
        push_unit(out, VerifyUnit::PartDigest { member: member.clone(), start, stop });
        proof {
            assert(all.take(i + 1) =~= all.take(i as int).push(all[i as int]));
            assert(before + all.take(i + 1) =~= (before + all.take(i as int)).push(all[i as int]));
        }
        i = i + 1;
    }
    assert(all.take(windows@.len() as int) =~= all);
}

fn add_sections(out: &mut Vec<VerifyUnit>, member: &String, n: usize)
    ensures
        source::units_view(final(out)@) == source::units_view(old(out)@) + source::section_units(
            member@,
            n as nat,
        ),
{
    let ghost before = source::units_view(out@);
    let ghost all = source::section_units(member@, n as nat);
    let mut i: usize = 0;
    assert(source::units_view(out@) =~= before + all.take(0));
    while i < n
        invariant
            all == source::section_units(member@, n as nat),
            i <= n,
            source::units_view(out@) == before + all.take(i as int),
        decreases n - i,
    {
        push_unit(out, VerifyUnit::PartSection { member: member.clone(), section: i });
        proof {
            assert(all.take(i + 1) =~= all.take(i as int).push(all[i as int]));
            assert(before + all.take(i + 1) =~= (before + all.take(i as int)).push(all[i as int]));
        }
        i = i + 1;
    }
    assert(all.take(n as int) =~= all);
}

fn add_members(out: &mut Vec<VerifyUnit>, c: &Container, current: &ReadStore, Ghost(e): Ghost<EnvView>)
    requires
        e.c == c@,
        e.current == current@,
    ensures
        source::units_view(final(out)@) == source::units_view(old(out)@) + source::member_units(
            e,
            e.c.members.len(),
        ),
{
    let ghost before = source::units_view(out@);
    let mut i: usize = 0;
    assert(source::units_view(out@) =~= before + source::member_units(e, 0));
    while i < c.members.len()
        invariant
            e.c == c@,
            e.current == current@,
            i <= c.members@.len(),
            source::units_view(out@) == before + source::member_units(e, i as nat),
        decreases c.members.len() - i,
    {
        assert(e.c.members[i as int] == c.members@[i as int]@);
        if !is_exempt(current, c.members[i].name.as_str()) {
            let ghost so_far = source::units_view(out@);
            add_checksums(out, &c.members[i].name, c.members[i].bytes.len() as u64);
            proof {
                let m = e.c.members[i as int];
                let more = source::checksum_units(
                    m.name,
                    verify::windows_of(0, m.bytes.len() as u64),
                );
                assert(before + source::member_units(e, (i + 1) as nat) =~= (before
                    + source::member_units(e, i as nat)) + more);
            }
        }
        i = i + 1;
    }
}

fn add_one_part(out: &mut Vec<VerifyUnit>, c: &Container, name: &String)
    ensures
        source::units_view(final(out)@) == source::units_view(old(out)@) + source::one_part_units(
            c@.members,
            name@,
        ),
{
    let ghost before = source::units_view(out@);
    proof {
        container::lemma_position_from(c@.members, name@, 0);
    }
    match c.find(name.as_str()) {
        None => {
            assert(before + source::one_part_units(c@.members, name@) =~= before);
        },
        Some(i) => {
            assert(c@.members[i as int] == c.members@[i as int]@);
            add_digests(out, name, c.members[i].bytes.len() as u64);
            let sections: usize = match &c.members[i].part {
                Some(p) => p.sections,
                None => 0,
            };
            add_sections(out, name, sections);
            push_unit(out, VerifyUnit::PartGrammar { member: name.clone() });
            proof {
                let d = source::digest_units(
                    name@,
                    verify::windows_of(0, c@.members[i as int].bytes.len() as u64),
                );
                let s = source::section_units(name@, sections as nat);
                let g = seq![UnitView::PartGrammar { member: name@ }];
                assert(((before + d) + s).push(UnitView::PartGrammar { member: name@ }) =~= before
                    + (d + s + g));
            }
        },
    }
}

fn add_parts(out: &mut Vec<VerifyUnit>, c: &Container, all: &Vec<String>, Ghost(e): Ghost<EnvView>)
    requires
        e.c == c@,
        e.names == scan::texts_view(all@),
    ensures
        source::units_view(final(out)@) == source::units_view(old(out)@) + source::part_units(
            e,
            e.names.len(),
        ),
{
    let ghost before = source::units_view(out@);
    let mut i: usize = 0;
    assert(source::units_view(out@) =~= before + source::part_units(e, 0));
    while i < all.len()
        invariant
            e.c == c@,
            e.names == scan::texts_view(all@),
            i <= all@.len(),
            source::units_view(out@) == before + source::part_units(e, i as nat),
        decreases all.len() - i,
    {
        assert(e.names[i as int] == all@[i as int]@);
        add_one_part(out, c, &all[i]);
        proof {
            let more = source::one_part_units(e.c.members, e.names[i as int]);
            assert(before + source::part_units(e, (i + 1) as nat) =~= (before + source::part_units(
                e,
                i as nat,
            )) + more);
        }
        i = i + 1;
    }
}

fn add_pieces(out: &mut Vec<VerifyUnit>, refs: &Vec<PartRef>, authority: Authority)
    ensures
        source::units_view(final(out)@) == source::units_view(old(out)@) + source::piece_units(
            manifest::refs_view(refs@),
            authority,
            refs@.len(),
        ),
{
    let ghost before = source::units_view(out@);
    let ghost rv = manifest::refs_view(refs@);
    let ghost all = source::piece_units(rv, authority, refs@.len());
    let mut i: usize = 0;
    assert(source::units_view(out@) =~= before + all.take(0));
    while i < refs.len()
        invariant
            rv == manifest::refs_view(refs@),
            all == source::piece_units(rv, authority, refs@.len()),
            i <= refs@.len(),
            source::units_view(out@) == before + all.take(i as int),
        decreases refs.len() - i,
    {
        assert(rv[i as int] == refs@[i as int]@);
        push_unit(out, VerifyUnit::PartPieces { member: refs[i].member.clone(), authority });
        proof {
            assert(all.take(i + 1) =~= all.take(i as int).push(all[i as int]));
            assert(before + all.take(i + 1) =~= (before + all.take(i as int)).push(all[i as int]));
        }
        i = i + 1;
    }
    assert(all.take(refs@.len() as int) =~= all);
}

fn add_segment(out: &mut Vec<VerifyUnit>, s: &ReadStore, seg: u32, len: u64)
    ensures
        source::units_view(final(out)@) == source::units_view(old(out)@) + source::segment_units(
            s@.fold.blocks,
            seg,
            len,
        ),
{
    let ghost before = source::units_view(out@);
    let ghost blocks = s@.fold.blocks;
    let mut start: u64 = SEG_HDR_LEN;
    let mut end: u64 = SEG_HDR_LEN;
    let mut i: usize = 0;
    assert(source::units_view(out@) =~= before + source::frames_among(blocks, seg, 0).0);
    while i < s.fold.blocks.len()
        invariant
            blocks == s@.fold.blocks,
            i <= s.fold.blocks@.len(),
            source::units_view(out@) == before + source::frames_among(blocks, seg, i as nat).0,
            start == source::frames_among(blocks, seg, i as nat).1,
            end == source::frames_among(blocks, seg, i as nat).2,
        decreases s.fold.blocks.len() - i,
    {
        assert(blocks[i as int] == s.fold.blocks@[i as int]@);
        if s.fold.blocks[i].segment == seg {
            if end >= start && end - start >= WINDOW_BYTES {
                push_unit(out, VerifyUnit::FoldFrames { seg, start, stop: end });
                proof {
                    let full = source::frames_among(blocks, seg, i as nat).0;
                    let u = UnitView::FoldFrames { seg, start, stop: end };
                    assert(before + full.push(u) =~= (before + full).push(u));
                }
                start = end;
            }
            end = s.fold.blocks[i].end;
        }
        i = i + 1;
    }
    let stop: u64 = if len > start {
        len
    } else {
        start
    };
    push_unit(out, VerifyUnit::FoldFrames { seg, start, stop });
    proof {
        let full = source::frames_among(blocks, seg, blocks.len()).0;
        let u = UnitView::FoldFrames { seg, start, stop };
        assert(before + full.push(u) =~= (before + full).push(u));
    }
}

fn add_frames(out: &mut Vec<VerifyUnit>, s: &ReadStore)
    ensures
        source::units_view(final(out)@) == source::units_view(old(out)@) + source::frame_units(
            s@.fold,
            s@.fold.segments.len(),
        ),
{
    let ghost before = source::units_view(out@);
    let ghost f = s@.fold;
    let mut i: usize = 0;
    assert(source::units_view(out@) =~= before + source::frame_units(f, 0));
    while i < s.fold.segments.len()
        invariant
            f == s@.fold,
            i <= s.fold.segments@.len(),
            source::units_view(out@) == before + source::frame_units(f, i as nat),
        decreases s.fold.segments.len() - i,
    {
        let (seg, len) = s.fold.segments[i];
        add_segment(out, s, seg, len);
        assert(before + source::frame_units(f, (i + 1) as nat) =~= (before + source::frame_units(
            f,
            i as nat,
        )) + source::segment_units(f.blocks, seg, len));
        i = i + 1;
    }
}

fn count_live(s: &ReadStore, p: usize) -> (r: usize)
    requires
        part::parts_sound(s@.parts),
        p < s@.parts.len(),
    ensures
        r == read::live_rows(s@.parts, p as int, s@.parts[p as int].rows.len()).len(),
        r <= s@.parts[p as int].rows.len(),
{
    let rows = live_rows_of(s, p);
    rows.len()
}

/// The visible rows of a part.
pub(crate) fn live_rows_of(s: &ReadStore, p: usize) -> (r: Vec<usize>)
    requires
        part::parts_sound(s@.parts),
        p < s@.parts.len(),
    ensures
        r@ == read::live_rows(s@.parts, p as int, s@.parts[p as int].rows.len()),
        r@.len() <= s@.parts[p as int].rows.len(),
        forall|i: int| 0 <= i < r@.len() ==> #[trigger] r@[i] < s@.parts[p as int].rows.len(),
{
    let ghost pv = s@.parts;
    let part = &s.parts[p];
    let mut out: Vec<usize> = Vec::new();
    let mut i: usize = 0;
    while i < part.rows.len()
        invariant
            pv == s@.parts,
            part::parts_sound(pv),
            p < s.parts@.len(),
            part@ == pv[p as int],
            i <= part.rows@.len(),
            out@.len() <= i,
            out@ == read::live_rows(pv, p as int, i as nat),
            forall|k: int| 0 <= k < out@.len() ==> #[trigger] out@[k] < i,
        decreases part.rows.len() - i,
    {
        assert(pv[p as int].rows[i as int] == part.rows@[i as int]@);
        if part.rows[i].record.is_some() && !read::newer_holds(
            &s.parts,
            p,
            part.rows[i].id.as_str(),
        ) {
            out.push(i);
        }
        i = i + 1;
    }
    out
}

fn add_content(out: &mut Vec<VerifyUnit>, s: &ReadStore, authority: Authority)
    requires
        part::parts_sound(s@.parts),
    ensures
        source::units_view(final(out)@) == source::units_view(old(out)@) + source::content_units(
            s@,
            authority,
            s@.parts.len(),
        ),
{
    let ghost before = source::units_view(out@);
    let ghost v = s@;
    let mut p: usize = 0;
    assert(source::units_view(out@) =~= before + source::content_units(v, authority, 0));
    while p < s.parts.len()
        invariant
            v == s@,
            part::parts_sound(v.parts),
            p <= s.parts@.len(),
            source::units_view(out@) == before + source::content_units(v, authority, p as nat),
        decreases s.parts.len() - p,
    {
        let n: usize = count_live(s, p);
        let windows = verify::row_windows(n);
        let ghost tiles = verify::row_windows_view(windows@);
        let ghost all = source::window_units(authority, p, tiles);
        let ghost so_far = source::units_view(out@);
        let mut i: usize = 0;
        assert(so_far =~= so_far + all.take(0));
        while i < windows.len()
            invariant
                tiles == verify::row_windows_view(windows@),
                all == source::window_units(authority, p, tiles),
                i <= windows@.len(),
                source::units_view(out@) == so_far + all.take(i as int),
            decreases windows.len() - i,
        {
            let (start, stop) = windows[i];
            assert(tiles[i as int] == (start as nat, stop as nat));
            push_unit(out, VerifyUnit::Content { authority, part: p, start, stop });
            proof {
                assert(all.take(i + 1) =~= all.take(i as int).push(all[i as int]));
                assert(so_far + all.take(i + 1) =~= (so_far + all.take(i as int)).push(
                    all[i as int],
                ));
            }
            i = i + 1;
        }
        proof {
            assert(all.take(windows@.len() as int) =~= all);
            assert(before + source::content_units(v, authority, (p + 1) as nat) =~= (before
                + source::content_units(v, authority, p as nat)) + all);
        }
        p = p + 1;
    }
}

fn add_retained(out: &mut Vec<VerifyUnit>, retained: &Vec<RetainedAuthority>, Ghost(e): Ghost<EnvView>)
    requires
        e.retained == retained_view(retained@),
        forall|k: int|
            0 <= k < retained@.len() ==> part::parts_sound((#[trigger] retained@[k]).store@.parts),
    ensures
        source::units_view(final(out)@) == source::units_view(old(out)@) + source::retained_units(
            e,
            e.retained.len(),
        ),
{
    let ghost before = source::units_view(out@);
    let mut i: usize = 0;
    assert(source::units_view(out@) =~= before + source::retained_units(e, 0));
    while i < retained.len()
        invariant
            e.retained == retained_view(retained@),
            forall|k: int|
                0 <= k < retained@.len() ==> part::parts_sound(
                    (#[trigger] retained@[k]).store@.parts,
                ),
            i <= retained@.len(),
            source::units_view(out@) == before + source::retained_units(e, i as nat),
        decreases retained.len() - i,
    {
        let ghost v = retained@[i as int].store@;
        assert(e.retained[i as int] == (retained@[i as int].commit, v));
        let a = Authority::Retained(retained[i].commit);
        add_pieces(out, &retained[i].store.manifest.parts, a);
        add_content(out, &retained[i].store, a);
        proof {
            let pieces = source::piece_units(v.manifest.parts, a, v.manifest.parts.len());
            let content = source::content_units(v, a, v.parts.len());
            assert(before + source::retained_units(e, (i + 1) as nat) =~= ((before
                + source::retained_units(e, i as nat)) + pieces) + content);
        }
        i = i + 1;
    }
}

/// The units of a verification.
pub(crate) fn plan(
    c: &Container,
    current: &ReadStore,
    retained: &Vec<RetainedAuthority>,
    all: &Vec<String>,
    Ghost(e): Ghost<EnvView>,
) -> (r: Vec<VerifyUnit>)
    requires
        e.c == c@,
        e.current == current@,
        e.retained == retained_view(retained@),
        e.names == scan::texts_view(all@),
        part::parts_sound(current@.parts),
        forall|k: int|
            0 <= k < retained@.len() ==> part::parts_sound((#[trigger] retained@[k]).store@.parts),
    ensures
        source::units_view(r@) == source::plan_of(e),
{
    let mut out: Vec<VerifyUnit> = Vec::new();
    assert(source::units_view(out@) =~= Seq::<UnitView>::empty());
    add_members(&mut out, c, current, Ghost(e));
    push_unit(&mut out, VerifyUnit::ManifestChain);
    add_parts(&mut out, c, all, Ghost(e));
    add_pieces(&mut out, &current.manifest.parts, Authority::Current);
    add_frames(&mut out, current);
    add_content(&mut out, current, Authority::Current);
    add_retained(&mut out, retained, Ghost(e));
    proof {
        reveal(source::plan_of);
        assert(source::units_view(out@) =~= source::plan_of(e));
    }
    out
}

/// Every part that some revision names, in order.
pub(crate) fn part_names(current: &ReadStore, retained: &Vec<RetainedAuthority>, Ghost(e): Ghost<EnvView>) -> (r: Vec<
    String,
>)
    requires
        e.current == current@,
        e.retained == retained_view(retained@),
    ensures
        scan::ascending(scan::texts_view(r@)),
        forall|x: Seq<char>| #[trigger]
            scan::texts_view(r@).contains(x) <==> named_anywhere(e, x),
{
    let mut all: Vec<String> = Vec::new();
    let ghost none = scan::texts_view(all@);
    add_names(&mut all, &current.manifest);
    let mut i: usize = 0;
    while i < retained.len()
        invariant
            e.current == current@,
            e.retained == retained_view(retained@),
            i <= retained@.len(),
            scan::ascending(scan::texts_view(all@)),
            forall|x: Seq<char>| #[trigger]
                scan::texts_view(all@).contains(x) <==> namespace::names_part(
                    e.current.manifest,
                    x,
                ) || exists|k: int|
                    0 <= k < i && namespace::names_part(
                        (#[trigger] e.retained[k]).1.manifest,
                        x,
                    ),
        decreases retained.len() - i,
    {
        let ghost before = scan::texts_view(all@);
        assert(e.retained[i as int].1 == retained@[i as int].store@);
        add_names(&mut all, &retained[i].store.manifest);
        proof {
            let after = scan::texts_view(all@);
            assert forall|x: Seq<char>| #[trigger] after.contains(x) <==> namespace::names_part(
                e.current.manifest,
                x,
            ) || exists|k: int|
                0 <= k < i + 1 && namespace::names_part(
                    (#[trigger] e.retained[k]).1.manifest,
                    x,
                ) by {
                if before.contains(x) && !namespace::names_part(e.current.manifest, x) {
                    let k = choose|k: int|
                        0 <= k < i && namespace::names_part(
                            (#[trigger] e.retained[k]).1.manifest,
                            x,
                        );
                    assert(namespace::names_part(e.retained[k].1.manifest, x));
                }
                if namespace::names_part(e.retained[i as int].1.manifest, x) {
                    assert(namespace::names_part(e.retained[i as int].1.manifest, x));
                }
            }
        }
        i = i + 1;
    }
    all
}

fn add_names(all: &mut Vec<String>, m: &Manifest)
    requires
        scan::ascending(scan::texts_view(old(all)@)),
    ensures
        scan::ascending(scan::texts_view(final(all)@)),
        forall|x: Seq<char>| #[trigger]
            scan::texts_view(final(all)@).contains(x) <==> scan::texts_view(old(all)@).contains(x)
                || namespace::names_part(m@, x),
{
    let ghost first = scan::texts_view(all@);
    let ghost refs = m@.parts;
    let mut i: usize = 0;
    while i < m.parts.len()
        invariant
            refs == m@.parts,
            i <= m.parts@.len(),
            scan::ascending(scan::texts_view(all@)),
            forall|x: Seq<char>| #[trigger]
                scan::texts_view(all@).contains(x) <==> first.contains(x) || exists|k: int|
                    0 <= k < i && (#[trigger] refs[k]).member == x,
        decreases m.parts.len() - i,
    {
        let ghost before = scan::texts_view(all@);
        assert(refs[i as int] == m.parts@[i as int]@);
        members::insert_text(all, m.parts[i].member.as_str());
        proof {
            let after = scan::texts_view(all@);
            assert forall|x: Seq<char>| #[trigger] after.contains(x) <==> first.contains(x)
                || exists|k: int| 0 <= k < i + 1 && (#[trigger] refs[k]).member == x by {
                if before.contains(x) && !first.contains(x) {
                    let k = choose|k: int| 0 <= k < i && (#[trigger] refs[k]).member == x;
                    assert(refs[k].member == x);
                }
                if refs[i as int].member == x {
                    assert(refs[i as int].member == x);
                }
            }
        }
        i = i + 1;
    }
}

} // verus!
