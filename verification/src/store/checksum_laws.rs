//! The checksums a verification by units holds and those the whole verification does.

use crate::bytes;
use crate::container;
use crate::container::MemberView;
use crate::hash;
use crate::read_limits::ReadLimits;
use crate::store::artifact;
use crate::store::chain;
use crate::store::checksum;
use crate::store::open;
use crate::store::open::TailRule;
use crate::store::source;
use crate::store::source::{EnvView, UnitView};
use crate::store::source_laws;
use crate::store::source_run;
use crate::store::verify;
use crate::store::verify::Authority;
use vstd::prelude::*;

verus! {

/// Every member whose recorded checksum applies has it.
pub open spec fn checksums_hold(e: EnvView) -> bool {
    forall|i: int|
        0 <= i < e.c.members.len() && !source::exempt(e.current, (#[trigger] e.c.members[i]).name)
            ==> hash::crc32_of(e.c.members[i].bytes) == e.c.members[i].checksum
}

/// In a container, a member is found under its name.
pub proof fn lemma_position(ms: Seq<MemberView>, i: int)
    requires
        container::names_ascending(ms),
        0 <= i < ms.len(),
    ensures
        container::position_of(ms, ms[i].name) == Some(i),
{
    container::lemma_position_from(ms, ms[i].name, 0);
    let j = container::position_of(ms, ms[i].name)->0;
    if j < i {
        assert(bytes::name_lt(ms[j].name, ms[i].name));
        bytes::lemma_name_order(ms[i].name, ms[i].name, ms[i].name);
    }
}

// ---------------------------------------------------------------------------------------------
// Checksums.
// ---------------------------------------------------------------------------------------------
proof fn lemma_member_planned(e: EnvView, n: nat, i: int, u: UnitView)
    requires
        0 <= i < n <= e.c.members.len(),
        !source::exempt(e.current, e.c.members[i].name),
        source::checksum_units(
            e.c.members[i].name,
            verify::windows_of(0, e.c.members[i].bytes.len() as u64),
        ).contains(u),
    ensures
        source::member_units(e, n).contains(u),
    decreases n,
{
    let m = e.c.members[n - 1];
    let before = source::member_units(e, (n - 1) as nat);
    let more = source::checksum_units(m.name, verify::windows_of(0, m.bytes.len() as u64));
    if i == n - 1 {
        source_laws::lemma_right(before, more, u);
    } else {
        lemma_member_planned(e, (n - 1) as nat, i, u);
        source_laws::lemma_left(before, more, u);
    }
}

/// Where every planned unit holds, so does every recorded checksum that applies.
pub proof fn lemma_checksums(e: EnvView)
    requires
        container::names_ascending(e.c.members),
        source_laws::sized(e),
        source_laws::all_hold(e),
    ensures
        checksums_hold(e),
{
    let ms = e.c.members;
    assert forall|i: int|
        0 <= i < ms.len() && !source::exempt(
            e.current,
            (#[trigger] ms[i]).name,
        ) implies hash::crc32_of(ms[i].bytes) == ms[i].checksum by {
        let len = ms[i].bytes.len() as u64;
        let windows = verify::windows_of(0, len);
        verify::lemma_tiles_cover(0, len, 0);
        let last = windows.len() - 1;
        assert(windows[last].1 == len);
        let u = UnitView::MemberChecksum {
            member: ms[i].name,
            start: windows[last].0,
            stop: windows[last].1,
        };
        assert(source::checksum_units(ms[i].name, windows)[last] == u);
        lemma_member_planned(e, ms.len(), i, u);
        lemma_in_plan(e, u);
        source_laws::lemma_holds(e, u);
        lemma_position(ms, i);
    }
}

/// What a plan is made of, and nothing else.
pub proof fn lemma_in_plan(e: EnvView, u: UnitView)
    ensures
        ({
            let refs = e.current.manifest.parts;
            let f = e.current.fold;
            source::plan_of(e).contains(u) <==> {
                ||| source::member_units(e, e.c.members.len()).contains(u)
                ||| u == UnitView::ManifestChain
                ||| source::part_units(e, e.names.len()).contains(u)
                ||| source::piece_units(refs, Authority::Current, refs.len()).contains(u)
                ||| source::frame_units(f, f.segments.len()).contains(u)
                ||| source::content_units(
                    e.current,
                    Authority::Current,
                    e.current.parts.len(),
                ).contains(u)
                ||| source::retained_units(e, e.retained.len()).contains(u)
            }
        }),
{
    reveal(source::plan_of);
    source_laws::lemma_planned(e, u);
    let refs = e.current.manifest.parts;
    let fold = e.current.fold;
    let m = source::member_units(e, e.c.members.len());
    let c = seq![UnitView::ManifestChain];
    let p = source::part_units(e, e.names.len());
    let d = source::piece_units(refs, Authority::Current, refs.len());
    let f = source::frame_units(fold, fold.segments.len());
    let v = source::content_units(e.current, Authority::Current, e.current.parts.len());
    let r = source::retained_units(e, e.retained.len());
    lemma_either(m, c, u);
    lemma_either(m + c, p, u);
    lemma_either(m + c + p, d, u);
    lemma_either(m + c + p + d, f, u);
    lemma_either(m + c + p + d + f, v, u);
    lemma_either(m + c + p + d + f + v, r, u);
    if c.contains(u) {
        let i = choose|i: int| 0 <= i < c.len() && c[i] == u;
        assert(c[i] == UnitView::ManifestChain);
    }
    assert(c[0] == UnitView::ManifestChain);
}

pub proof fn lemma_either(a: Seq<UnitView>, b: Seq<UnitView>, u: UnitView)
    ensures
        (a + b).contains(u) <==> a.contains(u) || b.contains(u),
{
    if (a + b).contains(u) {
        let i = choose|i: int| 0 <= i < (a + b).len() && (a + b)[i] == u;
        if i < a.len() {
            assert(a[i] == u);
        } else {
            assert(b[i - a.len()] == u);
        }
    }
    if a.contains(u) {
        source_laws::lemma_left(a, b, u);
    }
    if b.contains(u) {
        source_laws::lemma_right(a, b, u);
    }
}

// ---------------------------------------------------------------------------------------------
// The whole verification's checksums.
// ---------------------------------------------------------------------------------------------
/// Both verifications leave out the checksums of the same members.
proof fn lemma_exempt(e: EnvView, limits: ReadLimits, name: Seq<char>)
    requires
        source_run::env_opened(e, limits),
    ensures
        source::exempt(e.current, name) <==> checksum::checksum_void(
            e.c.members,
            limits,
            name,
        ),
{
    reveal(checksum::checksum_void);
    let ms = e.c.members;
    let s = e.current;
    let f = s.fold;
    match chain::authority_of(ms) {
        None => {
            assert(ms =~= Seq::<MemberView>::empty());
            assert(f.blocks.len() == 0);
        },
        Some(m) => {
            assert(s.manifest == m);
            assert(open::fold_of(ms, m, m.punched, TailRule::Exact, limits) == Ok::<
                crate::fold::FoldView,
                open::FoldOpenError,
            >(f));
        },
    }
}

/// Where the frames of the current fold reach to their ends, the members of an opened container are
/// the recorded ones exactly where every checksum that applies holds.
pub proof fn lemma_members(e: EnvView, limits: ReadLimits)
    requires
        source_run::env_opened(e, limits),
        artifact::frames_fault(e.current.fold, e.current.fold.segments.len()) is None,
    ensures
        checksum::members_fault(e.c.members, limits) is None <==> checksums_hold(e),
{
    reveal(checksum::members_fault);
    let ms = e.c.members;
    let s = e.current;
    checksum::lemma_checksums_each(ms, limits, ms.len());
    assert(checksum::punched_fault(ms, limits) is None) by {
        if chain::authority_of(ms) is Some {
            let m = chain::authority_of(ms)->0;
            assert(s.manifest == m);
            assert(open::fold_of(ms, m, m.punched, TailRule::Exact, limits) == Ok::<
                crate::fold::FoldView,
                open::FoldOpenError,
            >(s.fold));
        }
    }
    assert forall|i: int| 0 <= i < ms.len() implies (checksum::member_sound(
        ms,
        limits,
        #[trigger] ms[i],
    ) <==> (!source::exempt(s, ms[i].name) ==> hash::crc32_of(ms[i].bytes) == ms[i].checksum)) by {
        lemma_exempt(e, limits, ms[i].name);
    }
}

} // verus!
