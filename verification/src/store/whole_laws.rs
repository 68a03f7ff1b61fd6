//! Verifying by units and verifying whole come to the same verdict.

use crate::bytes;
use crate::container;
use crate::container::{ContainerView, MemberView};
use crate::hash;
use crate::part::PartView;
use crate::read_limits::ReadLimits;
use crate::store::artifact;
use crate::store::audit;
use crate::store::chain;
use crate::store::checksum;
use crate::store::checksum_laws;
use crate::store::frame_laws;
use crate::store::manifest;
use crate::store::manifest::{ManifestView, PartRefView};
use crate::store::namespace;
use crate::store::open;
use crate::store::open::{OpenError, ReadStoreView, TailRule};
use crate::store::read;
use crate::store::source;
use crate::store::source::{EnvView, UnitView, VerifyError};
use crate::store::source_counts;
use crate::store::source_laws;
use crate::store::source_plan;
use crate::store::source_run;
use crate::store::source_run::SourceVerification;
use crate::store::verify;
use crate::store::verify::Authority;
use vstd::prelude::*;
use vstd::utf8::*;

verus! {

// ---------------------------------------------------------------------------------------------
// From the whole to its units.
// ---------------------------------------------------------------------------------------------
proof fn lemma_member_unit(e: EnvView, n: nat, u: UnitView)
    requires
        n <= e.c.members.len(),
        container::names_ascending(e.c.members),
        checksum_laws::checksums_hold(e),
        source::member_units(e, n).contains(u),
    ensures
        source::unit_fault(e, u) is None,
    decreases n,
{
    if n > 0 {
        let m = e.c.members[n - 1];
        let before = source::member_units(e, (n - 1) as nat);
        if source::exempt(e.current, m.name) {
            lemma_member_unit(e, (n - 1) as nat, u);
        } else {
            let w = verify::windows_of(0, m.bytes.len() as u64);
            let more = source::checksum_units(m.name, w);
            checksum_laws::lemma_either(before, more, u);
            if before.contains(u) {
                lemma_member_unit(e, (n - 1) as nat, u);
            } else {
                let i = choose|i: int| 0 <= i < more.len() && more[i] == u;
                assert(u == UnitView::MemberChecksum { member: m.name, start: w[i].0, stop: w[i].1 });
                checksum_laws::lemma_position(e.c.members, n - 1);
            }
        }
    }
}

proof fn lemma_pins_shallow(
    ms: Seq<MemberView>,
    commits: Seq<u64>,
    i: int,
    m: ManifestView,
    n: nat,
)
    requires
        chain::pins_fault(ms, commits, i, m, true, n) is None,
    ensures
        chain::pins_fault(ms, commits, i, m, false, n) is None,
        forall|j: int|
            0 <= j < n ==> container::position_of(ms, (#[trigger] m.parts[j]).member) is Some
                && encode_utf8(m.parts[j].b3) == manifest::link(
                ms[container::position_of(ms, m.parts[j].member)->0].bytes,
            ),
    decreases n,
{
    if n > 0 {
        lemma_pins_shallow(ms, commits, i, m, (n - 1) as nat);
    }
}

proof fn lemma_links_shallow(
    ms: Seq<MemberView>,
    current: Option<ManifestView>,
    commits: Seq<u64>,
    n: nat,
)
    requires
        n <= commits.len(),
        chain::links_fault(ms, current, commits, n, true) is None,
    ensures
        chain::links_fault(ms, current, commits, n, false) is None,
        forall|k: int|
            0 <= k < n ==> {
                let m = chain::revision(ms, #[trigger] commits[k])->Ok_0.1;
                chain::pins_fault(ms, commits, k, m, true, m.parts.len()) is None
            },
    decreases n,
{
    if n > 0 {
        lemma_links_shallow(ms, current, commits, (n - 1) as nat);
        let m = chain::revision(ms, commits[n - 1])->Ok_0.1;
        assert(chain::link_fault(ms, current, commits, n - 1, true) is None);
        lemma_pins_shallow(ms, commits, n - 1, m, m.parts.len());
    }
}

/// A chain that holds with its digests holds without them.
pub proof fn lemma_chain_shallow(c: ContainerView)
    requires
        chain::chain_fault(c, true) is None,
    ensures
        chain::chain_fault(c, false) is None,
{
    let ms = c.members;
    let commits = chain::retained_commits(ms);
    lemma_links_shallow(ms, chain::authority_of(ms), commits, commits.len());
    if commits.len() == 0 && chain::authority_of(ms) is Some {
        let m = chain::authority_of(ms)->0;
        lemma_pins_shallow(ms, commits, 0, m, m.parts.len());
    }
}

proof fn lemma_no_drift(
    ms: Seq<MemberView>,
    refs: Seq<PartRefView>,
    name: Seq<char>,
    link: Seq<u8>,
    n: nat,
)
    requires
        n <= refs.len(),
        container::position_of(ms, name) is Some,
        link == manifest::link(ms[container::position_of(ms, name)->0].bytes),
        forall|j: int|
            0 <= j < n ==> encode_utf8((#[trigger] refs[j]).b3) == manifest::link(
                ms[container::position_of(ms, refs[j].member)->0].bytes,
            ),
    ensures
        !source::refs_drift(refs, name, link, n),
    decreases n,
{
    if n > 0 {
        lemma_no_drift(ms, refs, name, link, (n - 1) as nat);
        assert(encode_utf8(refs[n - 1].b3) == manifest::link(
            ms[container::position_of(ms, refs[n - 1].member)->0].bytes,
        ));
    }
}

proof fn lemma_no_retained_drift(e: EnvView, limits: ReadLimits, name: Seq<char>, n: nat)
    requires
        source_run::env_opened(e, limits),
        chain::chain_fault(e.c, true) is None,
        n <= e.retained.len(),
        container::position_of(e.c.members, name) is Some,
    ensures
        source::retained_drift(
            e.retained,
            name,
            manifest::link(e.c.members[container::position_of(e.c.members, name)->0].bytes),
            n,
        ) is None,
    decreases n,
{
    if n > 0 {
        let ms = e.c.members;
        lemma_no_retained_drift(e, limits, name, (n - 1) as nat);
        let commits = chain::retained_commits(ms);
        assert(e.retained[n - 1].0 == commits[n - 1]);
        let m = chain::revision(ms, commits[n - 1])->Ok_0.1;
        let refs = e.retained[n - 1].1.manifest.parts;
        assert(refs == m.parts);
        lemma_links_shallow(ms, chain::authority_of(ms), commits, commits.len());
        lemma_pins_shallow(ms, commits, n - 1, m, m.parts.len());
        lemma_no_drift(
            ms,
            refs,
            name,
            manifest::link(ms[container::position_of(ms, name)->0].bytes),
            refs.len(),
        );
    }
}

/// Where the deep chain holds, no pin of a part drifts.
proof fn lemma_drift_none(e: EnvView, limits: ReadLimits, name: Seq<char>)
    requires
        source_run::env_opened(e, limits),
        chain::chain_fault(e.c, true) is None,
        container::position_of(e.c.members, name) is Some,
    ensures
        source::drift(
            e,
            name,
            manifest::link(e.c.members[container::position_of(e.c.members, name)->0].bytes),
        ) is None,
{
    let ms = e.c.members;
    let link = manifest::link(ms[container::position_of(ms, name)->0].bytes);
    if e.retained.len() > 0 {
        lemma_no_retained_drift(e, limits, name, e.retained.len());
    } else {
        let commits = chain::retained_commits(ms);
        let m = e.current.manifest;
        if chain::authority_of(ms) is Some {
            lemma_pins_shallow(ms, commits, 0, m, m.parts.len());
        }
        lemma_no_drift(ms, m.parts, name, link, m.parts.len());
    }
}

/// A part that some revision names opens.
proof fn lemma_named_opens(e: EnvView, limits: ReadLimits, name: Seq<char>)
    requires
        source_run::env_opened(e, limits),
        e.names.contains(name),
    ensures
        container::position_of(e.c.members, name) is Some,
        source::part_at(e.c.members, name) matches Some(p) && crate::part::rows_fault(
            p.rows,
            p.rows.len(),
        ) is None,
{
    let ms = e.c.members;
    let man = e.current.manifest;
    assert(source_plan::named_anywhere(e, name));
    if namespace::names_part(man, name) {
        let j = choose|j: int| 0 <= j < man.parts.len() && (#[trigger] man.parts[j]).member == name;
        source_laws::lemma_opened_each(ms, man, man.parts.len(), j);
    } else {
        let k = choose|k: int|
            0 <= k < e.retained.len() && namespace::names_part(
                (#[trigger] e.retained[k]).1.manifest,
                name,
            );
        let under = e.retained[k].1.manifest;
        let j = choose|j: int|
            0 <= j < under.parts.len() && (#[trigger] under.parts[j]).member == name;
        assert(e.retained[k].0 == chain::retained_commits(ms)[k]);
        source_laws::lemma_opened_each(ms, under, under.parts.len(), j);
    }
}

proof fn lemma_part_unit(e: EnvView, limits: ReadLimits, n: nat, u: UnitView)
    requires
        n <= e.names.len(),
        source_run::env_opened(e, limits),
        chain::chain_fault(e.c, true) is None,
        source::part_units(e, n).contains(u),
    ensures
        source::unit_fault(e, u) is None,
    decreases n,
{
    if n > 0 {
        let ms = e.c.members;
        let name = e.names[n - 1];
        let before = source::part_units(e, (n - 1) as nat);
        let more = source::one_part_units(ms, name);
        checksum_laws::lemma_either(before, more, u);
        if before.contains(u) {
            lemma_part_unit(e, limits, (n - 1) as nat, u);
        } else {
            assert(e.names.contains(name));
            lemma_named_opens(e, limits, name);
            lemma_drift_none(e, limits, name);
            let i = container::position_of(ms, name)->0;
            let w = verify::windows_of(0, ms[i].bytes.len() as u64);
            let d = source::digest_units(name, w);
            let sections = source::section_units(
                name,
                match ms[i].part {
                    Some(p) => p.sections as nat,
                    None => 0,
                },
            );
            let g = seq![UnitView::PartGrammar { member: name }];
            checksum_laws::lemma_either(d, sections, u);
            checksum_laws::lemma_either(d + sections, g, u);
            if d.contains(u) {
                let k = choose|k: int| 0 <= k < d.len() && d[k] == u;
                assert(u == UnitView::PartDigest { member: name, start: w[k].0, stop: w[k].1 });
            } else if sections.contains(u) {
                let k = choose|k: int| 0 <= k < sections.len() && sections[k] == u;
                assert(u == UnitView::PartSection { member: name, section: k as usize });
            } else {
                let k = choose|k: int| 0 <= k < g.len() && g[k] == u;
                assert(u == UnitView::PartGrammar { member: name });
            }
        }
    }
}

proof fn lemma_dictionaries_each(parts: Seq<PartView>, f: crate::fold::FoldView, n: nat, i: int)
    requires
        0 <= i < n,
        artifact::dictionaries_fault(parts, f, n) is None,
    ensures
        audit::dictionary_fault(f, parts[i].pieces, parts[i].pieces.len()) is None,
    decreases n,
{
    if i < n - 1 {
        lemma_dictionaries_each(parts, f, (n - 1) as nat, i);
    }
}

proof fn lemma_piece_unit(e: EnvView, a: Authority, s: ReadStoreView, u: UnitView)
    requires
        source::authority_view(e, a) == Some(s),
        open::opened_parts(e.c.members, s.manifest, s.manifest.parts.len()) == Ok::<
            Seq<PartView>,
            OpenError,
        >(s.parts),
        artifact::dictionaries_fault(s.parts, s.fold, s.parts.len()) is None,
        source::piece_units(s.manifest.parts, a, s.manifest.parts.len()).contains(u),
    ensures
        source::unit_fault(e, u) is None,
{
    let refs = s.manifest.parts;
    let all = source::piece_units(refs, a, refs.len());
    let i = choose|i: int| 0 <= i < all.len() && all[i] == u;
    assert(u == UnitView::PartPieces { member: refs[i].member, authority: a });
    source_laws::lemma_opened_each(e.c.members, s.manifest, refs.len(), i);
    lemma_dictionaries_each(s.parts, s.fold, s.parts.len(), i);
}

proof fn lemma_live_below(parts: Seq<PartView>, p: int, n: nat, i: int)
    requires
        0 <= i < read::live_rows(parts, p, n).len(),
        n <= usize::MAX,
    ensures
        read::live_rows(parts, p, n)[i] < n,
    decreases n,
{
    if n > 0 {
        if i < read::live_rows(parts, p, (n - 1) as nat).len() {
            lemma_live_below(parts, p, (n - 1) as nat, i);
        }
    }
}

proof fn lemma_rows_fault_none(
    s: ReadStoreView,
    p: int,
    rows: Seq<usize>,
    retained: bool,
    n: nat,
)
    requires
        n <= rows.len(),
        0 <= p < s.parts.len(),
        audit::part_value_fault(s.parts, s.fold, p, retained, s.parts[p].rows.len()) is None,
        forall|i: int| 0 <= i < rows.len() ==> #[trigger] rows[i] < s.parts[p].rows.len(),
    ensures
        source::rows_value_fault(s, p, rows, retained, n) is None,
    decreases n,
{
    if n > 0 {
        lemma_rows_fault_none(s, p, rows, retained, (n - 1) as nat);
        assert(rows[n - 1] < s.parts[p].rows.len());
        audit::lemma_part_each(
            s.parts,
            s.fold,
            p,
            retained,
            s.parts[p].rows.len(),
            rows[n - 1] as int,
        );
    }
}

proof fn lemma_content_unit(e: EnvView, a: Authority, s: ReadStoreView, n: nat, u: UnitView)
    requires
        n <= s.parts.len(),
        source_laws::view_sized(s),
        source::authority_view(e, a) == Some(s),
        audit::values_fault(s.parts, s.fold, a is Retained, s.parts.len()) is None,
        source::content_units(s, a, n).contains(u),
    ensures
        source::unit_fault(e, u) is None,
    decreases n,
{
    if n > 0 {
        let p = n - 1;
        let live = read::live_rows(s.parts, p, s.parts[p].rows.len());
        let before = source::content_units(s, a, (n - 1) as nat);
        let tiles = verify::row_tiles(0, live.len());
        let more = source::window_units(a, p as usize, tiles);
        checksum_laws::lemma_either(before, more, u);
        if before.contains(u) {
            lemma_content_unit(e, a, s, (n - 1) as nat, u);
        } else {
            let i = choose|i: int| 0 <= i < more.len() && more[i] == u;
            let (start, stop) = (tiles[i].0 as usize, tiles[i].1 as usize);
            assert(u == UnitView::Content { authority: a, part: p as usize, start, stop });
            assert(s.parts[p].rows.len() <= usize::MAX);
            audit::lemma_values_each(s.parts, s.fold, a is Retained, s.parts.len(), p);
            let rows = source::window_rows(s, p, start, stop);
            assert forall|k: int| 0 <= k < rows.len() implies #[trigger] rows[k]
                < s.parts[p].rows.len() by {
                assert(rows[k] == live[start + k]);
                lemma_live_below(s.parts, p, s.parts[p].rows.len(), start + k);
            }
            lemma_rows_fault_none(s, p, rows, a is Retained, rows.len());
        }
    }
}

proof fn lemma_retained_each(
    ms: Seq<MemberView>,
    current: ManifestView,
    limits: ReadLimits,
    commits: Seq<u64>,
    n: nat,
    k: int,
)
    requires
        0 <= k < n,
        artifact::retained_all(ms, current, limits, commits, n) is None,
    ensures
        artifact::retained_one(ms, current, limits, commits[k]) is None,
    decreases n,
{
    if k < n - 1 {
        lemma_retained_each(ms, current, limits, commits, (n - 1) as nat, k);
    }
}

proof fn lemma_retained_unit(e: EnvView, limits: ReadLimits, n: nat, u: UnitView)
    requires
        n <= e.retained.len(),
        source_run::env_opened(e, limits),
        source_laws::sized(e),
        artifact::retained_authority_fault(e.c, limits) is None,
        source::retained_units(e, n).contains(u),
    ensures
        source::unit_fault(e, u) is None,
    decreases n,
{
    if n > 0 {
        let ms = e.c.members;
        let commits = chain::retained_commits(ms);
        let (commit, s) = e.retained[n - 1];
        let a = Authority::Retained(commit);
        let refs = s.manifest.parts;
        let before = source::retained_units(e, (n - 1) as nat);
        let d = source::piece_units(refs, a, refs.len());
        let v = source::content_units(s, a, s.parts.len());
        checksum_laws::lemma_either(before, d, u);
        checksum_laws::lemma_either(before + d, v, u);
        if before.contains(u) {
            lemma_retained_unit(e, limits, (n - 1) as nat, u);
        } else {
            assert(e.retained[n - 1].0 == commits[n - 1]);
            assert forall|x: int, y: int|
                0 <= x < e.retained.len() && 0 <= y < e.retained.len() && (
                #[trigger] e.retained[x]).0 == (#[trigger] e.retained[y]).0 implies e.retained[x].1
                == e.retained[y].1 by {
                assert(e.retained[x].0 == commits[x] && e.retained[y].0 == commits[y]);
            }
            source_laws::lemma_retained_found(e.retained, n - 1);
            assert(ms.len() > 0) by {
                if ms.len() == 0 {
                    assert(commits.len() == 0);
                }
            }
            assert(chain::authority_of(ms) == Some(e.current.manifest));
            lemma_retained_each(
                ms,
                e.current.manifest,
                limits,
                commits,
                commits.len(),
                n - 1,
            );
            assert(source_laws::view_sized(e.retained[n - 1].1));
            if d.contains(u) {
                lemma_piece_unit(e, a, s, u);
            } else {
                lemma_content_unit(e, a, s, s.parts.len(), u);
            }
        }
    }
}

/// Where a container verifies whole and its checksums hold, every planned unit holds.
proof fn lemma_whole_holds(e: EnvView, limits: ReadLimits)
    requires
        source_run::env_opened(e, limits),
        container::names_ascending(e.c.members),
        source_laws::sized(e),
        artifact::artifact(e.c, limits) is Ok,
        checksum_laws::checksums_hold(e),
    ensures
        source_laws::all_hold(e),
{
    let ms = e.c.members;
    let s = e.current;
    let refs = s.manifest.parts;
    let f = s.fold;
    lemma_chain_shallow(e.c);
    frame_laws::lemma_fold_laid_out(ms, s.manifest, s.manifest.punched, TailRule::Exact, limits);
    assert(source_laws::view_sized(s));
    assert forall|i: int| 0 <= i < source::plan_of(e).len() implies source::unit_fault(
        e,
        #[trigger] source::plan_of(e)[i],
    ) is None by {
        let u = source::plan_of(e)[i];
        assert(source::plan_of(e).contains(u));
        checksum_laws::lemma_in_plan(e, u);
        if source::member_units(e, ms.len()).contains(u) {
            lemma_member_unit(e, ms.len(), u);
        } else if u == UnitView::ManifestChain {
        } else if source::part_units(e, e.names.len()).contains(u) {
            lemma_part_unit(e, limits, e.names.len(), u);
        } else if source::piece_units(refs, Authority::Current, refs.len()).contains(u) {
            lemma_piece_unit(e, Authority::Current, s, u);
        } else if source::frame_units(f, f.segments.len()).contains(u) {
            frame_laws::lemma_frames_each(e, f.segments.len(), u);
        } else if source::content_units(s, Authority::Current, s.parts.len()).contains(u) {
            lemma_content_unit(e, Authority::Current, s, s.parts.len(), u);
        } else {
            lemma_retained_unit(e, limits, e.retained.len(), u);
        }
    }
}

/// Where a container verifies whole, its checksums hold.
proof fn lemma_whole_checksums(e: EnvView, limits: ReadLimits)
    requires
        source_run::env_opened(e, limits),
        artifact::artifact(e.c, limits) is Ok,
    ensures
        checksum_laws::checksums_hold(e),
{
    checksum_laws::lemma_members(e, limits);
}

proof fn lemma_plan_faults(e: EnvView, n: nat)
    requires
        n <= source::plan_of(e).len(),
    ensures
        source_run::plan_fault(e, n) is None <==> (forall|i: int|
            0 <= i < n ==> source::unit_fault(e, #[trigger] source::plan_of(e)[i]) is None),
    decreases n,
{
    if n > 0 {
        lemma_plan_faults(e, (n - 1) as nat);
    }
}

/// Verifying by units and verifying whole come to the same verdict over a container that opens, and
/// then both report the same, field for field.
proof fn lemma_units_are_whole(e: EnvView, limits: ReadLimits)
    requires
        source_run::env_opened(e, limits),
        container::names_ascending(e.c.members),
        source_laws::sized(e),
        e.c.members.len() <= limits.max_directory_entries,
    ensures
        source_run::source_outcome(e) is Ok <==> artifact::artifact(e.c, limits) is Ok,
        source_run::source_outcome(e) matches Ok(report) ==> {
            let whole = artifact::artifact(e.c, limits)->Ok_0;
            &&& report.members == whole.members
            &&& report.member_bytes == whole.bytes
            &&& report.commit == whole.commit
            &&& report.store == whole.store
        },
{
    lemma_plan_faults(e, source::plan_of(e).len());
    if source_laws::all_hold(e) {
        source_counts::lemma_units_report(e, limits);
    }
    if artifact::artifact(e.c, limits) is Ok {
        lemma_whole_checksums(e, limits);
        lemma_whole_holds(e, limits);
    }
}

proof fn lemma_retained_opens(
    c: ContainerView,
    current: ManifestView,
    limits: ReadLimits,
    commits: Seq<u64>,
    n: nat,
)
    requires
        artifact::retained_all(c.members, current, limits, commits, n) is None,
    ensures
        source_run::retained_open_fault(c, current, limits, commits, n) is None,
    decreases n,
{
    if n > 0 {
        lemma_retained_opens(c, current, limits, commits, (n - 1) as nat);
    }
}

/// A container that does not open for a verification by units does not verify whole.
proof fn lemma_unopened_is_refused(c: ContainerView, limits: ReadLimits)
    requires
        artifact::artifact(c, limits) is Ok,
    ensures
        source_run::open_fault(c, limits) is None,
{
    let commits = chain::retained_commits(c.members);
    let s = open::current_view(c, limits)->Ok_0;
    assert(checksum::punched_fault(c.members, limits) is None) by {
        reveal(checksum::members_fault);
    }
    match chain::authority_of(c.members) {
        Some(m) => {
            assert(s.manifest == m);
            lemma_retained_opens(c, m, limits, commits, commits.len());
        },
        None => {
            assert(c.members.len() == 0);
        },
    }
}

/// Of one container, a verification by units succeeds exactly where the whole verification does, and
/// then both report the same, field for field.
pub proof fn lemma_source_is_whole(
    c: ContainerView,
    limits: ReadLimits,
    r: Result<SourceVerification, VerifyError>,
)
    requires
        source_run::verified_as(c, limits, r),
        container::names_ascending(c.members),
    ensures
        r is Ok <==> artifact::artifact(c, limits) is Ok,
        r matches Ok(report) ==> {
            let whole = artifact::artifact(c, limits)->Ok_0;
            &&& report.members == whole.members
            &&& report.member_bytes == whole.bytes
            &&& report.commit == whole.commit
            &&& report.store == whole.store
        },
{
    if source_run::open_fault(c, limits) is None {
        let e = choose|e: EnvView|
            e.c == c && #[trigger] source_run::env_opened(e, limits) && source_laws::sized(e) && r
                == source_run::source_outcome(e);
        lemma_units_are_whole(e, limits);
    } else if artifact::artifact(c, limits) is Ok {
        lemma_unopened_is_refused(c, limits);
    }
}

} // verus!
