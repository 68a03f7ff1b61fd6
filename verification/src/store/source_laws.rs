//! Units compose: a container whose every unit holds is a container that verifies whole.

use crate::container;
use crate::container::MemberView;
use crate::part;
use crate::part::PartView;
use crate::read_limits::ReadLimits;
use crate::store::artifact;
use crate::store::audit;
use crate::store::chain;
use crate::store::checksum_laws;
use crate::store::chain::PinFault;
use crate::store::frame_laws;
use crate::store::manifest;
use crate::store::manifest::{ManifestView, PartRefView};
use crate::store::namespace;
use crate::store::open;
use crate::store::open::{OpenError, ReadStoreView, TailRule};
use crate::store::read;
use crate::store::source;
use crate::store::source::{EnvView, UnitView};
use crate::store::source_plan;
use crate::store::source_run;
use crate::store::verify;
use crate::store::verify::Authority;
use vstd::prelude::*;
use vstd::utf8::*;

verus! {

/// Every planned unit holds.
pub open spec fn all_hold(e: EnvView) -> bool {
    forall|i: int|
        0 <= i < source::plan_of(e).len() ==> source::unit_fault(
            e,
            #[trigger] source::plan_of(e)[i],
        ) is None
}

pub proof fn lemma_left(a: Seq<UnitView>, b: Seq<UnitView>, u: UnitView)
    requires
        a.contains(u),
    ensures
        (a + b).contains(u),
{
    let i = choose|i: int| 0 <= i < a.len() && a[i] == u;
    assert((a + b)[i] == u);
}

pub proof fn lemma_right(a: Seq<UnitView>, b: Seq<UnitView>, u: UnitView)
    requires
        b.contains(u),
    ensures
        (a + b).contains(u),
{
    let i = choose|i: int| 0 <= i < b.len() && b[i] == u;
    assert((a + b)[a.len() + i] == u);
}

pub proof fn lemma_holds(e: EnvView, u: UnitView)
    requires
        all_hold(e),
        source::plan_of(e).contains(u),
    ensures
        source::unit_fault(e, u) is None,
{
    let i = choose|i: int| 0 <= i < source::plan_of(e).len() && source::plan_of(e)[i] == u;
    assert(source::unit_fault(e, source::plan_of(e)[i]) is None);
}

/// What the plan is made of.
pub proof fn lemma_planned(e: EnvView, u: UnitView)
    ensures
        ({
            let refs = e.current.manifest.parts;
            let parts = e.current.parts;
            &&& source::part_units(e, e.names.len()).contains(u) ==> source::plan_of(e).contains(u)
            &&& source::piece_units(refs, Authority::Current, refs.len()).contains(u)
                ==> source::plan_of(e).contains(u)
            &&& source::frame_units(e.current.fold, e.current.fold.segments.len()).contains(u)
                ==> source::plan_of(e).contains(u)
            &&& source::content_units(e.current, Authority::Current, parts.len()).contains(u)
                ==> source::plan_of(e).contains(u)
            &&& source::retained_units(e, e.retained.len()).contains(u) ==> source::plan_of(
                e,
            ).contains(u)
            &&& source::plan_of(e).contains(UnitView::ManifestChain)
        }),
{
    reveal(source::plan_of);
    let refs = e.current.manifest.parts;
    let fold = e.current.fold;
    let m = source::member_units(e, e.c.members.len());
    let c = seq![UnitView::ManifestChain];
    let p = source::part_units(e, e.names.len());
    let d = source::piece_units(refs, Authority::Current, refs.len());
    let f = source::frame_units(fold, fold.segments.len());
    let v = source::content_units(e.current, Authority::Current, e.current.parts.len());
    let r = source::retained_units(e, e.retained.len());
    let a1 = m + c;
    let a2 = a1 + p;
    let a3 = a2 + d;
    let a4 = a3 + f;
    let a5 = a4 + v;
    assert(source::plan_of(e) == a5 + r);
    assert(c[0] == UnitView::ManifestChain);
    lemma_right(m, c, UnitView::ManifestChain);
    lemma_left(a1, p, UnitView::ManifestChain);
    lemma_left(a2, d, UnitView::ManifestChain);
    lemma_left(a3, f, UnitView::ManifestChain);
    lemma_left(a4, v, UnitView::ManifestChain);
    lemma_left(a5, r, UnitView::ManifestChain);
    if p.contains(u) {
        lemma_right(a1, p, u);
        lemma_left(a2, d, u);
        lemma_left(a3, f, u);
        lemma_left(a4, v, u);
        lemma_left(a5, r, u);
    }
    if d.contains(u) {
        lemma_right(a2, d, u);
        lemma_left(a3, f, u);
        lemma_left(a4, v, u);
        lemma_left(a5, r, u);
    }
    if f.contains(u) {
        lemma_right(a3, f, u);
        lemma_left(a4, v, u);
        lemma_left(a5, r, u);
    }
    if v.contains(u) {
        lemma_right(a4, v, u);
        lemma_left(a5, r, u);
    }
    if r.contains(u) {
        lemma_right(a5, r, u);
    }
}

proof fn lemma_retained_planned(e: EnvView, k: int, n: nat, u: UnitView)
    requires
        0 <= k < n <= e.retained.len(),
        ({
            let (commit, s) = e.retained[k];
            let a = Authority::Retained(commit);
            let refs = s.manifest.parts;
            source::piece_units(refs, a, refs.len()).contains(u) || source::content_units(
                s,
                a,
                s.parts.len(),
            ).contains(u)
        }),
    ensures
        source::retained_units(e, n).contains(u),
    decreases n,
{
    let (commit, s) = e.retained[n - 1];
    let a = Authority::Retained(commit);
    let refs = s.manifest.parts;
    let before = source::retained_units(e, (n - 1) as nat);
    let d = source::piece_units(refs, a, refs.len());
    let v = source::content_units(s, a, s.parts.len());
    if k == n - 1 {
        if d.contains(u) {
            lemma_right(before, d, u);
            lemma_left(before + d, v, u);
        } else {
            lemma_right(before + d, v, u);
        }
    } else {
        lemma_retained_planned(e, k, (n - 1) as nat, u);
        lemma_left(before, d, u);
        lemma_left(before + d, v, u);
    }
}

proof fn lemma_content_planned(
    s: ReadStoreView,
    authority: Authority,
    n: nat,
    p: int,
    w: int,
)
    requires
        0 <= p < n <= s.parts.len(),
        ({
            let live = read::live_rows(s.parts, p, s.parts[p].rows.len());
            0 <= w < verify::row_tiles(0, live.len()).len()
        }),
    ensures
        ({
            let live = read::live_rows(s.parts, p, s.parts[p].rows.len());
            let t = verify::row_tiles(0, live.len())[w];
            source::content_units(s, authority, n).contains(
                UnitView::Content {
                    authority,
                    part: p as usize,
                    start: t.0 as usize,
                    stop: t.1 as usize,
                },
            )
        }),
    decreases n,
{
    let live = read::live_rows(s.parts, p, s.parts[p].rows.len());
    let t = verify::row_tiles(0, live.len())[w];
    let u = UnitView::Content {
        authority,
        part: p as usize,
        start: t.0 as usize,
        stop: t.1 as usize,
    };
    let before = source::content_units(s, authority, (n - 1) as nat);
    let here = read::live_rows(s.parts, n - 1, s.parts[n - 1].rows.len());
    let more = source::window_units(
        authority,
        (n - 1) as usize,
        verify::row_tiles(0, here.len()),
    );
    if p == n - 1 {
        assert(more[w] == u);
        lemma_right(before, more, u);
    } else {
        lemma_content_planned(s, authority, (n - 1) as nat, p, w);
        lemma_left(before, more, u);
    }
}

proof fn lemma_row_tiles(at: nat, n: nat, j: nat) -> (w: int)
    requires
        at <= j < n,
    ensures
        0 <= w < verify::row_tiles(at, n).len(),
        verify::row_tiles(at, n)[w].0 <= j < verify::row_tiles(at, n)[w].1 <= n,
    decreases n - at,
{
    let stop = if n - at <= verify::CONTENT_ROWS {
        n
    } else {
        (at + verify::CONTENT_ROWS) as nat
    };
    let all = verify::row_tiles(at, n);
    assert(all[0] == (at, stop));
    if j < stop {
        0
    } else {
        let w = lemma_row_tiles(stop, n, j);
        assert(all[w + 1] == verify::row_tiles(stop, n)[w]);
        w + 1
    }
}

proof fn lemma_live_index(parts: Seq<PartView>, p: int, n: nat, row: int) -> (j: int)
    requires
        0 <= row < n,
        n <= usize::MAX,
        read::verdict(parts, p, row) == read::Verdict::Live,
    ensures
        0 <= j < read::live_rows(parts, p, n).len(),
        read::live_rows(parts, p, n)[j] == row,
    decreases n,
{
    let before = read::live_rows(parts, p, (n - 1) as nat);
    if row == n - 1 {
        before.len() as int
    } else {
        lemma_live_index(parts, p, (n - 1) as nat, row)
    }
}

proof fn lemma_rows_each(s: ReadStoreView, p: int, rows: Seq<usize>, retained: bool, n: nat, i: int)
    requires
        0 <= i < n,
        source::rows_value_fault(s, p, rows, retained, n) is None,
    ensures
        audit::row_value_fault(s.parts, s.fold, p, rows[i] as int, retained) is None,
    decreases n,
{
    if i < n - 1 {
        lemma_rows_each(s, p, rows, retained, (n - 1) as nat, i);
    }
}

/// A part has no more visible rows than rows.
pub proof fn lemma_live_len(parts: Seq<PartView>, p: int, n: nat)
    ensures
        read::live_rows(parts, p, n).len() <= n,
    decreases n,
{
    if n > 0 {
        lemma_live_len(parts, p, (n - 1) as nat);
    }
}

/// Where an authority's content units hold, its values have no fault.
proof fn lemma_values_hold(e: EnvView, a: Authority, s: ReadStoreView, n: nat)
    requires
        all_hold(e),
        source::authority_view(e, a) == Some(s),
        forall|u: UnitView|
            source::content_units(s, a, s.parts.len()).contains(u) ==> #[trigger] source::plan_of(
                e,
            ).contains(u),
        forall|p: int| 0 <= p < s.parts.len() ==> (#[trigger] s.parts[p]).rows.len() <= usize::MAX,
        s.parts.len() <= usize::MAX,
        n <= s.parts.len(),
    ensures
        audit::values_fault(s.parts, s.fold, a is Retained, n) is None,
    decreases n,
{
    if n > 0 {
        lemma_values_hold(e, a, s, (n - 1) as nat);
        lemma_part_holds(e, a, s, n - 1, s.parts[n - 1].rows.len());
    }
}

proof fn lemma_part_holds(e: EnvView, a: Authority, s: ReadStoreView, p: int, n: nat)
    requires
        all_hold(e),
        source::authority_view(e, a) == Some(s),
        forall|u: UnitView|
            source::content_units(s, a, s.parts.len()).contains(u) ==> #[trigger] source::plan_of(
                e,
            ).contains(u),
        0 <= p < s.parts.len() <= usize::MAX,
        n <= s.parts[p].rows.len() <= usize::MAX,
    ensures
        audit::part_value_fault(s.parts, s.fold, p, a is Retained, n) is None,
    decreases n,
{
    if n > 0 {
        lemma_part_holds(e, a, s, p, (n - 1) as nat);
        let row = n - 1;
        if read::verdict(s.parts, p, row) == read::Verdict::Live {
            let total = s.parts[p].rows.len();
            let live = read::live_rows(s.parts, p, total);
            lemma_live_len(s.parts, p, total);
            let j = lemma_live_index(s.parts, p, total, row);
            let w = lemma_row_tiles(0, live.len(), j as nat);
            let t = verify::row_tiles(0, live.len())[w];
            lemma_content_planned(s, a, s.parts.len(), p, w);
            let u = UnitView::Content {
                authority: a,
                part: p as usize,
                start: t.0 as usize,
                stop: t.1 as usize,
            };
            assert(source::plan_of(e).contains(u));
            lemma_holds(e, u);
            let rows = source::window_rows(s, p, t.0 as usize, t.1 as usize);
            assert(rows[j - t.0] == row);
            lemma_rows_each(s, p, rows, a is Retained, rows.len(), j - t.0);
        }
    }
}

/// The parts of an open view are what its references open.
pub proof fn lemma_opened_each(ms: Seq<MemberView>, m: ManifestView, n: nat, i: int)
    requires
        n <= m.parts.len(),
        open::opened_parts(ms, m, n) is Ok,
    ensures
        open::opened_parts(ms, m, n)->Ok_0.len() == n,
        0 <= i < n ==> chain::opened(ms, m.parts[i]) == Ok::<PartView, PinFault>(
            open::opened_parts(ms, m, n)->Ok_0[i],
        ),
    decreases n,
{
    if n > 0 {
        lemma_opened_each(ms, m, (n - 1) as nat, i);
    }
}

/// Where an authority's dictionary units hold, its dictionaries have no fault.
proof fn lemma_dictionaries_hold(e: EnvView, a: Authority, s: ReadStoreView, n: nat)
    requires
        all_hold(e),
        source::authority_view(e, a) == Some(s),
        open::opened_parts(e.c.members, s.manifest, s.manifest.parts.len()) == Ok::<
            Seq<PartView>,
            OpenError,
        >(s.parts),
        forall|u: UnitView|
            source::piece_units(s.manifest.parts, a, s.manifest.parts.len()).contains(u)
                ==> #[trigger] source::plan_of(e).contains(u),
        n <= s.parts.len(),
    ensures
        artifact::dictionaries_fault(s.parts, s.fold, n) is None,
    decreases n,
{
    if n > 0 {
        lemma_dictionaries_hold(e, a, s, (n - 1) as nat);
        let refs = s.manifest.parts;
        lemma_opened_each(e.c.members, s.manifest, refs.len(), n - 1);
        let u = UnitView::PartPieces { member: refs[n - 1].member, authority: a };
        assert(source::piece_units(refs, a, refs.len())[n - 1] == u);
        assert(source::plan_of(e).contains(u));
        lemma_holds(e, u);
    }
}

pub proof fn lemma_part_planned(e: EnvView, name: Seq<char>, n: nat, u: UnitView)
    requires
        n <= e.names.len(),
        exists|i: int| 0 <= i < n && #[trigger] e.names[i] == name,
        source::one_part_units(e.c.members, name).contains(u),
    ensures
        source::part_units(e, n).contains(u),
    decreases n,
{
    let before = source::part_units(e, (n - 1) as nat);
    let more = source::one_part_units(e.c.members, e.names[n - 1]);
    if e.names[n - 1] == name {
        lemma_right(before, more, u);
    } else {
        let i = choose|i: int| 0 <= i < n && #[trigger] e.names[i] == name;
        assert(e.names[i] == name);
        lemma_part_planned(e, name, (n - 1) as nat, u);
        lemma_left(before, more, u);
    }
}

/// Where a part's digest units hold, no pin of it drifts.
proof fn lemma_digest_holds(e: EnvView, name: Seq<char>)
    requires
        all_hold(e),
        e.names.contains(name),
        container::position_of(e.c.members, name) is Some,
        e.c.members[container::position_of(e.c.members, name)->0].bytes.len() <= u64::MAX,
    ensures
        source::drift(
            e,
            name,
            manifest::link(e.c.members[container::position_of(e.c.members, name)->0].bytes),
        ) is None,
{
    let i = container::position_of(e.c.members, name)->0;
    let len = e.c.members[i].bytes.len() as u64;
    let windows = verify::windows_of(0, len);
    verify::lemma_tiles_cover(0, len, 0);
    let last = windows.len() - 1;
    assert(windows[last].1 == len);
    let u = UnitView::PartDigest { member: name, start: windows[last].0, stop: len };
    let d = source::digest_units(name, windows);
    assert(d[last] == u);
    let s = source::section_units(
        name,
        match e.c.members[i].part {
            Some(p) => p.sections as nat,
            None => 0,
        },
    );
    let g = seq![UnitView::PartGrammar { member: name }];
    lemma_left(d, s, u);
    lemma_left(d + s, g, u);
    let k = choose|k: int| 0 <= k < e.names.len() && e.names[k] == name;
    assert(e.names[k] == name);
    lemma_part_planned(e, name, e.names.len(), u);
    lemma_planned(e, u);
    lemma_holds(e, u);
}

proof fn lemma_refs_each(refs: Seq<PartRefView>, member: Seq<char>, link: Seq<u8>, n: nat, i: int)
    requires
        0 <= i < n,
        !source::refs_drift(refs, member, link, n),
        refs[i].member == member,
    ensures
        encode_utf8(refs[i].b3) == link,
    decreases n,
{
    if i < n - 1 {
        lemma_refs_each(refs, member, link, (n - 1) as nat, i);
    }
}

proof fn lemma_drift_each(
    retained: Seq<(u64, ReadStoreView)>,
    member: Seq<char>,
    link: Seq<u8>,
    n: nat,
    k: int,
)
    requires
        0 <= k < n,
        source::retained_drift(retained, member, link, n) is None,
    ensures
        ({
            let refs = retained[k].1.manifest.parts;
            !source::refs_drift(refs, member, link, refs.len())
        }),
    decreases n,
{
    if k < n - 1 {
        lemma_drift_each(retained, member, link, (n - 1) as nat, k);
    }
}

/// Shallow pins that do not drift, of parts that open, are deep pins.
proof fn lemma_pins_deep(
    ms: Seq<MemberView>,
    commits: Seq<u64>,
    i: int,
    m: ManifestView,
    n: nat,
)
    requires
        n <= m.parts.len(),
        chain::pins_fault(ms, commits, i, m, false, n) is None,
        forall|j: int|
            0 <= j < n ==> chain::opened(ms, #[trigger] m.parts[j]) is Ok && encode_utf8(
                m.parts[j].b3,
            ) == manifest::link(ms[container::position_of(ms, m.parts[j].member)->0].bytes),
    ensures
        chain::pins_fault(ms, commits, i, m, true, n) is None,
    decreases n,
{
    if n > 0 {
        lemma_pins_deep(ms, commits, i, m, (n - 1) as nat);
        assert(chain::opened(ms, m.parts[n - 1]) is Ok);
    }
}

proof fn lemma_links_deep(
    ms: Seq<MemberView>,
    current: Option<ManifestView>,
    commits: Seq<u64>,
    n: nat,
)
    requires
        n <= commits.len(),
        chain::links_fault(ms, current, commits, n, false) is None,
        forall|k: int|
            0 <= k < n ==> {
                let m = chain::revision(ms, #[trigger] commits[k])->Ok_0.1;
                chain::pins_fault(ms, commits, k, m, false, m.parts.len()) is None
                    ==> chain::pins_fault(ms, commits, k, m, true, m.parts.len()) is None
            },
    ensures
        chain::links_fault(ms, current, commits, n, true) is None,
    decreases n,
{
    if n > 0 {
        lemma_links_deep(ms, current, commits, (n - 1) as nat);
        let m = chain::revision(ms, commits[n - 1])->Ok_0.1;
        assert(chain::link_fault(ms, current, commits, n - 1, false) is None);
        assert(chain::pins_fault(ms, commits, n - 1, m, false, m.parts.len()) is None);
    }
}

/// Sizes that a machine can hold.
pub open spec fn sized(e: EnvView) -> bool {
    &&& forall|i: int|
        0 <= i < e.c.members.len() ==> (#[trigger] e.c.members[i]).bytes.len() <= u64::MAX
    &&& view_sized(e.current)
    &&& forall|k: int| 0 <= k < e.retained.len() ==> view_sized((#[trigger] e.retained[k]).1)
}

/// Sizes of a view that a machine can hold.
pub open spec fn view_sized(s: ReadStoreView) -> bool {
    &&& s.parts.len() <= usize::MAX
    &&& forall|p: int| 0 <= p < s.parts.len() ==> (#[trigger] s.parts[p]).rows.len() <= usize::MAX
}

/// The pins of a named part agree with its bytes.
proof fn lemma_pin(e: EnvView, refs: Seq<PartRefView>, j: int)
    requires
        all_hold(e),
        sized(e),
        0 <= j < refs.len(),
        chain::opened(e.c.members, refs[j]) is Ok,
        e.names.contains(refs[j].member),
        e.retained.len() == 0 ==> refs == e.current.manifest.parts,
        e.retained.len() > 0 ==> exists|k: int|
            0 <= k < e.retained.len() && (#[trigger] e.retained[k]).1.manifest.parts == refs,
    ensures
        encode_utf8(refs[j].b3) == manifest::link(
            e.c.members[container::position_of(e.c.members, refs[j].member)->0].bytes,
        ),
{
    let ms = e.c.members;
    let name = refs[j].member;
    container::lemma_position_from(ms, name, 0);
    let i = container::position_of(ms, name)->0;
    assert(ms[i].bytes.len() <= u64::MAX);
    lemma_digest_holds(e, name);
    let link = manifest::link(ms[i].bytes);
    if e.retained.len() > 0 {
        let k = choose|k: int|
            0 <= k < e.retained.len() && (#[trigger] e.retained[k]).1.manifest.parts == refs;
        lemma_drift_each(e.retained, name, link, e.retained.len(), k);
    }
    lemma_refs_each(refs, name, link, refs.len(), j);
}

proof fn lemma_retained_pins(e: EnvView, limits: ReadLimits, k: int)
    requires
        all_hold(e),
        sized(e),
        source_run::env_opened(e, limits),
        0 <= k < e.retained.len(),
    ensures
        ({
            let ms = e.c.members;
            let commits = chain::retained_commits(ms);
            let m = chain::revision(ms, commits[k])->Ok_0.1;
            chain::pins_fault(ms, commits, k, m, false, m.parts.len()) is None
                ==> chain::pins_fault(ms, commits, k, m, true, m.parts.len()) is None
        }),
{
    let ms = e.c.members;
    let commits = chain::retained_commits(ms);
    let m = chain::revision(ms, commits[k])->Ok_0.1;
    assert(e.retained[k].0 == commits[k]);
    let s = e.retained[k].1;
    let under = open::under_current(m, e.current.manifest);
    assert(s.manifest == under);
    assert(s.manifest.parts == m.parts);
    if chain::pins_fault(ms, commits, k, m, false, m.parts.len()) is None {
        assert forall|j: int| 0 <= j < m.parts.len() implies chain::opened(
            ms,
            #[trigger] m.parts[j],
        ) is Ok && encode_utf8(m.parts[j].b3) == manifest::link(
            ms[container::position_of(ms, m.parts[j].member)->0].bytes,
        ) by {
            lemma_opened_each(ms, under, m.parts.len(), j);
            assert(under.parts[j] == m.parts[j]);
            assert(s.manifest.parts[j].member == m.parts[j].member);
            assert(namespace::names_part(s.manifest, m.parts[j].member));
            assert(namespace::names_part(e.retained[k].1.manifest, m.parts[j].member));
            assert(source_plan::named_anywhere(e, m.parts[j].member));
            assert(e.names.contains(m.parts[j].member));
            assert(e.retained[k].1.manifest.parts == m.parts);
            lemma_pin(e, m.parts, j);
        }
        lemma_pins_deep(ms, commits, k, m, m.parts.len());
    }
}

proof fn lemma_current_pins(e: EnvView, limits: ReadLimits)
    requires
        all_hold(e),
        sized(e),
        source_run::env_opened(e, limits),
        e.retained.len() == 0,
        chain::authority_of(e.c.members) is Some,
    ensures
        ({
            let ms = e.c.members;
            let m = chain::authority_of(ms)->0;
            let commits = chain::retained_commits(ms);
            chain::pins_fault(ms, commits, 0, m, false, m.parts.len()) is None
                ==> chain::pins_fault(ms, commits, 0, m, true, m.parts.len()) is None
        }),
{
    let ms = e.c.members;
    let m = chain::authority_of(ms)->0;
    let commits = chain::retained_commits(ms);
    assert(e.current.manifest == m);
    if chain::pins_fault(ms, commits, 0, m, false, m.parts.len()) is None {
        assert forall|j: int| 0 <= j < m.parts.len() implies chain::opened(
            ms,
            #[trigger] m.parts[j],
        ) is Ok && encode_utf8(m.parts[j].b3) == manifest::link(
            ms[container::position_of(ms, m.parts[j].member)->0].bytes,
        ) by {
            lemma_opened_each(ms, m, m.parts.len(), j);
            assert(namespace::names_part(e.current.manifest, m.parts[j].member));
            assert(source_plan::named_anywhere(e, m.parts[j].member));
            assert(e.names.contains(m.parts[j].member));
            lemma_pin(e, m.parts, j);
        }
        lemma_pins_deep(ms, commits, 0, m, m.parts.len());
    }
}

proof fn lemma_chain_deep(e: EnvView, limits: ReadLimits)
    requires
        all_hold(e),
        sized(e),
        source_run::env_opened(e, limits),
    ensures
        chain::chain_fault(e.c, true) is None,
{
    let ms = e.c.members;
    let commits = chain::retained_commits(ms);
    lemma_planned(e, UnitView::ManifestChain);
    lemma_holds(e, UnitView::ManifestChain);
    assert(chain::chain_fault(e.c, false) is None);
    let current = chain::authority_of(ms);
    if commits.len() > 0 {
        assert forall|k: int| 0 <= k < commits.len() implies {
            let m = chain::revision(ms, #[trigger] commits[k])->Ok_0.1;
            chain::pins_fault(ms, commits, k, m, false, m.parts.len()) is None
                ==> chain::pins_fault(ms, commits, k, m, true, m.parts.len()) is None
        } by {
            lemma_retained_pins(e, limits, k);
        }
        lemma_links_deep(ms, current, commits, commits.len());
    } else if current is Some {
        lemma_current_pins(e, limits);
    }
}

pub proof fn lemma_retained_found(retained: Seq<(u64, ReadStoreView)>, k: int)
    requires
        0 <= k < retained.len(),
        forall|a: int, b: int|
            0 <= a < retained.len() && 0 <= b < retained.len() && (#[trigger] retained[a]).0 == (
            #[trigger] retained[b]).0 ==> retained[a].1 == retained[b].1,
    ensures
        source::retained_at(retained, retained[k].0) == Some(retained[k].1),
    decreases retained.len(),
{
    if retained[0].0 == retained[k].0 {
        assert(retained[0].1 == retained[k].1);
    } else {
        let rest = retained.drop_first();
        assert forall|a: int, b: int|
            0 <= a < rest.len() && 0 <= b < rest.len() && (#[trigger] rest[a]).0 == (
            #[trigger] rest[b]).0 implies rest[a].1 == rest[b].1 by {
            assert(rest[a] == retained[a + 1] && rest[b] == retained[b + 1]);
        }
        assert(rest[k - 1] == retained[k]);
        lemma_retained_found(rest, k - 1);
    }
}

proof fn lemma_retained_one_holds(e: EnvView, limits: ReadLimits, k: int)
    requires
        all_hold(e),
        sized(e),
        source_run::env_opened(e, limits),
        0 <= k < e.retained.len(),
    ensures
        artifact::retained_one(
            e.c.members,
            e.current.manifest,
            limits,
            chain::retained_commits(e.c.members)[k],
        ) is None,
{
    let ms = e.c.members;
    let commits = chain::retained_commits(ms);
    let (commit, s) = e.retained[k];
    let a = Authority::Retained(commit);
    assert(e.retained[k].0 == commits[k]);
    assert forall|x: int, y: int|
        0 <= x < e.retained.len() && 0 <= y < e.retained.len() && (#[trigger] e.retained[x]).0 == (
        #[trigger] e.retained[y]).0 implies e.retained[x].1 == e.retained[y].1 by {
        assert(e.retained[x].0 == commits[x] && e.retained[y].0 == commits[y]);
    }
    lemma_retained_found(e.retained, k);
    assert(source::authority_view(e, a) == Some(s));
    let refs = s.manifest.parts;
    assert forall|u: UnitView| source::piece_units(refs, a, refs.len()).contains(
        u,
    ) implies #[trigger] source::plan_of(e).contains(u) by {
        lemma_retained_planned(e, k, e.retained.len(), u);
        lemma_planned(e, u);
    }
    assert forall|u: UnitView| source::content_units(s, a, s.parts.len()).contains(
        u,
    ) implies #[trigger] source::plan_of(e).contains(u) by {
        lemma_retained_planned(e, k, e.retained.len(), u);
        lemma_planned(e, u);
    }
    assert(view_sized(e.retained[k].1));
    lemma_opened_each(ms, s.manifest, refs.len(), 0);
    lemma_dictionaries_hold(e, a, s, s.parts.len());
    lemma_values_hold(e, a, s, s.parts.len());
}

proof fn lemma_retained_all_hold(e: EnvView, limits: ReadLimits, n: nat)
    requires
        all_hold(e),
        sized(e),
        source_run::env_opened(e, limits),
        n <= e.retained.len(),
    ensures
        artifact::retained_all(
            e.c.members,
            e.current.manifest,
            limits,
            chain::retained_commits(e.c.members),
            n,
        ) is None,
    decreases n,
{
    if n > 0 {
        lemma_retained_all_hold(e, limits, (n - 1) as nat);
        lemma_retained_one_holds(e, limits, n - 1);
    }
}

/// Where every planned unit holds, the current authority's frames, dictionaries and values do.
proof fn lemma_current_holds(e: EnvView, limits: ReadLimits)
    requires
        source_run::env_opened(e, limits),
        container::names_ascending(e.c.members),
        sized(e),
        all_hold(e),
    ensures
        artifact::frames_fault(e.current.fold, e.current.fold.segments.len()) is None,
        artifact::dictionaries_fault(e.current.parts, e.current.fold, e.current.parts.len())
            is None,
        audit::values_fault(e.current.parts, e.current.fold, false, e.current.parts.len()) is None,
{
    let ms = e.c.members;
    let s = e.current;
    let a = Authority::Current;
    let refs = s.manifest.parts;
    let f = s.fold;
    assert forall|u: UnitView| source::piece_units(refs, a, refs.len()).contains(
        u,
    ) implies #[trigger] source::plan_of(e).contains(u) by {
        lemma_planned(e, u);
    }
    assert forall|u: UnitView| source::content_units(s, a, s.parts.len()).contains(
        u,
    ) implies #[trigger] source::plan_of(e).contains(u) by {
        lemma_planned(e, u);
    }
    assert forall|u: UnitView| source::frame_units(f, f.segments.len()).contains(
        u,
    ) implies #[trigger] source::unit_fault(e, u) is None by {
        lemma_planned(e, u);
        lemma_holds(e, u);
    }
    frame_laws::lemma_fold_laid_out(ms, s.manifest, s.manifest.punched, TailRule::Exact, limits);
    frame_laws::lemma_frames_hold(e, f.segments.len());
    lemma_opened_each(ms, s.manifest, refs.len(), 0);
    lemma_dictionaries_hold(e, a, s, s.parts.len());
    lemma_values_hold(e, a, s, s.parts.len());
}

/// A container whose every planned unit holds verifies whole.
pub proof fn lemma_units_compose(e: EnvView, limits: ReadLimits)
    requires
        source_run::env_opened(e, limits),
        container::names_ascending(e.c.members),
        sized(e),
        e.c.members.len() <= limits.max_directory_entries,
        all_hold(e),
    ensures
        artifact::artifact(e.c, limits) is Ok,
{
    lemma_chain_deep(e, limits);
    lemma_current_holds(e, limits);
    lemma_retained_all_hold(e, limits, e.retained.len());
    checksum_laws::lemma_checksums(e);
    checksum_laws::lemma_members(e, limits);
    if chain::authority_of(e.c.members) is Some {
        assert(e.current.manifest == chain::authority_of(e.c.members)->0);
    }
}

} // verus!
