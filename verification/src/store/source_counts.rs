//! Units count what a whole verification counts.

use crate::bytes;
use crate::container;
use crate::container::MemberView;
use crate::part;
use crate::part::PartView;
use crate::read_limits::ReadLimits;
use crate::store::artifact;
use crate::store::frame_laws;
use crate::store::audit;
use crate::store::audit::Tally;
use crate::store::chain;
use crate::store::manifest;
use crate::store::manifest::{ManifestView, PartRefView};
use crate::store::namespace;
use crate::store::open;
use crate::store::open::{OpenError, ReadStoreView};
use crate::store::read;
use crate::store::source;
use crate::store::source::{EnvView, Found, UnitView};
use crate::store::source_laws;
use crate::store::source_plan;
use crate::store::source_run;
use crate::store::verify;
use crate::store::verify::Authority;
use vstd::prelude::*;

verus! {

/// What a list of units finds.
pub open spec fn sum_units(e: EnvView, units: Seq<UnitView>) -> Found
    decreases units.len(),
{
    if units.len() == 0 {
        source::nothing()
    } else {
        source::joined(
            sum_units(e, units.drop_last()),
            source::unit_found(e, units.last()),
        )
    }
}

pub proof fn lemma_sum_add(e: EnvView, a: Seq<UnitView>, b: Seq<UnitView>)
    ensures
        sum_units(e, a + b) == source::joined(sum_units(e, a), sum_units(e, b)),
    decreases b.len(),
{
    if b.len() == 0 {
        assert(a + b =~= a);
    } else {
        lemma_sum_add(e, a, b.drop_last());
        assert((a + b).drop_last() =~= a + b.drop_last());
        assert((a + b).last() == b.last());
    }
}

proof fn lemma_sum_all(e: EnvView, units: Seq<UnitView>, done: Seq<bool>, n: nat)
    requires
        n <= units.len() == done.len(),
        forall|i: int| 0 <= i < done.len() ==> #[trigger] done[i],
    ensures
        source::found_among(e, units, done, n) == sum_units(e, units.take(n as int)),
    decreases n,
{
    if n > 0 {
        lemma_sum_all(e, units, done, (n - 1) as nat);
        let t = units.take(n as int);
        assert(t.drop_last() =~= units.take(n - 1));
        assert(t.last() == units[n - 1]);
        assert(done[n - 1]);
    } else {
        assert(units.take(0) =~= Seq::<UnitView>::empty());
    }
}

pub proof fn lemma_sum_one(e: EnvView, u: UnitView)
    ensures
        sum_units(e, seq![u]) == source::unit_found(e, u),
{
    reveal_with_fuel(sum_units, 2);
    assert(seq![u].drop_last() =~= Seq::<UnitView>::empty());
    assert(seq![u].last() == u);
}

/// Units that find nothing.
proof fn lemma_sum_nothing(e: EnvView, units: Seq<UnitView>)
    requires
        forall|i: int|
            0 <= i < units.len() ==> source::unit_found(e, #[trigger] units[i])
                == source::nothing(),
    ensures
        sum_units(e, units) == source::nothing(),
    decreases units.len(),
{
    if units.len() > 0 {
        let front = units.drop_last();
        assert forall|i: int| 0 <= i < front.len() implies source::unit_found(
            e,
            #[trigger] front[i],
        ) == source::nothing() by {
            assert(front[i] == units[i]);
        }
        lemma_sum_nothing(e, front);
        assert(units.last() == units[units.len() - 1]);
    }
}

// ---------------------------------------------------------------------------------------------
// Content.
// ---------------------------------------------------------------------------------------------
/// A tally as units count it.
pub open spec fn tally_found(t: Tally) -> Found {
    Found { records: t.records, values: t.values, bytes: t.bytes, ..source::nothing() }
}

proof fn lemma_rows_split(s: ReadStoreView, p: int, a: Seq<usize>, b: Seq<usize>)
    ensures
        source::rows_found(s, p, a + b, (a + b).len()) == source::joined(
            source::rows_found(s, p, a, a.len()),
            source::rows_found(s, p, b, b.len()),
        ),
    decreases b.len(),
{
    if b.len() == 0 {
        assert(a + b =~= a);
    } else {
        let front = b.drop_last();
        lemma_rows_split(s, p, a, front);
        lemma_rows_prefix(s, p, a + b, a + front, (a + front).len());
        lemma_rows_prefix(s, p, b, front, front.len());
        assert((a + b)[(a + b).len() - 1] == b[b.len() - 1]);
    }
}

proof fn lemma_rows_prefix(s: ReadStoreView, p: int, a: Seq<usize>, b: Seq<usize>, n: nat)
    requires
        n <= a.len(),
        n <= b.len(),
        forall|i: int| 0 <= i < n ==> a[i] == b[i],
    ensures
        source::rows_found(s, p, a, n) == source::rows_found(s, p, b, n),
    decreases n,
{
    if n > 0 {
        lemma_rows_prefix(s, p, a, b, (n - 1) as nat);
        assert(a[n - 1] == b[n - 1]);
    }
}

/// The windows of a part's visible rows find what the rows hold.
proof fn lemma_windows_found(e: EnvView, p: usize, at: nat)
    requires
        p < e.current.parts.len(),
        e.current.parts[p as int].rows.len() <= usize::MAX,
        at <= read::live_rows(
            e.current.parts,
            p as int,
            e.current.parts[p as int].rows.len(),
        ).len(),
    ensures
        ({
            let s = e.current;
            let live = read::live_rows(s.parts, p as int, s.parts[p as int].rows.len());
            let rest = live.subrange(at as int, live.len() as int);
            sum_units(
                e,
                source::window_units(Authority::Current, p, verify::row_tiles(at, live.len())),
            ) == source::rows_found(s, p as int, rest, rest.len())
        }),
    decreases
            read::live_rows(
                e.current.parts,
                p as int,
                e.current.parts[p as int].rows.len(),
            ).len() - at,
{
    let s = e.current;
    let live = read::live_rows(s.parts, p as int, s.parts[p as int].rows.len());
    let n = live.len();
    source_laws::lemma_live_len(s.parts, p as int, s.parts[p as int].rows.len());
    let tiles = verify::row_tiles(at, n);
    let units = source::window_units(Authority::Current, p, tiles);
    let rest = live.subrange(at as int, n as int);
    if at < n {
        let stop = if n - at <= verify::CONTENT_ROWS {
            n
        } else {
            (at + verify::CONTENT_ROWS) as nat
        };
        lemma_windows_found(e, p, stop);
        let first = UnitView::Content {
            authority: Authority::Current,
            part: p,
            start: at as usize,
            stop: stop as usize,
        };
        let more = source::window_units(Authority::Current, p, verify::row_tiles(stop, n));
        assert(units =~= seq![first] + more) by {
            assert(tiles =~= seq![(at, stop)] + verify::row_tiles(stop, n));
        }
        lemma_sum_add(e, seq![first], more);
        lemma_sum_one(e, first);
        let window = live.subrange(at as int, stop as int);
        let tail = live.subrange(stop as int, n as int);
        assert(source::window_rows(s, p as int, at as usize, stop as usize) == window);
        assert(rest =~= window + tail);
        lemma_rows_split(s, p as int, window, tail);
    } else {
        assert(units =~= Seq::<UnitView>::empty());
        assert(rest =~= Seq::<usize>::empty());
    }
}

/// The visible rows of a part hold what a tally of it counts.
proof fn lemma_live_tally(s: ReadStoreView, p: int, n: nat, t: Tally)
    requires
        n <= s.parts[p].rows.len() <= usize::MAX,
    ensures
        ({
            let live = read::live_rows(s.parts, p, n);
            tally_found(audit::tally_part(s.parts, s.fold, p, n, t)) == source::joined(
                tally_found(t),
                source::rows_found(s, p, live, live.len()),
            )
        }),
    decreases n,
{
    if n > 0 {
        lemma_live_tally(s, p, (n - 1) as nat, t);
        let before = read::live_rows(s.parts, p, (n - 1) as nat);
        let live = read::live_rows(s.parts, p, n);
        if read::verdict(s.parts, p, n - 1) == read::Verdict::Live {
            lemma_rows_prefix(s, p, live, before, before.len());
            assert(live[live.len() - 1] == n - 1);
        }
    }
}

/// The current authority's content units find what a tally counts.
proof fn lemma_content_found(e: EnvView, n: nat)
    requires
        n <= e.current.parts.len() <= usize::MAX,
        source_laws::view_sized(e.current),
    ensures
        sum_units(e, source::content_units(e.current, Authority::Current, n)) == tally_found(
            audit::tally(e.current.parts, e.current.fold, n),
        ),
    decreases n,
{
    if n > 0 {
        let s = e.current;
        lemma_content_found(e, (n - 1) as nat);
        let p = (n - 1) as usize;
        assert(s.parts[p as int].rows.len() <= usize::MAX);
        let live = read::live_rows(s.parts, p as int, s.parts[p as int].rows.len());
        let before = source::content_units(s, Authority::Current, (n - 1) as nat);
        let more = source::window_units(
            Authority::Current,
            p,
            verify::row_tiles(0, live.len()),
        );
        lemma_sum_add(e, before, more);
        lemma_windows_found(e, p, 0);
        assert(live.subrange(0, live.len() as int) =~= live);
        lemma_live_tally(
            s,
            p as int,
            s.parts[p as int].rows.len(),
            audit::tally(s.parts, s.fold, (n - 1) as nat),
        );
    }
}

// ---------------------------------------------------------------------------------------------
// Parts.
// ---------------------------------------------------------------------------------------------
/// What the units of one part find.
pub open spec fn part_found(e: EnvView, name: Seq<char>) -> Found {
    Found {
        digests: source::pins(e, name),
        sections: if namespace::names_part(e.current.manifest, name) {
            match source::part_at(e.c.members, name) {
                Some(p) => p.sections as nat,
                None => 0,
            }
        } else {
            0
        },
        ..source::nothing()
    }
}

proof fn lemma_digests_found(e: EnvView, name: Seq<char>, at: u64, len: u64)
    requires
        at <= len,
        container::position_of(e.c.members, name) is Some,
        e.c.members[container::position_of(e.c.members, name)->0].bytes.len() == len,
    ensures
        sum_units(e, source::digest_units(name, verify::tiles(at, len))) == if at < len {
            Found { digests: source::pins(e, name), ..source::nothing() }
        } else {
            source::nothing()
        },
    decreases len - at,
{
    let units = source::digest_units(name, verify::tiles(at, len));
    if at < len {
        let stop = verify::window_stop(at, len);
        lemma_digests_found(e, name, stop, len);
        let first = UnitView::PartDigest { member: name, start: at, stop };
        let more = source::digest_units(name, verify::tiles(stop, len));
        assert(units =~= seq![first] + more) by {
            assert(verify::tiles(at, len) =~= seq![(at, stop)] + verify::tiles(stop, len));
        }
        lemma_sum_add(e, seq![first], more);
        lemma_sum_one(e, first);
    } else {
        assert(units =~= Seq::<UnitView>::empty());
    }
}

proof fn lemma_sections_found(e: EnvView, name: Seq<char>, n: nat)
    ensures
        sum_units(e, source::section_units(name, n)) == if namespace::names_part(
            e.current.manifest,
            name,
        ) {
            Found { sections: n, ..source::nothing() }
        } else {
            source::nothing()
        },
    decreases n,
{
    let units = source::section_units(name, n);
    if n > 0 {
        lemma_sections_found(e, name, (n - 1) as nat);
        assert(units.drop_last() =~= source::section_units(name, (n - 1) as nat));
    }
}

proof fn lemma_one_part_found(e: EnvView, name: Seq<char>)
    requires
        container::position_of(e.c.members, name) is Some,
        e.c.members[container::position_of(e.c.members, name)->0].bytes.len() <= u64::MAX,
    ensures
        sum_units(e, source::one_part_units(e.c.members, name)) == part_found(e, name),
{
    let ms = e.c.members;
    let i = container::position_of(ms, name)->0;
    let len = ms[i].bytes.len() as u64;
    let windows = verify::windows_of(0, len);
    let d = source::digest_units(name, windows);
    let count = match ms[i].part {
        Some(p) => p.sections as nat,
        None => 0,
    };
    let s = source::section_units(name, count);
    let g = seq![UnitView::PartGrammar { member: name }];
    lemma_sum_add(e, d + s, g);
    lemma_sum_add(e, d, s);
    lemma_sum_nothing(e, g);
    lemma_sections_found(e, name, count);
    if len > 0 {
        lemma_digests_found(e, name, 0, len);
    } else {
        assert(windows =~= seq![(0u64, 0u64)]);
        let only = UnitView::PartDigest { member: name, start: 0, stop: 0 };
        assert(d =~= seq![only]);
        lemma_sum_one(e, only);
    }
}

/// What the first `n` named parts come to.
pub open spec fn parts_found(e: EnvView, n: nat) -> Found
    decreases n,
{
    if n == 0 {
        source::nothing()
    } else {
        source::joined(parts_found(e, (n - 1) as nat), part_found(e, e.names[n - 1]))
    }
}

proof fn lemma_parts_found(e: EnvView, n: nat)
    requires
        n <= e.names.len(),
        forall|i: int|
            0 <= i < e.names.len() ==> container::position_of(
                e.c.members,
                #[trigger] e.names[i],
            ) is Some,
        forall|i: int|
            0 <= i < e.c.members.len() ==> (#[trigger] e.c.members[i]).bytes.len() <= u64::MAX,
    ensures
        sum_units(e, source::part_units(e, n)) == parts_found(e, n),
    decreases n,
{
    if n > 0 {
        lemma_parts_found(e, (n - 1) as nat);
        let name = e.names[n - 1];
        container::lemma_position_from(e.c.members, name, 0);
        let i = container::position_of(e.c.members, name)->0;
        assert(e.c.members[i].bytes.len() <= u64::MAX);
        lemma_one_part_found(e, name);
        lemma_sum_add(
            e,
            source::part_units(e, (n - 1) as nat),
            source::one_part_units(e.c.members, name),
        );
    }
}

/// How many references the first `n` names have together.
pub open spec fn names_refs(names: Seq<Seq<char>>, refs: Seq<PartRefView>, m: nat, n: nat) -> nat
    decreases n,
{
    if n == 0 {
        0
    } else {
        names_refs(names, refs, m, (n - 1) as nat) + source::refs_named(refs, names[n - 1], m)
    }
}

/// Distinct names.
pub open spec fn distinct(names: Seq<Seq<char>>) -> bool {
    forall|i: int, j: int| 0 <= i < j < names.len() ==> #[trigger] names[i] != #[trigger] names[j]
}

proof fn lemma_names_step(names: Seq<Seq<char>>, refs: Seq<PartRefView>, m: nat, n: nat)
    requires
        0 < m <= refs.len(),
        n <= names.len(),
        distinct(names),
    ensures
        names_refs(names, refs, m, n) == names_refs(names, refs, (m - 1) as nat, n) + if exists|
            i: int,
        |
            0 <= i < n && #[trigger] names[i] == refs[m - 1].member {
            1nat
        } else {
            0
        },
    decreases n,
{
    if n > 0 {
        lemma_names_step(names, refs, m, (n - 1) as nat);
        let x = refs[m - 1].member;
        if names[n - 1] == x {
            assert(!exists|i: int| 0 <= i < n - 1 && #[trigger] names[i] == x);
        } else if exists|i: int| 0 <= i < n && #[trigger] names[i] == x {
            let i = choose|i: int| 0 <= i < n && #[trigger] names[i] == x;
            assert(0 <= i < n - 1 && names[i] == x);
        }
    }
}

/// Every reference counts for exactly one name.
proof fn lemma_names_refs(names: Seq<Seq<char>>, refs: Seq<PartRefView>, m: nat)
    requires
        m <= refs.len(),
        distinct(names),
        forall|i: int| 0 <= i < refs.len() ==> names.contains((#[trigger] refs[i]).member),
    ensures
        names_refs(names, refs, m, names.len()) == m,
    decreases m,
{
    if m > 0 {
        lemma_names_refs(names, refs, (m - 1) as nat);
        lemma_names_step(names, refs, m, names.len());
        assert(names.contains(refs[m - 1].member));
        let i = choose|i: int| 0 <= i < names.len() && names[i] == refs[m - 1].member;
        assert(names[i] == refs[m - 1].member);
    } else {
        lemma_no_refs(names, refs, names.len());
    }
}

proof fn lemma_no_refs(names: Seq<Seq<char>>, refs: Seq<PartRefView>, n: nat)
    ensures
        names_refs(names, refs, 0, n) == 0,
    decreases n,
{
    if n > 0 {
        lemma_no_refs(names, refs, (n - 1) as nat);
    }
}

/// How many pins the first `n` names have in the first `m` retained revisions.
pub open spec fn names_retained(
    names: Seq<Seq<char>>,
    retained: Seq<(u64, ReadStoreView)>,
    m: nat,
    n: nat,
) -> nat
    decreases n,
{
    if n == 0 {
        0
    } else {
        names_retained(names, retained, m, (n - 1) as nat) + source::retained_named(
            retained,
            names[n - 1],
            m,
        )
    }
}

/// How many references the first `m` retained revisions have.
pub open spec fn refs_total(retained: Seq<(u64, ReadStoreView)>, m: nat) -> nat
    decreases m,
{
    if m == 0 {
        0
    } else {
        refs_total(retained, (m - 1) as nat) + retained[m - 1].1.manifest.parts.len()
    }
}

proof fn lemma_names_retained_step(
    names: Seq<Seq<char>>,
    retained: Seq<(u64, ReadStoreView)>,
    m: nat,
    n: nat,
)
    requires
        0 < m <= retained.len(),
        n <= names.len(),
    ensures
        ({
            let refs = retained[m - 1].1.manifest.parts;
            names_retained(names, retained, m, n) == names_retained(
                names,
                retained,
                (m - 1) as nat,
                n,
            ) + names_refs(names, refs, refs.len(), n)
        }),
    decreases n,
{
    if n > 0 {
        lemma_names_retained_step(names, retained, m, (n - 1) as nat);
    }
}

proof fn lemma_names_retained(names: Seq<Seq<char>>, retained: Seq<(u64, ReadStoreView)>, m: nat)
    requires
        m <= retained.len(),
        distinct(names),
        forall|k: int, i: int|
            0 <= k < retained.len() && 0 <= i < (#[trigger] retained[k]).1.manifest.parts.len()
                ==> names.contains((#[trigger] retained[k].1.manifest.parts[i]).member),
    ensures
        names_retained(names, retained, m, names.len()) == refs_total(retained, m),
    decreases m,
{
    if m > 0 {
        lemma_names_retained(names, retained, (m - 1) as nat);
        lemma_names_retained_step(names, retained, m, names.len());
        let refs = retained[m - 1].1.manifest.parts;
        assert forall|i: int| 0 <= i < refs.len() implies names.contains(
            (#[trigger] refs[i]).member,
        ) by {
            assert(names.contains(retained[m - 1].1.manifest.parts[i].member));
        }
        lemma_names_refs(names, refs, refs.len());
    } else {
        lemma_none_retained(names, retained, names.len());
    }
}

proof fn lemma_none_retained(names: Seq<Seq<char>>, retained: Seq<(u64, ReadStoreView)>, n: nat)
    ensures
        names_retained(names, retained, 0, n) == 0,
    decreases n,
{
    if n > 0 {
        lemma_none_retained(names, retained, (n - 1) as nat);
    }
}

proof fn lemma_parts_digests(e: EnvView, n: nat)
    requires
        n <= e.names.len(),
    ensures
        parts_found(e, n).digests == if e.retained.len() > 0 {
            names_retained(e.names, e.retained, e.retained.len(), n)
        } else {
            names_refs(
                e.names,
                e.current.manifest.parts,
                e.current.manifest.parts.len(),
                n,
            )
        },
    decreases n,
{
    if n > 0 {
        lemma_parts_digests(e, (n - 1) as nat);
    }
}

// ---------------------------------------------------------------------------------------------
// Sections.
// ---------------------------------------------------------------------------------------------
/// How many sections a part has.
pub open spec fn sections_of(ms: Seq<MemberView>, name: Seq<char>) -> nat {
    match source::part_at(ms, name) {
        Some(p) => p.sections as nat,
        None => 0,
    }
}

/// The sections of the first `m` references to a name.
pub open spec fn ref_sections(ms: Seq<MemberView>, refs: Seq<PartRefView>, x: Seq<char>, m: nat) -> nat
    decreases m,
{
    if m == 0 {
        0
    } else {
        ref_sections(ms, refs, x, (m - 1) as nat) + if refs[m - 1].member == x {
            sections_of(ms, x)
        } else {
            0
        }
    }
}

/// The sections of the first `m` references to the first `n` names.
pub open spec fn names_sections(
    ms: Seq<MemberView>,
    names: Seq<Seq<char>>,
    refs: Seq<PartRefView>,
    m: nat,
    n: nat,
) -> nat
    decreases n,
{
    if n == 0 {
        0
    } else {
        names_sections(ms, names, refs, m, (n - 1) as nat) + ref_sections(
            ms,
            refs,
            names[n - 1],
            m,
        )
    }
}

proof fn lemma_sections_step(
    ms: Seq<MemberView>,
    names: Seq<Seq<char>>,
    refs: Seq<PartRefView>,
    m: nat,
    n: nat,
)
    requires
        0 < m <= refs.len(),
        n <= names.len(),
        distinct(names),
    ensures
        names_sections(ms, names, refs, m, n) == names_sections(
            ms,
            names,
            refs,
            (m - 1) as nat,
            n,
        ) + if exists|i: int| 0 <= i < n && #[trigger] names[i] == refs[m - 1].member {
            sections_of(ms, refs[m - 1].member)
        } else {
            0
        },
    decreases n,
{
    if n > 0 {
        lemma_sections_step(ms, names, refs, m, (n - 1) as nat);
        let x = refs[m - 1].member;
        if names[n - 1] == x {
            assert(!exists|i: int| 0 <= i < n - 1 && #[trigger] names[i] == x);
        } else if exists|i: int| 0 <= i < n && #[trigger] names[i] == x {
            let i = choose|i: int| 0 <= i < n && #[trigger] names[i] == x;
            assert(0 <= i < n - 1 && names[i] == x);
        }
    }
}

proof fn lemma_no_sections(
    ms: Seq<MemberView>,
    names: Seq<Seq<char>>,
    refs: Seq<PartRefView>,
    n: nat,
)
    ensures
        names_sections(ms, names, refs, 0, n) == 0,
    decreases n,
{
    if n > 0 {
        lemma_no_sections(ms, names, refs, (n - 1) as nat);
    }
}

/// The sections of all names are those of the parts a manifest opens.
proof fn lemma_names_sections(
    ms: Seq<MemberView>,
    names: Seq<Seq<char>>,
    man: ManifestView,
    parts: Seq<PartView>,
    m: nat,
)
    requires
        m <= man.parts.len(),
        distinct(names),
        open::opened_parts(ms, man, man.parts.len()) == Ok::<Seq<PartView>, OpenError>(parts),
        forall|i: int| 0 <= i < man.parts.len() ==> names.contains((#[trigger] man.parts[i]).member),
    ensures
        names_sections(ms, names, man.parts, m, names.len()) == artifact::sections_total(parts, m),
    decreases m,
{
    if m > 0 {
        lemma_names_sections(ms, names, man, parts, (m - 1) as nat);
        lemma_sections_step(ms, names, man.parts, m, names.len());
        let x = man.parts[m - 1].member;
        assert(names.contains(x));
        let i = choose|i: int| 0 <= i < names.len() && names[i] == x;
        assert(names[i] == x);
        source_laws::lemma_opened_each(ms, man, man.parts.len(), m - 1);
        assert(sections_of(ms, x) == parts[m - 1].sections);
    } else {
        lemma_no_sections(ms, names, man.parts, names.len());
    }
}

/// Members that a manifest names once each.
pub open spec fn refs_distinct(refs: Seq<PartRefView>) -> bool {
    forall|i: int, j: int|
        0 <= i < j < refs.len() ==> (#[trigger] refs[i]).member != (#[trigger] refs[j]).member
}

proof fn lemma_ref_sections(ms: Seq<MemberView>, refs: Seq<PartRefView>, x: Seq<char>, m: nat)
    requires
        m <= refs.len(),
        refs_distinct(refs),
    ensures
        ref_sections(ms, refs, x, m) == if exists|j: int|
            0 <= j < m && (#[trigger] refs[j]).member == x {
            sections_of(ms, x)
        } else {
            0
        },
    decreases m,
{
    if m > 0 {
        lemma_ref_sections(ms, refs, x, (m - 1) as nat);
        if refs[m - 1].member == x {
            assert(!exists|j: int| 0 <= j < m - 1 && (#[trigger] refs[j]).member == x);
        } else if exists|j: int| 0 <= j < m && (#[trigger] refs[j]).member == x {
            let j = choose|j: int| 0 <= j < m && (#[trigger] refs[j]).member == x;
            assert(0 <= j < m - 1 && refs[j].member == x);
        }
    }
}

proof fn lemma_parts_sections(e: EnvView, n: nat)
    requires
        n <= e.names.len(),
        refs_distinct(e.current.manifest.parts),
    ensures
        parts_found(e, n).sections == names_sections(
            e.c.members,
            e.names,
            e.current.manifest.parts,
            e.current.manifest.parts.len(),
            n,
        ),
    decreases n,
{
    if n > 0 {
        lemma_parts_sections(e, (n - 1) as nat);
        let refs = e.current.manifest.parts;
        lemma_ref_sections(e.c.members, refs, e.names[n - 1], refs.len());
    }
}

/// A valid manifest names each member once.
proof fn lemma_valid_distinct(m: ManifestView, n: nat)
    requires
        n <= m.parts.len(),
        manifest::parts_fault(m.parts, m.fold_gen, n) is None,
    ensures
        forall|i: int, j: int|
            0 <= i < j < n ==> (#[trigger] m.parts[i]).member != (#[trigger] m.parts[j]).member,
    decreases n,
{
    if n > 0 {
        lemma_valid_distinct(m, (n - 1) as nat);
        assert(manifest::part_fault(m.parts, m.fold_gen, n - 1) is None);
        assert forall|i: int, j: int| 0 <= i < j < n implies (#[trigger] m.parts[i]).member != (
        #[trigger] m.parts[j]).member by {
            if j == n - 1 {
                assert(m.parts[i].member != m.parts[n - 1].member);
            }
        }
    }
}

// ---------------------------------------------------------------------------------------------
// The whole.
// ---------------------------------------------------------------------------------------------
proof fn lemma_members_nothing(e: EnvView, n: nat)
    ensures
        sum_units(e, source::member_units(e, n)) == source::nothing(),
    decreases n,
{
    if n > 0 {
        lemma_members_nothing(e, (n - 1) as nat);
        let m = e.c.members[n - 1];
        let more = source::checksum_units(m.name, verify::windows_of(0, m.bytes.len() as u64));
        lemma_sum_nothing(e, more);
        lemma_sum_add(e, source::member_units(e, (n - 1) as nat), more);
    }
}

proof fn lemma_content_nothing(e: EnvView, s: ReadStoreView, commit: u64, n: nat)
    ensures
        sum_units(e, source::content_units(s, Authority::Retained(commit), n))
            == source::nothing(),
    decreases n,
{
    if n > 0 {
        lemma_content_nothing(e, s, commit, (n - 1) as nat);
        let a = Authority::Retained(commit);
        let live = read::live_rows(s.parts, n - 1, s.parts[n - 1].rows.len());
        let more = source::window_units(a, (n - 1) as usize, verify::row_tiles(0, live.len()));
        lemma_sum_nothing(e, more);
        lemma_sum_add(e, source::content_units(s, a, (n - 1) as nat), more);
    }
}

proof fn lemma_retained_nothing(e: EnvView, n: nat)
    requires
        n <= e.retained.len(),
    ensures
        sum_units(e, source::retained_units(e, n)) == source::nothing(),
    decreases n,
{
    if n > 0 {
        lemma_retained_nothing(e, (n - 1) as nat);
        let (commit, s) = e.retained[n - 1];
        let a = Authority::Retained(commit);
        let refs = s.manifest.parts;
        let before = source::retained_units(e, (n - 1) as nat);
        let d = source::piece_units(refs, a, refs.len());
        let v = source::content_units(s, a, s.parts.len());
        lemma_sum_nothing(e, d);
        lemma_content_nothing(e, s, commit, s.parts.len());
        lemma_sum_add(e, before, d);
        lemma_sum_add(e, before + d, v);
    }
}

/// What all units find: the counts of a whole verification, and the frames that were walked.
proof fn lemma_plan_found(e: EnvView)
    requires
        source_laws::sized(e),
        frame_laws::laid_out(e.current.fold.segments, e.current.fold.blocks),
        artifact::frames_fault(e.current.fold, e.current.fold.segments.len()) is None,
        forall|i: int|
            0 <= i < e.names.len() ==> container::position_of(
                e.c.members,
                #[trigger] e.names[i],
            ) is Some,
    ensures
        ({
            let all = source_run::all_found(e);
            let p = parts_found(e, e.names.len());
            let t = audit::tally(e.current.parts, e.current.fold, e.current.parts.len());
            let f = e.current.fold;
            &&& all.segments == f.segments.len()
            &&& all.blocks == f.blocks.len()
            &&& all.fold_bytes == artifact::decoded_bytes(f.blocks, f.blocks.len())
            &&& all.digests == p.digests
            &&& all.sections == p.sections
            &&& all.records == t.records
            &&& all.values == t.values
            &&& all.bytes == t.bytes
        }),
{
    reveal(source::plan_of);
    let units = source::plan_of(e);
    let done = Seq::new(units.len(), |i: int| true);
    lemma_sum_all(e, units, done, units.len());
    assert(units.take(units.len() as int) =~= units);
    let refs = e.current.manifest.parts;
    let fold = e.current.fold;
    let m = source::member_units(e, e.c.members.len());
    let c = seq![UnitView::ManifestChain];
    let p = source::part_units(e, e.names.len());
    let d = source::piece_units(refs, Authority::Current, refs.len());
    let f = source::frame_units(fold, fold.segments.len());
    let v = source::content_units(e.current, Authority::Current, e.current.parts.len());
    let r = source::retained_units(e, e.retained.len());
    lemma_sum_add(e, m, c);
    lemma_sum_add(e, m + c, p);
    lemma_sum_add(e, m + c + p, d);
    lemma_sum_add(e, m + c + p + d, f);
    lemma_sum_add(e, m + c + p + d + f, v);
    lemma_sum_add(e, m + c + p + d + f + v, r);
    lemma_members_nothing(e, e.c.members.len());
    lemma_sum_nothing(e, c);
    lemma_parts_found(e, e.names.len());
    lemma_parts_only(e, e.names.len());
    lemma_sum_nothing(e, d);
    frame_laws::lemma_frames_found(e);
    lemma_content_found(e, e.current.parts.len());
    lemma_retained_nothing(e, e.retained.len());
}

proof fn lemma_parts_only(e: EnvView, n: nat)
    ensures
        ({
            let f = parts_found(e, n);
            f == (Found { digests: f.digests, sections: f.sections, ..source::nothing() })
        }),
    decreases n,
{
    if n > 0 {
        lemma_parts_only(e, (n - 1) as nat);
    }
}

proof fn lemma_refs_total(e: EnvView, limits: ReadLimits, n: nat)
    requires
        source_run::env_opened(e, limits),
        n <= e.retained.len(),
    ensures
        refs_total(e.retained, n) == chain::pins_total(
            e.c.members,
            chain::retained_commits(e.c.members),
            n,
        ),
    decreases n,
{
    if n > 0 {
        lemma_refs_total(e, limits, (n - 1) as nat);
        assert(e.retained[n - 1].0 == chain::retained_commits(e.c.members)[n - 1]);
    }
}

/// A container whose every planned unit holds verifies whole, and the units together report
/// exactly what the whole verification reports: its members and revision, its chain, its frames,
/// its digests and sections, its records and their values.
pub proof fn lemma_units_report(e: EnvView, limits: ReadLimits)
    requires
        source_run::env_opened(e, limits),
        container::names_ascending(e.c.members),
        source_laws::sized(e),
        e.c.members.len() <= limits.max_directory_entries,
        source_laws::all_hold(e),
    ensures
        artifact::artifact(e.c, limits) is Ok,
        ({
            let whole = artifact::artifact(e.c, limits)->Ok_0;
            let report = source_run::report_of(e, source::held(source_run::all_found(e)));
            &&& report.members == whole.members
            &&& report.member_bytes == whole.bytes
            &&& report.commit == whole.commit
            &&& report.store == whole.store
        }),
{
    let ms = e.c.members;
    let man = e.current.manifest;
    assert(distinct(e.names)) by {
        assert forall|i: int, j: int| 0 <= i < j < e.names.len() implies #[trigger] e.names[i]
            != #[trigger] e.names[j] by {
            crate::bytes::lemma_name_order(e.names[i], e.names[j], e.names[j]);
        }
    }
    source_laws::lemma_units_compose(e, limits);
    frame_laws::lemma_fold_laid_out(ms, man, man.punched, open::TailRule::Exact, limits);
    assert forall|i: int| 0 <= i < e.names.len() implies container::position_of(
        ms,
        #[trigger] e.names[i],
    ) is Some by {
        let x = e.names[i];
        assert(e.names.contains(x));
        assert(source_plan::named_anywhere(e, x));
        if namespace::names_part(man, x) {
            let j = choose|j: int| 0 <= j < man.parts.len() && (#[trigger] man.parts[j]).member == x;
            source_laws::lemma_opened_each(ms, man, man.parts.len(), j);
        } else {
            let k = choose|k: int|
                0 <= k < e.retained.len() && namespace::names_part(
                    (#[trigger] e.retained[k]).1.manifest,
                    x,
                );
            let under = e.retained[k].1.manifest;
            let j = choose|j: int|
                0 <= j < under.parts.len() && (#[trigger] under.parts[j]).member == x;
            assert(e.retained[k].0 == chain::retained_commits(ms)[k]);
            source_laws::lemma_opened_each(ms, under, under.parts.len(), j);
        }
    }
    lemma_plan_found(e);
    lemma_parts_digests(e, e.names.len());
    assert(refs_distinct(man.parts)) by {
        if chain::authority_of(ms) is Some {
            lemma_valid_distinct(man, man.parts.len());
        }
    }
    lemma_parts_sections(e, e.names.len());
    assert forall|i: int| 0 <= i < man.parts.len() implies e.names.contains(
        (#[trigger] man.parts[i]).member,
    ) by {
        assert(namespace::names_part(man, man.parts[i].member));
        assert(source_plan::named_anywhere(e, man.parts[i].member));
    }
    lemma_names_sections(ms, e.names, man, e.current.parts, man.parts.len());
    source_laws::lemma_opened_each(ms, man, man.parts.len(), 0);
    if e.retained.len() > 0 {
        assert forall|k: int, i: int|
            0 <= k < e.retained.len() && 0 <= i < (
            #[trigger] e.retained[k]).1.manifest.parts.len() implies e.names.contains(
            (#[trigger] e.retained[k].1.manifest.parts[i]).member,
        ) by {
            let x = e.retained[k].1.manifest.parts[i].member;
            assert(namespace::names_part(e.retained[k].1.manifest, x));
            assert(source_plan::named_anywhere(e, x));
        }
        lemma_names_retained(e.names, e.retained, e.retained.len());
        lemma_refs_total(e, limits, e.retained.len());
    } else {
        lemma_names_refs(e.names, man.parts, man.parts.len());
        if chain::authority_of(ms) is None {
            assert(man.parts.len() == 0);
        }
    }
}

} // verus!
