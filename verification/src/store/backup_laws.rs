//! Laws of backup: a backup verifies where its store does, and reads the same.

use crate::bytes;
use crate::container;
use crate::container::{ContainerView, MemberView};
use crate::read_limits::ReadLimits;
use crate::store::artifact;
use crate::store::backup;
use crate::store::chain;
use crate::store::chain::ChainReport;
use crate::store::checksum;
use crate::store::debris;
use crate::store::manifest;
use crate::store::manifest::{FoldTail, ManifestView};
use crate::store::names;
use crate::store::namespace;
use crate::store::open;
use crate::store::open::{FoldRole, OpenError, ReadStoreView, TailRule};
use crate::text;
use vstd::prelude::*;
use vstd::utf8::*;

verus! {

// ---------------------------------------------------------------------------------------------
// Carried members.
// ---------------------------------------------------------------------------------------------
/// What is carried is a member that the backup carries.
proof fn lemma_carried_from(ms: Seq<MemberView>, m: ManifestView, n: nat, k: int) -> (i: int)
    requires
        n <= ms.len(),
        0 <= k < backup::carried_among(ms, m, n).len(),
    ensures
        0 <= i < n,
        backup::carried_among(ms, m, n)[k] == container::recorded(ms[i]),
        backup::carried(m, ms[i].name),
    decreases n,
{
    let before = backup::carried_among(ms, m, (n - 1) as nat);
    if k < before.len() {
        lemma_carried_from(ms, m, (n - 1) as nat, k)
    } else {
        n - 1
    }
}

/// A carried member is among what is carried, and the first of a name stays the first.
proof fn lemma_carried_to(ms: Seq<MemberView>, m: ManifestView, n: nat, i: int) -> (k: int)
    requires
        n <= ms.len(),
        0 <= i < n,
        backup::carried(m, ms[i].name),
    ensures
        0 <= k < backup::carried_among(ms, m, n).len(),
        backup::carried_among(ms, m, n)[k] == container::recorded(ms[i]),
        (forall|j: int| 0 <= j < i ==> (#[trigger] ms[j]).name != ms[i].name) ==> (forall|j: int|
            0 <= j < k ==> (#[trigger] backup::carried_among(ms, m, n)[j]).name != ms[i].name),
    decreases n,
{
    let all = backup::carried_among(ms, m, n);
    let before = backup::carried_among(ms, m, (n - 1) as nat);
    if i < n - 1 {
        let k = lemma_carried_to(ms, m, (n - 1) as nat, i);
        assert forall|j: int| 0 <= j < k implies #[trigger] all[j] == before[j] by {}
        k
    } else {
        if forall|j: int| 0 <= j < i ==> (#[trigger] ms[j]).name != ms[i].name {
            assert forall|j: int| 0 <= j < before.len() implies (#[trigger] all[j]).name
                != ms[i].name by {
                let h = lemma_carried_from(ms, m, (n - 1) as nat, j);
                assert(ms[h].name != ms[i].name);
            }
        }
        before.len() as int
    }
}

proof fn lemma_carried_len(ms: Seq<MemberView>, m: ManifestView, n: nat)
    ensures
        backup::carried_among(ms, m, n).len() <= n,
    decreases n,
{
    if n > 0 {
        lemma_carried_len(ms, m, (n - 1) as nat);
    }
}

/// A carried name finds the same member.
proof fn lemma_same_member(ms: Seq<MemberView>, m: ManifestView, name: Seq<char>)
    requires
        backup::carried(m, name),
    ensures
        ({
            let all = backup::carried_among(ms, m, ms.len());
            match container::position_of(ms, name) {
                None => container::position_of(all, name) is None,
                Some(i) => container::position_of(all, name) matches Some(k) && 0 <= i < ms.len()
                    && 0 <= k < all.len() && all[k] == container::recorded(ms[i]),
            }
        }),
{
    let all = backup::carried_among(ms, m, ms.len());
    container::lemma_position_from(ms, name, 0);
    container::lemma_position_from(all, name, 0);
    match container::position_of(ms, name) {
        None => {
            if container::position_of(all, name) is Some {
                let k = container::position_of(all, name)->0;
                let i = lemma_carried_from(ms, m, ms.len(), k);
                assert(ms[i].name == name);
            }
        },
        Some(i) => {
            let k = lemma_carried_to(ms, m, ms.len(), i);
            assert(all[k].name == name);
            let found = container::position_of(all, name)->0;
            if found < k {
                assert(all[found].name != ms[i].name);
            }
        },
    }
}

// ---------------------------------------------------------------------------------------------
// The fold.
// ---------------------------------------------------------------------------------------------
pub proof fn lemma_blocks_prefix(
    a: Seq<MemberView>,
    b: Seq<MemberView>,
    generation: u32,
    tail: Option<FoldTail>,
    rule: TailRule,
    n: nat,
)
    requires
        n <= a.len(),
        n <= b.len(),
        forall|i: int| 0 <= i < n ==> #[trigger] a[i] == b[i],
    ensures
        open::view_blocks(a, generation, tail, rule, n) == open::view_blocks(
            b,
            generation,
            tail,
            rule,
            n,
        ),
        open::view_segments(a, generation, tail, rule, n) == open::view_segments(
            b,
            generation,
            tail,
            rule,
            n,
        ),
    decreases n,
{
    if n > 0 {
        lemma_blocks_prefix(a, b, generation, tail, rule, (n - 1) as nat);
        assert(a[n - 1] == b[n - 1]);
    }
}

/// Only carried members hold blocks of the fold.
proof fn lemma_same_blocks(
    ms: Seq<MemberView>,
    m: ManifestView,
    tail: Option<FoldTail>,
    rule: TailRule,
    n: nat,
)
    requires
        n <= ms.len(),
        m.commit != 0,
    ensures
        ({
            let all = backup::carried_among(ms, m, n);
            &&& open::view_blocks(all, m.fold_gen, tail, rule, all.len()) == open::view_blocks(
                ms,
                m.fold_gen,
                tail,
                rule,
                n,
            )
            &&& open::view_segments(all, m.fold_gen, tail, rule, all.len())
                == open::view_segments(ms, m.fold_gen, tail, rule, n)
        }),
    decreases n,
{
    if n > 0 {
        let before = backup::carried_among(ms, m, (n - 1) as nat);
        let all = backup::carried_among(ms, m, n);
        lemma_same_blocks(ms, m, tail, rule, (n - 1) as nat);
        let x = ms[n - 1];
        if backup::carried(m, x.name) {
            lemma_blocks_prefix(before, all, m.fold_gen, tail, rule, before.len());
        } else {
            assert(open::member_blocks(x, m.fold_gen, tail, rule).len() == 0);
            assert(open::view_blocks(ms, m.fold_gen, tail, rule, n) =~= open::view_blocks(
                ms,
                m.fold_gen,
                tail,
                rule,
                (n - 1) as nat,
            ));
            assert(open::member_segments(x, m.fold_gen, tail, rule).len() == 0);
            assert(open::view_segments(ms, m.fold_gen, tail, rule, n) =~= open::view_segments(
                ms,
                m.fold_gen,
                tail,
                rule,
                (n - 1) as nat,
            ));
        }
    }
}

pub proof fn lemma_fold_fault_each(
    ms: Seq<MemberView>,
    generation: u32,
    tail: Option<FoldTail>,
    rule: TailRule,
    limits: ReadLimits,
    n: nat,
    i: int,
)
    requires
        0 <= i < n,
        open::fold_members_fault(ms, generation, tail, rule, limits, n) is None,
    ensures
        open::fold_member_fault(ms, generation, tail, rule, limits, i) is None,
    decreases n,
{
    if i < n - 1 {
        lemma_fold_fault_each(ms, generation, tail, rule, limits, (n - 1) as nat, i);
    }
}

pub proof fn lemma_orphan_each(ms: Seq<MemberView>, generation: u32, n: nat, i: int)
    requires
        0 <= i < n,
        open::orphan(ms, generation, n) is None,
    ensures
        open::role_of(ms[i].name, generation) matches FoldRole::Sidecar { seg } ==> open::has_segment(
            ms,
            generation,
            seg,
        ),
    decreases n,
{
    if i < n - 1 {
        lemma_orphan_each(ms, generation, (n - 1) as nat, i);
    }
}

/// The name of a block directory lies below its generation's root.
proof fn lemma_sidecar_carried(m: ManifestView, seg: u32)
    requires
        m.commit != 0,
    ensures
        backup::carried(m, text::chars(names::sidecar_name(m.fold_gen, seg))),
{
    let b = names::sidecar_name(m.fold_gen, seg);
    let root = names::fold_root(m.fold_gen);
    names::lemma_sidecar_ascii(m.fold_gen, seg);
    text::lemma_chars(b);
    assert(b.subrange(0, root.len() as int) =~= root);
}

proof fn lemma_same_segment(ms: Seq<MemberView>, m: ManifestView, seg: u32)
    requires
        m.commit != 0,
        open::has_segment(ms, m.fold_gen, seg),
    ensures
        open::has_segment(backup::carried_among(ms, m, ms.len()), m.fold_gen, seg),
{
    let i = choose|i: int|
        0 <= i < ms.len() && open::role_of((#[trigger] ms[i]).name, m.fold_gen) == (
        FoldRole::Segment { seg });
    let k = lemma_carried_to(ms, m, ms.len(), i);
    let all = backup::carried_among(ms, m, ms.len());
    assert(open::role_of(all[k].name, m.fold_gen) == FoldRole::Segment { seg });
}

proof fn lemma_fold_faults(
    ms: Seq<MemberView>,
    m: ManifestView,
    limits: ReadLimits,
    n: nat,
)
    requires
        m.commit != 0,
        n <= backup::carried_among(ms, m, ms.len()).len(),
        open::fold_members_fault(
            ms,
            m.fold_gen,
            manifest::tail_of(m),
            TailRule::Exact,
            limits,
            ms.len(),
        ) is None,
        open::orphan(ms, m.fold_gen, ms.len()) is None,
    ensures
        ({
            let all = backup::carried_among(ms, m, ms.len());
            &&& open::fold_members_fault(
                all,
                m.fold_gen,
                manifest::tail_of(m),
                TailRule::Exact,
                limits,
                n,
            ) is None
            &&& open::orphan(all, m.fold_gen, n) is None
        }),
    decreases n,
{
    if n > 0 {
        lemma_fold_faults(ms, m, limits, (n - 1) as nat);
        let all = backup::carried_among(ms, m, ms.len());
        let tail = manifest::tail_of(m);
        let i = lemma_carried_from(ms, m, ms.len(), n - 1);
        lemma_fold_fault_each(ms, m.fold_gen, tail, TailRule::Exact, limits, ms.len(), i);
        lemma_orphan_each(ms, m.fold_gen, ms.len(), i);
        match open::role_of(ms[i].name, m.fold_gen) {
            FoldRole::Segment { seg } => {
                lemma_sidecar_carried(m, seg);
                lemma_same_member(ms, m, text::chars(names::sidecar_name(m.fold_gen, seg)));
            },
            FoldRole::Sidecar { seg } => {
                lemma_same_segment(ms, m, seg);
            },
            _ => {},
        }
    }
}

/// A backup has the fold of its revision.
proof fn lemma_same_fold(ms: Seq<MemberView>, m: ManifestView, limits: ReadLimits)
    requires
        m.commit != 0,
        open::fold_of(ms, m, m.punched, TailRule::Exact, limits) is Ok,
    ensures
        open::fold_of(
            backup::carried_among(ms, m, ms.len()),
            m,
            m.punched,
            TailRule::Exact,
            limits,
        ) == open::fold_of(ms, m, m.punched, TailRule::Exact, limits),
{
    let all = backup::carried_among(ms, m, ms.len());
    let tail = manifest::tail_of(m);
    lemma_same_blocks(ms, m, tail, TailRule::Exact, ms.len());
    lemma_fold_faults(ms, m, limits, all.len());
    if tail is Some {
        lemma_same_segment(ms, m, tail->0.seg);
    }
}

// ---------------------------------------------------------------------------------------------
// The parts.
// ---------------------------------------------------------------------------------------------
/// A backup has the parts of its revision.
proof fn lemma_same_parts(ms: Seq<MemberView>, m: ManifestView, n: nat)
    requires
        m.commit != 0,
        n <= m.parts.len(),
    ensures
        open::opened_parts(backup::carried_among(ms, m, ms.len()), m, n) == open::opened_parts(
            ms,
            m,
            n,
        ),
    decreases n,
{
    if n > 0 {
        lemma_same_parts(ms, m, (n - 1) as nat);
        let name = m.parts[n - 1].member;
        assert(namespace::names_part(m, name));
        lemma_same_member(ms, m, name);
    }
}

/// Nothing that opened was lost.
proof fn lemma_nothing_lost(ms: Seq<MemberView>, m: ManifestView, n: nat)
    requires
        n <= m.parts.len(),
        open::opened_parts(ms, m, n) is Ok,
    ensures
        backup::part_lost(ms, m, n) is None,
    decreases n,
{
    if n > 0 {
        lemma_nothing_lost(ms, m, (n - 1) as nat);
    }
}

// ---------------------------------------------------------------------------------------------
// The namespace.
// ---------------------------------------------------------------------------------------------
/// A carried fold member is one of its generation.
proof fn lemma_fold_belongs(name: Seq<char>, generation: u32)
    requires
        generation <= names::MAX_FOLD_GENERATION,
        open::role_of(name, generation) != FoldRole::Other,
        open::role_of(name, generation) != FoldRole::Stray,
    ensures
        names::fold_member(encode_utf8(name)),
        names::fold_generation(encode_utf8(name)) == Some(generation),
{
    let b = encode_utf8(name);
    let root = names::fold_root(generation);
    let file = b.subrange(root.len() as int, b.len() as int);
    assert(b =~= root + file);
    names::lemma_below_root(generation, file);
}

/// The namespace of a backup holds.
proof fn lemma_same_namespace(ms: Seq<MemberView>, m: ManifestView, limits: ReadLimits, n: nat)
    requires
        m.commit != 0,
        m.fold_gen <= names::MAX_FOLD_GENERATION,
        n <= backup::carried_among(ms, m, ms.len()).len(),
        namespace::retained_fault(ms, ms.len()) is None,
        open::fold_of(ms, m, m.punched, TailRule::Exact, limits) is Ok,
    ensures
        ({
            let all = backup::carried_among(ms, m, ms.len());
            &&& namespace::retained_fault(all, n) is None
            &&& namespace::outside(all, Some(m), n) is None
        }),
    decreases n,
{
    if n > 0 {
        lemma_same_namespace(ms, m, limits, (n - 1) as nat);
        let all = backup::carried_among(ms, m, ms.len());
        let i = lemma_carried_from(ms, m, ms.len(), n - 1);
        namespace::lemma_retained_each(ms, ms.len(), i);
        let name = all[n - 1].name;
        if name == "MANIFEST"@ || namespace::names_part(m, name) {
            assert(namespace::admitted(all, Some(m), name));
        } else {
            lemma_fold_fault_each(
                ms,
                m.fold_gen,
                manifest::tail_of(m),
                TailRule::Exact,
                limits,
                ms.len(),
                i,
            );
            lemma_fold_belongs(name, m.fold_gen);
            assert(namespace::references(all, Some(m), m.fold_gen));
        }
        assert(namespace::belongs(all, Some(m), n - 1));
    }
}

/// A backup of the revision a container is at reads the same: the same records, in the same parts,
/// over the same fold. Nothing it needs is lost.
pub proof fn lemma_backup_reads(c: ContainerView, limits: ReadLimits)
    requires
        open::current_view(c, limits) is Ok,
    ensures
        ({
            let s = open::current_view(c, limits)->Ok_0;
            &&& backup::lost(c.members, s.manifest) is None
            &&& open::current_view(backup::copied(c, s.manifest), limits) == Ok::<
                ReadStoreView,
                OpenError,
            >(s)
        }),
{
    let ms = c.members;
    let s = open::current_view(c, limits)->Ok_0;
    let m = s.manifest;
    let copy = backup::copied(c, m);
    match chain::authority_of(ms) {
        None => {
            assert(m == manifest::origin());
            assert(ms =~= Seq::<MemberView>::empty());
            assert(copy.members =~= Seq::<MemberView>::empty());
            assert(copy == c);
        },
        Some(current) => {
            assert(m == current);
            assert(manifest::manifest_fault(m) is None);
            lemma_same_member(ms, m, "MANIFEST"@);
            container::lemma_position_from(ms, "MANIFEST"@, 0);
            lemma_nothing_lost(ms, m, m.parts.len());
            lemma_same_fold(ms, m, limits);
            lemma_same_parts(ms, m, m.parts.len());
            lemma_same_namespace(ms, m, limits, copy.members.len());
            assert(chain::authority_of(copy.members) == Some(m));
        },
    }
}

// ---------------------------------------------------------------------------------------------
// The chain.
// ---------------------------------------------------------------------------------------------
/// A carried name is no retained revision's.
proof fn lemma_not_retained(m: ManifestView, name: Seq<char>)
    requires
        manifest::manifest_fault(m) is None,
        backup::carried(m, name),
    ensures
        names::retained_commit(encode_utf8(name)) is None,
{
    let b = encode_utf8(name);
    reveal_strlit("MANIFEST");
    reveal_strlit("MANIFEST.");
    reveal_strlit("part-");
    reveal_strlit("part-r");
    reveal_strlit("fold");
    reveal_strlit("fold-");
    is_ascii_chars_encode_utf8("MANIFEST"@);
    is_ascii_chars_encode_utf8("MANIFEST."@);
    is_ascii_chars_encode_utf8("part-"@);
    is_ascii_chars_encode_utf8("part-r"@);
    is_ascii_chars_encode_utf8("fold"@);
    is_ascii_chars_encode_utf8("fold-"@);
    let prefix = encode_utf8("MANIFEST."@);
    if bytes::starts_with(b, prefix) {
        assert(b[0] == prefix[0]);
        assert(b.len() >= prefix.len());
        if name == "MANIFEST"@ {
        } else if namespace::names_part(m, name) {
            let j = choose|j: int| 0 <= j < m.parts.len() && (#[trigger] m.parts[j]).member == name;
            lemma_part_fault_each(m.parts, m.fold_gen, m.parts.len(), j);
            let p = m.parts[j];
            assert(names::part_member_allowed(b, p.seq_lo, p.seq_hi, m.fold_gen));
            assert(b[0] == 112u8);
        } else {
            let root = names::fold_root(m.fold_gen);
            assert(bytes::starts_with(b, root));
            assert(b.subrange(0, root.len() as int)[0] == b[0]);
            assert(root[0] == 102u8);
        }
    }
}

proof fn lemma_part_fault_each(
    parts: Seq<manifest::PartRefView>,
    fold_gen: u32,
    n: nat,
    i: int,
)
    requires
        0 <= i < n,
        manifest::parts_fault(parts, fold_gen, n) is None,
    ensures
        manifest::part_fault(parts, fold_gen, i) is None,
    decreases n,
{
    if i < n - 1 {
        lemma_part_fault_each(parts, fold_gen, (n - 1) as nat, i);
    }
}

/// A backup retains nothing.
proof fn lemma_none_retained(ms: Seq<MemberView>, m: ManifestView, n: nat)
    requires
        manifest::manifest_fault(m) is None,
        n <= backup::carried_among(ms, m, ms.len()).len(),
    ensures
        chain::retained_among(backup::carried_among(ms, m, ms.len()), n) == Seq::<u64>::empty(),
    decreases n,
{
    if n > 0 {
        lemma_none_retained(ms, m, (n - 1) as nat);
        let i = lemma_carried_from(ms, m, ms.len(), n - 1);
        lemma_not_retained(m, ms[i].name);
    }
}

proof fn lemma_pin_each(
    ms: Seq<MemberView>,
    commits: Seq<u64>,
    k: int,
    m: ManifestView,
    n: nat,
    i: int,
)
    requires
        0 <= i < n <= m.parts.len(),
        chain::pins_fault(ms, commits, k, m, true, n) is None,
    ensures
        container::position_of(ms, m.parts[i].member) is Some,
        encode_utf8(m.parts[i].b3) == manifest::link(
            ms[container::position_of(ms, m.parts[i].member)->0].bytes,
        ),
    decreases n,
{
    if i < n - 1 {
        lemma_pin_each(ms, commits, k, m, (n - 1) as nat, i);
    }
}

/// The parts of the current revision are pinned, whether it is the newest retained one or none is
/// retained.
proof fn lemma_current_pinned(c: ContainerView)
    requires
        chain::authority_of(c.members) is Some,
        chain::chain_fault(c, true) is None,
    ensures
        ({
            let m = chain::authority_of(c.members)->0;
            forall|i: int|
                0 <= i < m.parts.len() ==> container::position_of(
                    c.members,
                    (#[trigger] m.parts[i]).member,
                ) is Some && encode_utf8(m.parts[i].b3) == manifest::link(
                    c.members[container::position_of(c.members, m.parts[i].member)->0].bytes,
                )
        }),
{
    let ms = c.members;
    let commits = chain::retained_commits(ms);
    let m = chain::authority_of(ms)->0;
    let (commits_at, at) = if commits.len() > 0 {
        let last = commits.len() - 1;
        chain::lemma_links_each(ms, Some(m), commits, commits.len(), last, true);
        let name = text::chars(names::retained_name(commits[last]));
        container::lemma_position_from(ms, name, 0);
        container::lemma_position_from(ms, "MANIFEST"@, 0);
        let i = container::position_of(ms, name)->0;
        let j = container::position_of(ms, "MANIFEST"@)->0;
        assert(commits.last() == commits[last]);
        assert(ms[i].bytes == ms[j].bytes);
        assert(chain::revision(ms, commits[last])->Ok_0.1 == m);
        (commits, last)
    } else {
        (commits, 0)
    };
    assert(chain::pins_fault(ms, commits_at, at, m, true, m.parts.len()) is None);
    assert forall|i: int| 0 <= i < m.parts.len() implies container::position_of(
        ms,
        (#[trigger] m.parts[i]).member,
    ) is Some && encode_utf8(m.parts[i].b3) == manifest::link(
        ms[container::position_of(ms, m.parts[i].member)->0].bytes,
    ) by {
        lemma_pin_each(ms, commits_at, at, m, m.parts.len(), i);
    }
}

proof fn lemma_opened_ok(ms: Seq<MemberView>, m: ManifestView, n: nat, i: int)
    requires
        0 <= i < n <= m.parts.len(),
        open::opened_parts(ms, m, n) is Ok,
    ensures
        chain::opened(ms, m.parts[i]) is Ok,
    decreases n,
{
    if i < n - 1 {
        lemma_opened_ok(ms, m, (n - 1) as nat, i);
    }
}

proof fn lemma_backup_pins(ms: Seq<MemberView>, m: ManifestView, n: nat)
    requires
        m.commit != 0,
        n <= m.parts.len(),
        open::opened_parts(ms, m, m.parts.len()) is Ok,
        forall|i: int|
            0 <= i < m.parts.len() ==> container::position_of(
                ms,
                (#[trigger] m.parts[i]).member,
            ) is Some && encode_utf8(m.parts[i].b3) == manifest::link(
                ms[container::position_of(ms, m.parts[i].member)->0].bytes,
            ),
    ensures
        chain::pins_fault(
            backup::carried_among(ms, m, ms.len()),
            Seq::empty(),
            0,
            m,
            true,
            n,
        ) is None,
    decreases n,
{
    if n > 0 {
        lemma_backup_pins(ms, m, (n - 1) as nat);
        let r = m.parts[n - 1];
        assert(namespace::names_part(m, r.member));
        lemma_same_member(ms, m, r.member);
        lemma_opened_ok(ms, m, m.parts.len(), n - 1);
        assert(container::position_of(ms, r.member) is Some);
    }
}

/// A backup records the checksums of its own members.
proof fn lemma_backup_recorded(c: ContainerView, limits: ReadLimits)
    requires
        open::current_view(c, limits) is Ok,
        ({
            let f = open::current_view(c, limits)->Ok_0.fold;
            artifact::frames_fault(f, f.segments.len()) is None
        }),
    ensures
        ({
            let m = open::current_view(c, limits)->Ok_0.manifest;
            checksum::members_fault(backup::copied(c, m).members, limits) is None
        }),
{
    reveal(checksum::members_fault);
    let ms = c.members;
    let s = open::current_view(c, limits)->Ok_0;
    let m = s.manifest;
    let copy = backup::copied(c, m);
    lemma_backup_reads(c, limits);
    checksum::lemma_checksums_each(copy.members, limits, copy.members.len());
    assert forall|k: int| 0 <= k < copy.members.len() implies checksum::member_sound(
        copy.members,
        limits,
        #[trigger] copy.members[k],
    ) by {
        let i = lemma_carried_from(ms, m, ms.len(), k);
    }
    if chain::authority_of(copy.members) is Some {
        assert(chain::authority_of(copy.members) == Some(m));
        assert(open::fold_of(copy.members, m, m.punched, TailRule::Exact, limits) is Ok);
    }
}

/// A backup of a container that verifies, verifies: it is of the same revision, with no retained
/// revision and a digest for every part, and reports the same of everything else.
pub proof fn lemma_backup_verifies(c: ContainerView, limits: ReadLimits)
    requires
        artifact::artifact(c, limits) is Ok,
    ensures
        ({
            let m = open::current_view(c, limits)->Ok_0.manifest;
            let whole = artifact::artifact(c, limits)->Ok_0;
            &&& backup::backup_fault(c, m, limits) is None
            &&& artifact::artifact(backup::copied(c, m), limits) is Ok
            &&& ({
                let copy = artifact::artifact(backup::copied(c, m), limits)->Ok_0;
                &&& copy.commit == whole.commit
                &&& copy.store == (artifact::StoreVerification {
                    chain: ChainReport {
                        retained_manifests: 0,
                        links: 0,
                        part_digests: crate::store::audit::fit(m.parts.len()),
                    },
                    ..whole.store
                })
            })
        }),
{
    let ms = c.members;
    let s = open::current_view(c, limits)->Ok_0;
    let m = s.manifest;
    let copy = backup::copied(c, m);
    lemma_backup_reads(c, limits);
    lemma_carried_len(ms, m, ms.len());
    lemma_backup_recorded(c, limits);
    match chain::authority_of(ms) {
        None => {
            assert(ms =~= Seq::<MemberView>::empty());
            assert(copy.members =~= Seq::<MemberView>::empty());
            assert(copy == c);
            assert(chain::retained_commits(ms).len() == 0);
        },
        Some(current) => {
            assert(m == current);
            assert(manifest::manifest_fault(m) is None);
            lemma_none_retained(ms, m, copy.members.len());
            lemma_current_pinned(c);
            lemma_backup_pins(ms, m, m.parts.len());
            lemma_same_member(ms, m, "MANIFEST"@);
            assert(chain::current_of(copy.members) == chain::current_of(ms));
            assert(chain::retained_commits(copy.members) == Seq::<u64>::empty());
            assert(chain::chain_fault(copy, true) is None);
            assert(artifact::retained_authority_fault(copy, limits) is None);
        },
    }
}

/// A backup of a store that verifies can be restored under any name that is free and not reserved,
/// and what is restored is of the revision that was backed up and reads the same.
pub proof fn lemma_backup_restores(
    src: Seq<u8>,
    dst: Seq<u8>,
    c: ContainerView,
    limits: ReadLimits,
)
    requires
        !debris::reserved(src),
        !debris::reserved(dst),
        artifact::artifact(c, limits) is Ok,
    ensures
        ({
            let s = open::current_view(c, limits)->Ok_0;
            let copy = backup::copied(c, s.manifest);
            &&& backup::restored(src, dst, copy, None, limits, backup::uncancelled()) matches Ok(
                stats,
            ) && stats.commit == s.manifest.commit
            &&& open::current_view(copy, limits) == Ok::<ReadStoreView, OpenError>(s)
        }),
{
    lemma_backup_reads(c, limits);
    lemma_backup_verifies(c, limits);
}

} // verus!
