//! Laws of copies: what a backup carries, what a working directory gets, and what a directory's
//! synchronization makes due.

use crate::bytes;
use crate::container;
use crate::container::{ContainerView, MemberView};
use crate::store::artifact;
use crate::store::backup;
use crate::store::backup::BackupError;
use crate::store::chain;
use crate::store::checksum;
use crate::store::commit_laws;
use crate::store::container_store;
use crate::store::manifest;
use crate::store::manifest::ManifestView;
use crate::store::names;
use crate::store::open;
use crate::store::sum_laws;
use crate::vfs;
use crate::vfs::PendingView;
use vstd::prelude::*;
use vstd::utf8::*;

verus! {

// ---------------------------------------------------------------------------------------------
// Backups.
// ---------------------------------------------------------------------------------------------
/// Whether a member belongs to one revision alone: its manifest, its parts, its fold generation.
pub open spec fn of_revision(m: ManifestView, name: Seq<char>) -> bool {
    ||| name == "MANIFEST"@
    ||| exists|j: int| 0 <= j < m.parts.len() && (#[trigger] m.parts[j]).member == name
    ||| bytes::starts_with(encode_utf8(name), names::fold_root(m.fold_gen))
}

proof fn lemma_carried(m: ManifestView, name: Seq<char>)
    ensures
        backup::carried(m, name) <==> m.commit != 0 && of_revision(m, name),
{
}

proof fn lemma_carried_among(ms: Seq<MemberView>, m: ManifestView, n: nat)
    requires
        n <= ms.len(),
    ensures
        ({
            let out = backup::carried_among(ms, m, n);
            &&& forall|i: int|
                #![trigger ms[i]]
                0 <= i < n && backup::carried(m, ms[i].name) ==> out.contains(
                    container::recorded(ms[i]),
                )
            &&& forall|y: MemberView| #[trigger]
                out.contains(y) ==> exists|i: int|
                    0 <= i < n && backup::carried(m, (#[trigger] ms[i]).name) && y
                        == container::recorded(ms[i])
            &&& out.len() == sum_laws::count(n, |i: int| backup::carried(m, ms[i].name))
        }),
    decreases n,
{
    let meets = |i: int| backup::carried(m, ms[i].name);
    if n > 0 {
        let k = (n - 1) as nat;
        lemma_carried_among(ms, m, k);
        sum_laws::lemma_count(k, meets);
        let before = backup::carried_among(ms, m, k);
        let out = backup::carried_among(ms, m, n);
        assert forall|i: int|
            #![trigger ms[i]]
            0 <= i < n && backup::carried(m, ms[i].name) implies out.contains(
            container::recorded(ms[i]),
        ) by {
            let y = container::recorded(ms[i]);
            if i < k {
                assert(before.contains(y));
                let j = choose|j: int| 0 <= j < before.len() && before[j] == y;
                assert(out[j] == y);
            } else {
                assert(out[out.len() - 1] == y);
            }
        }
        assert forall|y: MemberView| #[trigger] out.contains(y) implies exists|i: int|
            0 <= i < n && backup::carried(m, (#[trigger] ms[i]).name) && y == container::recorded(
                ms[i],
            ) by {
            let j = choose|j: int| 0 <= j < out.len() && out[j] == y;
            if j < before.len() {
                assert(before[j] == y);
                assert(before.contains(y));
                let i = choose|i: int|
                    0 <= i < k && backup::carried(m, (#[trigger] ms[i]).name) && y
                        == container::recorded(ms[i]);
                assert(backup::carried(m, ms[i].name));
            } else {
                assert(backup::carried(m, ms[n - 1].name));
            }
        }
    } else {
        sum_laws::lemma_count(0, meets);
    }
}

/// A backup of a revision holds exactly what belongs to it, byte for byte, and nothing of any other
/// revision; a backup of the origin holds nothing.
pub proof fn lemma_backup_holds(c: ContainerView, m: ManifestView, y: MemberView)
    requires
        c.members.contains(y),
    ensures
        ({
            let copy = backup::copied(c, m).members;
            &&& m.commit != 0 && of_revision(m, y.name) ==> exists|k: int|
                0 <= k < copy.len() && (#[trigger] copy[k]).name == y.name && copy[k].bytes
                    == y.bytes
            &&& forall|k: int|
                0 <= k < copy.len() ==> m.commit != 0 && of_revision(
                    m,
                    (#[trigger] copy[k]).name,
                )
        }),
{
    let ms = c.members;
    let copy = backup::copied(c, m).members;
    lemma_carried_among(ms, m, ms.len());
    lemma_carried(m, y.name);
    let i = choose|i: int| 0 <= i < ms.len() && ms[i] == y;
    if m.commit != 0 && of_revision(m, y.name) {
        assert(copy.contains(container::recorded(ms[i])));
        let k = choose|k: int| 0 <= k < copy.len() && copy[k] == container::recorded(ms[i]);
        assert(copy[k].name == y.name && copy[k].bytes == y.bytes);
    }
    assert forall|k: int| 0 <= k < copy.len() implies m.commit != 0 && of_revision(
        m,
        (#[trigger] copy[k]).name,
    ) by {
        assert(copy.contains(copy[k]));
        let j = choose|j: int|
            0 <= j < ms.len() && backup::carried(m, (#[trigger] ms[j]).name) && copy[k]
                == container::recorded(ms[j]);
        lemma_carried(m, ms[j].name);
    }
}

proof fn lemma_part_lost(ms: Seq<MemberView>, m: ManifestView, n: nat)
    requires
        n <= m.parts.len(),
    ensures
        match backup::part_lost(ms, m, n) {
            None => forall|i: int|
                0 <= i < n ==> commit_laws::held(ms, (#[trigger] m.parts[i]).member) is Some,
            Some(e) => exists|i: int|
                0 <= i < n && commit_laws::held(ms, (#[trigger] m.parts[i]).member) is None && e
                    == (BackupError::PartLost { index: i as usize }),
        },
    decreases n,
{
    if n > 0 {
        lemma_part_lost(ms, m, (n - 1) as nat);
    }
}

/// A backup is refused as incomplete exactly where the container lacks the manifest or a part of the
/// revision that is backed up.
pub proof fn lemma_backup_lost(ms: Seq<MemberView>, m: ManifestView)
    requires
        m.commit != 0,
    ensures
        backup::lost(ms, m) is None <==> {
            &&& commit_laws::held(ms, "MANIFEST"@) is Some
            &&& forall|i: int|
                0 <= i < m.parts.len() ==> commit_laws::held(
                    ms,
                    (#[trigger] m.parts[i]).member,
                ) is Some
        },
{
    lemma_part_lost(ms, m, m.parts.len());
}

proof fn lemma_members_bytes(ms: Seq<MemberView>, n: nat)
    requires
        n <= ms.len(),
    ensures
        artifact::members_bytes(ms, n) == sum_laws::sum(n, |i: int| ms[i].bytes.len()),
    decreases n,
{
    let k = (n - 1) as nat;
    sum_laws::lemma_sum(k, |i: int| ms[i].bytes.len());
    if n > 0 {
        lemma_members_bytes(ms, k);
    }
}

/// What a backup counts: its members, their bytes, and the revision.
pub proof fn lemma_backup_counts(c: ContainerView, m: ManifestView)
    requires
        c.members.len() <= usize::MAX,
    ensures
        ({
            let copy = backup::copied(c, m);
            let r = backup::backup_stats(copy, m);
            &&& r.members == sum_laws::count(
                c.members.len(),
                |i: int| m.commit != 0 && of_revision(m, c.members[i].name),
            )
            &&& r.bytes == sum_laws::held_at(
                sum_laws::sum(copy.members.len(), |i: int| copy.members[i].bytes.len()),
                u64::MAX as nat,
            )
            &&& r.commit == m.commit
            &&& copy.seq == 0 <==> m.commit == 0
            &&& copy.seq <= 1
        }),
{
    let ms = c.members;
    let copy = backup::copied(c, m);
    lemma_carried_among(ms, m, ms.len());
    lemma_members_bytes(copy.members, copy.members.len());
    let a = |i: int| backup::carried(m, ms[i].name);
    let b = |i: int| m.commit != 0 && of_revision(m, ms[i].name);
    assert forall|i: int| 0 <= i < ms.len() implies #[trigger] a(i) == b(i) by {
        lemma_carried(m, ms[i].name);
    }
    sum_laws::lemma_count_same(ms.len(), a, b);
    sum_laws::lemma_count(ms.len(), a);
}

/// What a verified artifact is: its members are the recorded ones and no more than a reader may
/// enumerate, its chain holds with every part opened, each retained revision verifies, and its current
/// view does; and what it counts: the members, all their bytes, and the revision it opens at.
pub proof fn lemma_artifact_counts(c: ContainerView, limits: crate::read_limits::ReadLimits)
    requires
        artifact::artifact(c, limits) is Ok,
        c.members.len() <= usize::MAX,
    ensures
        ({
            let r = artifact::artifact(c, limits)->Ok_0;
            let s = open::current_view(c, limits)->Ok_0;
            &&& r.members == c.members.len()
            &&& r.bytes == sum_laws::held_at(
                sum_laws::sum(c.members.len(), |i: int| c.members[i].bytes.len()),
                u64::MAX as nat,
            )
            &&& open::current_view(c, limits) is Ok
            &&& r.commit == s.manifest.commit
            &&& artifact::committed(s.parts, s.fold, chain::chain_report(c, true)) == Ok::<
                artifact::StoreVerification,
                artifact::ArtifactError,
            >(r.store)
            &&& chain::chain_fault(c, true) is None
            &&& checksum::members_fault(c.members, limits) is None
            &&& c.members.len() <= limits.max_directory_entries
            &&& chain::authority_of(c.members) matches Some(now) ==> artifact::retained_all(
                c.members,
                now,
                limits,
                chain::retained_commits(c.members),
                chain::retained_commits(c.members).len(),
            ) is None
        }),
{
    lemma_members_bytes(c.members, c.members.len());
}

// ---------------------------------------------------------------------------------------------
// Working directories.
// ---------------------------------------------------------------------------------------------
/// What follows the last slash of a name has none, and the name is what came before it, the slash,
/// and that; a name without a slash has nothing to follow one.
pub proof fn lemma_last_slash(s: Seq<u8>)
    ensures
        match container_store::after_last_slash(s) {
            Some(file) => {
                &&& !file.contains(47u8)
                &&& file.len() < s.len()
                &&& s[s.len() - file.len() - 1] == 47
                &&& s.skip(s.len() - file.len()) == file
            },
            None => !s.contains(47u8),
        },
    decreases s.len(),
{
    if s.len() > 0 && s.last() != 47 {
        let front = s.drop_last();
        lemma_last_slash(front);
        match container_store::after_last_slash(front) {
            Some(before) => {
                let file = before.push(s.last());
                assert(front.skip(front.len() - before.len()) == before);
                assert(s.skip(s.len() - file.len()) =~= file) by {
                    assert forall|i: int| 0 <= i < file.len() implies s.skip(
                        s.len() - file.len(),
                    )[i] == file[i] by {
                        if i < before.len() {
                            assert(before[i] == front.skip(front.len() - before.len())[i]);
                        }
                    }
                }
                if file.contains(47u8) {
                    let i = choose|i: int| 0 <= i < file.len() && file[i] == 47u8;
                    assert(before[i] == 47u8);
                }
            },
            None => {
                if s.contains(47u8) {
                    let i = choose|i: int| 0 <= i < s.len() && s[i] == 47u8;
                    assert(front[i] == 47u8);
                }
            },
        }
    } else if s.len() > 0 {
        assert(s.skip(s.len() as int) =~= Seq::<u8>::empty());
        assert(s[s.len() - 1] == 47u8);
    }
}

/// A working directory gets, in order and byte for byte, every member that is neither a part nor a
/// fold segment that nothing can cut any more.
pub proof fn lemma_materialized(ms: Seq<MemberView>, n: nat)
    requires
        n <= ms.len(),
    ensures
        container_store::materialized(ms, n) == ms.take(n as int).filter(
            |m: MemberView|
                !(bytes::starts_with(encode_utf8(m.name), encode_utf8("part-"@))
                    && bytes::ends_with(encode_utf8(m.name), encode_utf8(".part"@)))
                    && !container_store::sealed_segment(
                    m.name,
                    container_store::first_live(ms),
                ),
        ).map_values(|m: MemberView| (m.name, m.bytes)),
    decreases n,
{
    reveal(Seq::filter);
    let keep = |m: MemberView|
        !(bytes::starts_with(encode_utf8(m.name), encode_utf8("part-"@)) && bytes::ends_with(
            encode_utf8(m.name),
            encode_utf8(".part"@),
        )) && !container_store::sealed_segment(m.name, container_store::first_live(ms));
    let as_file = |m: MemberView| (m.name, m.bytes);
    if n > 0 {
        let k = (n - 1) as nat;
        lemma_materialized(ms, k);
        let now = ms.take(n as int);
        assert(now.drop_last() =~= ms.take(k as int));
        assert(now.last() == ms[n - 1]);
        let before = ms.take(k as int).filter(keep);
        assert(before.push(ms[n - 1]).map_values(as_file) =~= before.map_values(as_file).push(
            as_file(ms[n - 1]),
        ));
    } else {
        assert(ms.take(0) =~= Seq::<MemberView>::empty());
        assert(Seq::<MemberView>::empty().map_values(as_file) =~= Seq::<
            (Seq<char>, Seq<u8>),
        >::empty());
    }
}

/// A segment stays behind exactly where it is a fold segment below the one that the current manifest
/// ends in; without a manifest that says so every segment is copied.
pub proof fn lemma_left_behind(ms: Seq<MemberView>, name: Seq<char>)
    ensures
        container_store::sealed_segment(name, container_store::first_live(ms)) ==> {
            &&& chain::authority_of(ms) is Some
            &&& manifest::tail_of(chain::authority_of(ms)->0) is Some
            &&& container_store::after_last_slash(encode_utf8(name)) is Some
            &&& names::segment_number(
                container_store::after_last_slash(encode_utf8(name))->0,
                encode_utf8("seg-"@),
                encode_utf8(".fold"@),
            ) matches Some(seg) && seg < (manifest::tail_of(chain::authority_of(ms)->0)->0).seg
        },
        chain::authority_of(ms) is Some && manifest::tail_of(chain::authority_of(ms)->0) is Some
            ==> (container_store::after_last_slash(encode_utf8(name)) matches Some(file) ==> (
        names::segment_number(file, encode_utf8("seg-"@), encode_utf8(".fold"@)) matches Some(seg)
            ==> (seg < (manifest::tail_of(chain::authority_of(ms)->0)->0).seg
            ==> container_store::sealed_segment(name, container_store::first_live(ms))))),
{
}

// ---------------------------------------------------------------------------------------------
// Pending names.
// ---------------------------------------------------------------------------------------------
/// What a synchronization of a directory makes due are its pending names, in the order they were
/// registered.
pub proof fn lemma_due(p: Seq<PendingView>, dir: Seq<char>, n: nat)
    requires
        n <= p.len(),
    ensures
        vfs::due_among(p, dir, n) == p.take(n as int).filter(
            |e: PendingView| vfs::synced(e.dir) == vfs::synced(dir),
        ),
    decreases n,
{
    reveal(Seq::filter);
    if n > 0 {
        lemma_due(p, dir, (n - 1) as nat);
        assert(p.take(n as int).drop_last() =~= p.take(n - 1));
        assert(p.take(n as int).last() == p[n - 1]);
    } else {
        assert(p.take(0) =~= Seq::<PendingView>::empty());
    }
}

/// A name is found under its temporary name exactly while it is pending, and the first registration
/// of it decides.
pub proof fn lemma_resolved(p: Seq<PendingView>, path: Seq<char>)
    ensures
        match vfs::pending_at(p, path) {
            Some(i) => {
                &&& 0 <= i < p.len()
                &&& p[i].path == path
                &&& vfs::resolved(p, path) == p[i].temp
                &&& forall|j: int| 0 <= j < i ==> (#[trigger] p[j]).path != path
            },
            None => {
                &&& vfs::resolved(p, path) == path
                &&& forall|j: int| 0 <= j < p.len() ==> (#[trigger] p[j]).path != path
            },
        },
    decreases p.len(),
{
    if p.len() > 0 && p[0].path != path {
        let rest = p.drop_first();
        lemma_resolved(rest, path);
        match vfs::pending_at(rest, path) {
            Some(i) => {
                assert(rest[i] == p[i + 1]);
                assert forall|j: int| 0 <= j < i + 1 implies (#[trigger] p[j]).path != path by {
                    if j > 0 {
                        assert(rest[j - 1] == p[j]);
                    }
                }
            },
            None => {
                assert forall|j: int| 0 <= j < p.len() implies (#[trigger] p[j]).path != path by {
                    if j > 0 {
                        assert(rest[j - 1] == p[j]);
                    }
                }
            },
        }
    }
}

} // verus!
