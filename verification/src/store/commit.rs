//! Committing a revision: the manifest and its retained copy, the window behind it, and what no
//! authority needs any more.
//!
//! All of it becomes visible at once: the host flips to the container it was staged in.

use crate::bytes;
use crate::container;
use crate::container::{Container, Member, MemberView};
use crate::hash;
use crate::store::chain;
use crate::store::chain::ChainError;
use crate::store::manifest;
use crate::store::manifest::{
    DecodedManifest, DecodedView, Manifest, ManifestError, ManifestView, MANIFEST_RETAIN,
};
use crate::store::names;
use crate::store::namespace;
use crate::text;
use vstd::prelude::*;
use vstd::utf8::*;

verus! {

/// How a host's attempt to flip its container to a staged state ended.
#[derive(Clone, Copy, Debug, PartialEq, Eq, Structural)]
pub enum CommitOutcome {
    /// The staged state is the container's, and survives a crash.
    Committed,
    /// The flip selected the staged state, and the barrier behind it failed: a crash may leave
    /// either state.
    SelectedUnsynced,
    /// The container is still in the state before.
    NotSelected,
}

/// A manifest's member under a name.
pub open spec fn manifest_member(name: Seq<char>, m: ManifestView, json: Seq<u8>) -> MemberView {
    MemberView {
        name,
        bytes: manifest::sealed(json),
        checksum: hash::crc32_of(manifest::sealed(json)),
        manifest: Some(DecodedView { manifest: m, encoded: json }),
        part: None,
        blocks: None,
    }
}

/// Whether a name is that of a retained revision the window behind `commit` no longer keeps.
pub open spec fn expired(name: Seq<char>, commit: u64) -> bool {
    match names::retained_commit(encode_utf8(name)) {
        Some(c) => c <= manifest::oldest_expired(commit) && encode_utf8(name)
            == names::retained_name(c),
        None => false,
    }
}

/// The first `n` members without the expired revisions.
pub open spec fn unexpired(ms: Seq<MemberView>, commit: u64, n: nat) -> Seq<MemberView>
    decreases n,
{
    if n == 0 {
        Seq::empty()
    } else {
        let before = unexpired(ms, commit, (n - 1) as nat);
        if expired(ms[n - 1].name, commit) {
            before
        } else {
            before.push(ms[n - 1])
        }
    }
}

/// Members with a revision and its retained copy, before the window moves.
pub open spec fn with_revision(ms: Seq<MemberView>, m: ManifestView, json: Seq<u8>) -> Seq<
    MemberView,
> {
    container::put_sorted(
        container::put_sorted(
            ms,
            manifest_member(text::chars(names::retained_name(m.commit)), m, json),
        ),
        manifest_member("MANIFEST"@, m, json),
    )
}

/// Members after a revision was committed.
pub open spec fn committed(ms: Seq<MemberView>, m: ManifestView, json: Seq<u8>) -> Seq<MemberView> {
    let all = with_revision(ms, m, json);
    unexpired(all, m.commit, all.len())
}

/// What is wrong first with the first `n` retained revisions.
pub open spec fn retained_fault(ms: Seq<MemberView>, commits: Seq<u64>, n: nat) -> Option<ChainError>
    decreases n,
{
    if n == 0 {
        None
    } else {
        match retained_fault(ms, commits, (n - 1) as nat) {
            Some(e) => Some(e),
            None => match chain::revision(ms, commits[n - 1]) {
                Ok(_) => None,
                Err(e) => Some(e),
            },
        }
    }
}

/// Whether one of the first `n` retained revisions references a fold generation.
pub open spec fn generation_before(ms: Seq<MemberView>, commits: Seq<u64>, n: int, g: u32) -> bool {
    exists|k: int|
        0 <= k < n && chain::revision(ms, #[trigger] commits[k])->Ok_0.1.fold_gen == g
}

/// Whether live or retained authority still needs a member.
pub open spec fn needed(ms: Seq<MemberView>, live: ManifestView, name: Seq<char>) -> bool {
    let b = encode_utf8(name);
    let commits = chain::retained_commits(ms);
    let n = commits.len() as int;
    if names::part_ends(b) {
        namespace::names_part(live, name) || chain::named_before(ms, commits, n, name)
    } else {
        match names::fold_generation(b) {
            Some(g) => live.fold_gen == g || generation_before(ms, commits, n, g),
            None => true,
        }
    }
}

/// The needed members among the first `n`.
pub open spec fn swept_among(ms: Seq<MemberView>, live: ManifestView, n: nat) -> Seq<MemberView>
    decreases n,
{
    if n == 0 {
        Seq::empty()
    } else {
        let before = swept_among(ms, live, (n - 1) as nat);
        if needed(ms, live, ms[n - 1].name) {
            before.push(ms[n - 1])
        } else {
            before
        }
    }
}

/// Members without those that no authority needs.
pub open spec fn swept(ms: Seq<MemberView>, live: ManifestView) -> Seq<MemberView> {
    swept_among(ms, live, ms.len())
}

fn is_expired(name: &str, oldest: u64, Ghost(commit): Ghost<u64>) -> (r: bool)
    requires
        oldest == manifest::oldest_expired(commit),
    ensures
        r == expired(name@, commit),
{
    match names::parse_retained(name.as_bytes()) {
        Some(c) => {
            if c > oldest {
                return false;
            }
            let canonical = names::retained_member(c);
            bytes::bytes_eq(name.as_bytes(), canonical.as_str().as_bytes())
        },
        None => false,
    }
}

fn copy(b: &Vec<u8>) -> (r: Vec<u8>)
    ensures
        r@ == b@,
{
    let mut out: Vec<u8> = Vec::new();
    bytes::append_bytes(&mut out, b.as_slice());
    assert(out@ =~= b@);
    out
}

/// Make a manifest the revision that follows a container's current one.
///
/// The link is to the bytes the container holds: the chain's claim is about what a verifier can
/// read back.
pub fn prepare_revision(c: &Container, m: &mut Manifest) -> (r: Result<(), ManifestError>)
    ensures
        ({
            let predecessor = match container::position_of(c@.members, "MANIFEST"@) {
                Some(i) => Some(c@.members[i].bytes),
                None => None,
            };
            match r {
                Ok(()) => manifest::succeeding(old(m)@, final(m)@, predecessor)
                    && manifest::manifest_fault(final(m)@) is None,
                Err(e) => if old(m)@.commit == u64::MAX {
                    e == ManifestError::RevisionsExhausted
                } else {
                    manifest::succeeding(old(m)@, final(m)@, predecessor)
                        && manifest::manifest_fault(final(m)@) == Some(e)
                },
            }
        }),
{
    match c.find("MANIFEST") {
        Some(i) => {
            assert(c@.members[i as int] == c.members@[i as int]@);
            m.next_revision(Some(c.members[i].bytes.as_slice()))
        },
        None => m.next_revision(None),
    }
}

/// Stage a revision, its retained copy, and the window behind it.
pub fn commit_into_container(c: &mut Container, m: &Manifest, json: &Vec<u8>)
    ensures
        final(c)@.members == committed(old(c)@.members, m@, json@),
        final(c)@.seq == old(c)@.seq,
{
    let ghost seq = c.seq;
    let sealed = manifest::seal_payload(json.as_slice());
    let checksum: u32 = hash::crc32(sealed.as_slice());
    let retained = Member {
        name: names::retained_member(m.commit),
        bytes: copy(&sealed),
        checksum,
        manifest: Some(DecodedManifest { manifest: m.clone(), encoded: copy(json) }),
        part: None,
        blocks: None,
    };
    let current = Member {
        name: "MANIFEST".to_owned(),
        bytes: sealed,
        checksum,
        manifest: Some(DecodedManifest { manifest: m.clone(), encoded: copy(json) }),
        part: None,
        blocks: None,
    };
    proof {
        assert(retained@ == manifest_member(
            text::chars(names::retained_name(m.commit)),
            m@,
            json@,
        ));
        assert(current@ == manifest_member("MANIFEST"@, m@, json@));
    }
    c.put(retained);
    c.put(current);
    let ghost all = c@.members;
    let oldest: u64 = if m.commit >= MANIFEST_RETAIN as u64 {
        m.commit - MANIFEST_RETAIN as u64
    } else {
        0
    };
    let mut kept: Vec<Member> = Vec::new();
    let mut i: usize = 0;
    assert(container::members_view(kept@) =~= Seq::<MemberView>::empty());
    while i < c.members.len()
        invariant
            all == c@.members,
            c.seq == seq,
            oldest == manifest::oldest_expired(m.commit),
            i <= c.members@.len(),
            container::members_view(kept@) == unexpired(all, m.commit, i as nat),
        decreases c.members.len() - i,
    {
        assert(all[i as int] == c.members@[i as int]@);
        if !is_expired(c.members[i].name.as_str(), oldest, Ghost(m.commit)) {
            let ghost before = kept@;
            let copied = c.members[i].clone();
            let ghost v = copied@;
            kept.push(copied);
            assert(container::members_view(kept@) =~= container::members_view(before).push(v));
        }
        i = i + 1;
    }
    c.members = kept;
}

proof fn lemma_retained_prefix(ms: Seq<MemberView>, commits: Seq<u64>, k: nat, n: nat)
    requires
        k <= n,
        retained_fault(ms, commits, k) is Some,
    ensures
        retained_fault(ms, commits, n) == retained_fault(ms, commits, k),
    decreases n,
{
    if k < n {
        lemma_retained_prefix(ms, commits, k, (n - 1) as nat);
    }
}

fn is_needed(
    c: &Container,
    live: &Manifest,
    retained: &Vec<Manifest>,
    name: &str,
) -> (r: bool)
    requires
        ({
            let commits = chain::retained_commits(c@.members);
            &&& retained@.len() == commits.len()
            &&& forall|k: int|
                0 <= k < commits.len() ==> chain::revision(c@.members, #[trigger] commits[k]) is Ok
                    && chain::revision(c@.members, commits[k])->Ok_0.1 == retained@[k]@
        }),
    ensures
        r == needed(c@.members, live@, name@),
{
    let ghost ms = c@.members;
    let ghost commits = chain::retained_commits(ms);
    if names::is_part(name.as_bytes()) {
        if namespace::manifest_names(live, name) {
            return true;
        }
        let mut k: usize = 0;
        while k < retained.len()
            invariant
                ms == c@.members,
                commits == chain::retained_commits(ms),
                retained@.len() == commits.len(),
                forall|j: int|
                    0 <= j < commits.len() ==> chain::revision(ms, #[trigger] commits[j]) is Ok
                        && chain::revision(ms, commits[j])->Ok_0.1 == retained@[j]@,
                k <= retained@.len(),
                names::part_ends(encode_utf8(name@)),
                !chain::named_before(ms, commits, k as int, name@),
            decreases retained.len() - k,
        {
            assert(chain::revision(ms, commits[k as int])->Ok_0.1 == retained@[k as int]@);
            if namespace::manifest_names(&retained[k], name) {
                assert(chain::named_before(ms, commits, commits.len() as int, name@));
                return true;
            }
            k = k + 1;
        }
        return false;
    }
    match names::fold_generation_of_member(name.as_bytes()) {
        None => true,
        Some(g) => {
            if live.fold_gen == g {
                return true;
            }
            let mut k: usize = 0;
            while k < retained.len()
                invariant
                    ms == c@.members,
                    commits == chain::retained_commits(ms),
                    retained@.len() == commits.len(),
                    forall|j: int|
                        0 <= j < commits.len() ==> chain::revision(ms, #[trigger] commits[j]) is Ok
                            && chain::revision(ms, commits[j])->Ok_0.1 == retained@[j]@,
                    k <= retained@.len(),
                    !names::part_ends(encode_utf8(name@)),
                    names::fold_generation(encode_utf8(name@)) == Some(g),
                    !generation_before(ms, commits, k as int, g),
                decreases retained.len() - k,
            {
                assert(chain::revision(ms, commits[k as int])->Ok_0.1 == retained@[k as int]@);
                if retained[k].fold_gen == g {
                    assert(generation_before(ms, commits, commits.len() as int, g));
                    return true;
                }
                k = k + 1;
            }
            false
        },
    }
}

/// The manifests of the retained revisions, or the first one that does not read.
pub fn read_retained(c: &Container, found: &Vec<u64>) -> (r: Result<Vec<Manifest>, ChainError>)
    requires
        found@ == chain::retained_commits(c@.members),
    ensures
        match r {
            Ok(retained) => {
                &&& retained_fault(c@.members, found@, found@.len()) is None
                &&& retained@.len() == found@.len()
                &&& forall|j: int|
                    0 <= j < found@.len() ==> chain::revision(c@.members, #[trigger] found@[j]) is Ok
                        && chain::revision(c@.members, found@[j])->Ok_0.1 == retained@[j]@
            },
            Err(e) => retained_fault(c@.members, found@, found@.len()) == Some(e),
        },
{
    let ghost ms = c@.members;
    let ghost commits = found@;
    let mut retained: Vec<Manifest> = Vec::new();
    let mut k: usize = 0;
    while k < found.len()
        invariant
            ms == c@.members,
            found@ == commits,
            k <= found@.len(),
            retained@.len() == k,
            retained_fault(ms, commits, k as nat) is None,
            forall|j: int|
                0 <= j < k ==> chain::revision(ms, #[trigger] commits[j]) is Ok && chain::revision(
                    ms,
                    commits[j],
                )->Ok_0.1 == retained@[j]@,
        decreases found.len() - k,
    {
        match chain::read_revision(c, found[k]) {
            Err(e) => {
                proof {
                    lemma_retained_prefix(ms, commits, (k + 1) as nat, commits.len());
                }
                return Err(e);
            },
            Ok((_, m)) => {
                retained.push(m);
            },
        }
        k = k + 1;
    }
    Ok(retained)
}

/// Remove the parts and fold members that neither the live manifest nor a retained one names. A
/// retained revision that does not read refuses the sweep, and nothing is removed.
pub fn sweep_unreachable_container(c: &mut Container, live: &Manifest) -> (r: Result<
    (),
    ChainError,
>)
    ensures
        final(c)@.seq == old(c)@.seq,
        ({
            let ms = old(c)@.members;
            let commits = chain::retained_commits(ms);
            match r {
                Ok(()) => retained_fault(ms, commits, commits.len()) is None
                    && final(c)@.members == swept(ms, live@),
                Err(e) => retained_fault(ms, commits, commits.len()) == Some(e)
                    && *final(c) == *old(c),
            }
        }),
{
    let ghost ms = c@.members;
    let found = chain::container_retained_commits(c);
    let ghost commits = chain::retained_commits(ms);
    let retained = match read_retained(c, &found) {
        Ok(r) => r,
        Err(e) => {
            return Err(e);
        },
    };
    let mut kept: Vec<Member> = Vec::new();
    let mut i: usize = 0;
    assert(container::members_view(kept@) =~= Seq::<MemberView>::empty());
    while i < c.members.len()
        invariant
            *c == *old(c),
            ms == c@.members,
            commits == chain::retained_commits(ms),
            retained@.len() == commits.len(),
            forall|j: int|
                0 <= j < commits.len() ==> chain::revision(ms, #[trigger] commits[j]) is Ok
                    && chain::revision(ms, commits[j])->Ok_0.1 == retained@[j]@,
            i <= c.members@.len(),
            container::members_view(kept@) == swept_among(ms, live@, i as nat),
        decreases c.members.len() - i,
    {
        assert(ms[i as int] == c.members@[i as int]@);
        if is_needed(c, live, &retained, c.members[i].name.as_str()) {
            let ghost before = kept@;
            let copied = c.members[i].clone();
            let ghost v = copied@;
            kept.push(copied);
            assert(container::members_view(kept@) =~= container::members_view(before).push(v));
        }
        i = i + 1;
    }
    c.members = kept;
    Ok(())
}

} // verus!
