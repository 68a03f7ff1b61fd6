//! Which revisions a container retains.

use crate::container;
use crate::container::{ContainerView, MemberView};
use crate::read_limits::ReadLimits;
use crate::store::chain;
use crate::store::commit;
use crate::store::commit_laws;
use crate::store::manifest;
use crate::store::manifest::ManifestView;
use crate::store::names;
use crate::store::namespace;
use crate::store::open;
use crate::store::publish;
use crate::store::publish::{EncodedPart, PlanView};
use crate::store::refold;
use crate::store::refold::RefoldView;
use crate::store::whole_laws;
use crate::text;
use vstd::prelude::*;
use vstd::utf8::*;

verus! {

/// Where the chain holds, the retained revisions are at most as many as are kept, each follows the
/// one before it, and the last is the current one.
pub proof fn lemma_retained_history(c: ContainerView)
    requires
        chain::chain_fault(c, true) is None,
    ensures
        chain::history(chain::retained_commits(c.members), chain::authority_of(c.members)),
{
    let commits = chain::retained_commits(c.members);
    whole_laws::lemma_chain_shallow(c);
    assert forall|i: int, j: int| 0 <= i <= j < commits.len() implies #[trigger] commits[j]
        == #[trigger] commits[i] + (j - i) by {
        commit_laws::lemma_distance(c, i, j);
    }
    if commits.len() > 0 {
        commit_laws::lemma_newest(c);
    }
}

proof fn lemma_with_parts(
    ms: Seq<MemberView>,
    parts: Seq<PlanView>,
    encoded: Seq<EncodedPart>,
    n: nat,
)
    requires
        container::names_ascending(ms),
        n <= parts.len(),
    ensures
        container::names_ascending(refold::with_parts(ms, parts, encoded, n)),
        forall|y: MemberView| #[trigger]
            refold::with_parts(ms, parts, encoded, n).contains(y) ==> ms.contains(y) || exists|
                i: int,
            |
                0 <= i < n && y.name == (#[trigger] parts[i]).member,
    decreases n,
{
    if n > 0 {
        lemma_with_parts(ms, parts, encoded, (n - 1) as nat);
        let before = refold::with_parts(ms, parts, encoded, (n - 1) as nat);
        let x = publish::plan_member(parts[n - 1], encoded[n - 1]);
        container::lemma_put_sorted(before, x);
        assert forall|y: MemberView| #[trigger]
            refold::with_parts(ms, parts, encoded, n).contains(y) implies ms.contains(y) || exists|
            i: int,
        |
            0 <= i < n && y.name == (#[trigger] parts[i]).member by {
            if y == x {
                assert(y.name == parts[n - 1].member);
            } else {
                assert(before.contains(y));
            }
        }
    }
}

proof fn lemma_purged_kept(ms: Seq<MemberView>, commit: u64, n: nat)
    ensures
        refold::purged(ms, commit, n) == commit_laws::kept(
            ms,
            |name: Seq<char>| !refold::other_revision(name, commit),
            n,
        ),
    decreases n,
{
    if n > 0 {
        lemma_purged_kept(ms, commit, (n - 1) as nat);
    }
}

/// A refold leaves one retained revision: its own.
pub proof fn lemma_refold_retains(
    c: ContainerView,
    p: RefoldView,
    encoded: Seq<EncodedPart>,
    m: ManifestView,
    json: Seq<u8>,
)
    requires
        container::names_ascending(c.members),
        chain::chain_fault(c, false) is None,
        p.parts.len() == encoded.len(),
        m.parts == refold::rebuilt_refs(p.parts, encoded),
        manifest::manifest_fault(m) is None,
        m.commit > 0,
    ensures
        ({
            let staged = refold::refold_staged(c.members, p, encoded, m, json);
            chain::retained_commits(commit::swept(staged, m)) == seq![m.commit]
        }),
{
    let ms = c.members;
    let with = refold::with_parts(ms, p.parts, encoded, p.parts.len());
    let all = commit::committed(with, m, json);
    let staged = refold::refold_staged(ms, p, encoded, m, json);
    let left = commit::swept(staged, m);
    let own = text::chars(names::retained_name(m.commit));
    commit_laws::lemma_claims_canonical(ms);
    lemma_with_parts(ms, p.parts, encoded, p.parts.len());
    commit_laws::lemma_committed(with, m, json);
    commit_laws::lemma_retained_name(m.commit);
    commit_laws::lemma_current_name();
    lemma_purged_kept(all, m.commit, all.len());
    commit_laws::lemma_kept(all, |name: Seq<char>| !refold::other_revision(name, m.commit));
    commit_laws::lemma_swept_kept(staged, m, staged.len());
    commit_laws::lemma_kept(staged, |name: Seq<char>| commit::needed(staged, m, name));
    assert(commit_laws::canonical_claims(all)) by {
        assert forall|y: MemberView| #[trigger]
            all.contains(y) && namespace::claims_retained(y.name) implies exists|d: u64|
            encode_utf8(y.name) == #[trigger] names::retained_name(d) by {
            if y.name != own && y.name != "MANIFEST"@ {
                assert(with.contains(y));
                if !ms.contains(y) {
                    let i = choose|i: int|
                        0 <= i < p.parts.len() && y.name == (#[trigger] p.parts[i]).member;
                    assert(m.parts[i] == publish::plan_ref(p.parts[i], encoded[i].bytes@));
                    assert(namespace::names_part(m, y.name));
                    commit_laws::lemma_part_name(m, y.name);
                }
            } else if y.name == own {
                assert(encode_utf8(y.name) == names::retained_name(m.commit));
            }
        }
    }
    assert(commit_laws::canonical_claims(left)) by {
        assert forall|y: MemberView| #[trigger]
            left.contains(y) && namespace::claims_retained(y.name) implies exists|d: u64|
            encode_utf8(y.name) == #[trigger] names::retained_name(d) by {
            assert(staged.contains(y));
            assert(all.contains(y));
        }
    }
    commit_laws::lemma_retained_rising(left, left.len());
    let want = seq![m.commit];
    assert forall|d: u64| #[trigger] chain::retained_commits(left).contains(d) <==> want.contains(
        d,
    ) by {
        commit_laws::lemma_left_set(staged, left, m, d);
        chain::lemma_retained_among(staged, staged.len());
        if chain::retained_commits(staged).contains(d) {
            let i = choose|i: int|
                0 <= i < staged.len() && names::retained_commit(
                    encode_utf8((#[trigger] staged[i]).name),
                ) == Some(d);
            let y = staged[i];
            assert(staged.contains(y));
            assert(all.contains(y));
            commit_laws::lemma_claimed(all, y, d);
            assert(!refold::other_revision(y.name, m.commit));
            assert(want[0] == d);
        }
        if d == m.commit {
            let r = commit::manifest_member(own, m, json);
            assert(all.contains(r));
            assert(!refold::other_revision(r.name, m.commit));
            assert(staged.contains(r));
            let i = choose|i: int| 0 <= i < staged.len() && staged[i] == r;
            assert(names::retained_commit(encode_utf8(staged[i].name)) == Some(d));
            assert(want[0] == d);
        }
    }
    commit_laws::lemma_rising_unique(chain::retained_commits(left), want);
}

/// A revision that a container does not retain is not served.
pub proof fn lemma_unretained_refused(
    name: Seq<u8>,
    c: ContainerView,
    commit: u64,
    limits: ReadLimits,
)
    requires
        !chain::retained_commits(c.members).contains(commit),
    ensures
        open::named_view_at(name, c, commit, limits) is Err,
{
    let ms = c.members;
    let own = text::chars(names::retained_name(commit));
    commit_laws::lemma_retained_name(commit);
    chain::lemma_retained_among(ms, ms.len());
    container::lemma_position_from(ms, own, 0);
    if container::position_of(ms, own) is Some {
        let i = container::position_of(ms, own)->0;
        assert(names::retained_commit(encode_utf8(ms[i].name)) == Some(commit));
    }
}

/// Time travel does not cross a refold: whatever was retained before it, its container serves no
/// revision but its own.
pub proof fn lemma_no_travel_across_refold(
    name: Seq<u8>,
    ms: Seq<MemberView>,
    p: RefoldView,
    encoded: Seq<EncodedPart>,
    m: ManifestView,
    json: Seq<u8>,
    seq: u64,
    commit: u64,
    limits: ReadLimits,
)
    requires
        commit != m.commit,
    ensures
        ({
            let staged = refold::refold_staged(ms, p, encoded, m, json);
            let after = ContainerView { seq, members: commit::swept(staged, m) };
            open::named_view_at(name, after, commit, limits) is Err
        }),
{
    let all = commit::committed(
        refold::with_parts(ms, p.parts, encoded, p.parts.len()),
        m,
        json,
    );
    let staged = refold::refold_staged(ms, p, encoded, m, json);
    let left = commit::swept(staged, m);
    let own = text::chars(names::retained_name(commit));
    let pure = |x: Seq<char>| !refold::other_revision(x, m.commit);
    commit_laws::lemma_retained_name(commit);
    container::lemma_position_from(left, own, 0);
    if container::position_of(left, own) is Some {
        let k = container::position_of(left, own)->0;
        lemma_purged_kept(all, m.commit, all.len());
        commit_laws::lemma_swept_kept(staged, m, staged.len());
        let j = commit_laws::lemma_kept_from(
            staged,
            |x: Seq<char>| commit::needed(staged, m, x),
            staged.len(),
            k,
        );
        let i = commit_laws::lemma_kept_from(all, pure, all.len(), j);
        assert(refold::other_revision(all[i].name, m.commit));
    }
}

} // verus!
