//! What a promotion leaves of a store: every older revision that still links and verifies, every
//! part that a revision left names, and the fold up to the end of the promoted revision.

use crate::bytes;
use crate::container;
use crate::container::{ContainerView, MemberView};
use crate::hash;
use crate::read_limits::ReadLimits;
use crate::store::artifact;
use crate::store::chain;
use crate::store::commit_laws;
use crate::store::manifest;
use crate::store::manifest::ManifestView;
use crate::store::names;
use crate::store::namespace;
use crate::store::open;
use crate::store::open::FoldRole;
use crate::store::promote;
use crate::store::promote::ManifestPromotionOptions;
use crate::store::promote_laws;
use crate::store::sum_laws;
use crate::text;
use vstd::prelude::*;
use vstd::utf8::*;

verus! {

/// The name under which a revision is retained.
pub open spec fn retained_as(commit: u64) -> Seq<char> {
    text::chars(names::retained_name(commit))
}

/// The manifest a retained revision holds.
pub open spec fn manifest_at(ms: Seq<MemberView>, commit: u64) -> ManifestView {
    chain::revision(ms, commit)->Ok_0.1
}

/// Whether a retained revision reads, is the immediate predecessor of a newer one in the same fold
/// generation, is the one whose bytes the newer one names, is behind it neither in its sequence nor
/// in its fold, and verifies whole at its own fold's end.
#[verifier::opaque]
pub open spec fn links_to(
    ms: Seq<MemberView>,
    limits: ReadLimits,
    older: u64,
    newer: ManifestView,
) -> bool {
    &&& chain::revision(ms, older) is Ok
    &&& {
        let (bytes, m) = chain::revision(ms, older)->Ok_0;
        &&& newer.commit == m.commit + 1
        &&& newer.fold_gen == m.fold_gen
        &&& newer.prev is Some
        &&& encode_utf8(newer.prev->0) == manifest::link(bytes)
        &&& newer.next_seq >= m.next_seq
        &&& newer.fold_seg > m.fold_seg || (newer.fold_seg == m.fold_seg && newer.fold_off
            >= m.fold_off)
        &&& artifact::candidate(ms, m, limits) is Ok
    }
}

/// Whether a retained revision links to the next newer one.
pub open spec fn links_on(
    ms: Seq<MemberView>,
    limits: ReadLimits,
    commits: Seq<u64>,
    j: int,
) -> bool {
    links_to(ms, limits, commits[j], manifest_at(ms, commits[j + 1]))
}

/// Whether revision `k` and every one from it up to revision `i` link to the next newer one.
pub open spec fn intact(
    ms: Seq<MemberView>,
    limits: ReadLimits,
    commits: Seq<u64>,
    k: int,
    i: int,
) -> bool {
    forall|j: int| k <= j < i ==> #[trigger] links_on(ms, limits, commits, j)
}

proof fn lemma_links(ms: Seq<MemberView>, limits: ReadLimits, older: u64, newer: ManifestView)
    ensures
        links_to(ms, limits, older, newer) <==> promote::predecessor(ms, limits, older, newer) is Ok,
        links_to(ms, limits, older, newer) ==> promote::predecessor(ms, limits, older, newer)->Ok_0
            == manifest_at(ms, older),
{
    reveal(promote::predecessor);
    reveal(links_to);
}

/// Where the walk down from a revision ends.
proof fn lemma_abandoned(
    ms: Seq<MemberView>,
    limits: ReadLimits,
    commits: Seq<u64>,
    n: nat,
    i: int,
)
    requires
        n <= i < commits.len(),
        promote::abandoned(ms, limits, commits, n, manifest_at(ms, commits[n as int])) is Ok,
    ensures
        ({
            let cut = promote::abandoned(
                ms,
                limits,
                commits,
                n,
                manifest_at(ms, commits[n as int]),
            )->Ok_0;
            &&& cut <= n
            &&& intact(ms, limits, commits, cut as int, n as int)
            &&& cut > 0 ==> !links_on(ms, limits, commits, cut - 1)
        }),
    decreases n,
{
    if n > 0 {
        let newer = manifest_at(ms, commits[n as int]);
        lemma_links(ms, limits, commits[n - 1], newer);
        if links_to(ms, limits, commits[n - 1], newer) {
            lemma_abandoned(ms, limits, commits, (n - 1) as nat, i);
            let cut = promote::abandoned(ms, limits, commits, n, newer)->Ok_0;
            assert forall|j: int| cut <= j < n implies #[trigger] links_on(
                ms,
                limits,
                commits,
                j,
            ) by {}
        }
    }
}

proof fn lemma_count_below(n: nat, cut: nat, meets: spec_fn(int) -> bool)
    requires
        cut <= n,
        forall|j: int| 0 <= j < n ==> (#[trigger] meets(j) <==> j < cut),
    ensures
        sum_laws::count(n, meets) == cut,
    decreases n,
{
    if n > 0 {
        let m = (n - 1) as nat;
        sum_laws::lemma_count(m, meets);
        assert(meets(n - 1) <==> n - 1 < cut);
        if cut < n {
            lemma_count_below(m, cut, meets);
        } else {
            lemma_count_below(m, m, meets);
        }
    } else {
        sum_laws::lemma_count(0, meets);
    }
}

// ---------------------------------------------------------------------------------------------
// Members.
// ---------------------------------------------------------------------------------------------
proof fn lemma_kept_members(
    ms: Seq<MemberView>,
    commits: Seq<u64>,
    cut: int,
    n: int,
    selected: ManifestView,
    k: nat,
)
    requires
        k <= ms.len(),
    ensures
        ({
            let left = promote::kept_all(ms, commits, cut, n, selected, k);
            &&& forall|i: int|
                #![trigger ms[i]]
                0 <= i < k && promote::kept(ms, commits, cut, n, selected, ms[i]) is Some
                    ==> left.contains(promote::kept(ms, commits, cut, n, selected, ms[i])->0)
            &&& forall|z: MemberView| #[trigger]
                left.contains(z) ==> exists|i: int|
                    0 <= i < k && promote::kept(ms, commits, cut, n, selected, #[trigger] ms[i])
                        == Some(z)
        }),
    decreases k,
{
    if k > 0 {
        lemma_kept_members(ms, commits, cut, n, selected, (k - 1) as nat);
        let before = promote::kept_all(ms, commits, cut, n, selected, (k - 1) as nat);
        let left = promote::kept_all(ms, commits, cut, n, selected, k);
        let last = promote::kept(ms, commits, cut, n, selected, ms[k - 1]);
        assert forall|i: int|
            #![trigger ms[i]]
            0 <= i < k && promote::kept(ms, commits, cut, n, selected, ms[i]) is Some implies
            left.contains(promote::kept(ms, commits, cut, n, selected, ms[i])->0) by {
            let z = promote::kept(ms, commits, cut, n, selected, ms[i])->0;
            if i < k - 1 {
                assert(before.contains(z));
                let j = choose|j: int| 0 <= j < before.len() && before[j] == z;
                assert(left[j] == z);
            } else {
                assert(left[left.len() - 1] == z);
            }
        }
        assert forall|z: MemberView| #[trigger] left.contains(z) implies exists|i: int|
            0 <= i < k && promote::kept(ms, commits, cut, n, selected, #[trigger] ms[i]) == Some(
                z,
            ) by {
            let j = choose|j: int| 0 <= j < left.len() && left[j] == z;
            if j < before.len() {
                assert(before[j] == z);
                assert(before.contains(z));
                let i = choose|i: int|
                    0 <= i < k - 1 && promote::kept(ms, commits, cut, n, selected, #[trigger] ms[i])
                        == Some(z);
                assert(promote::kept(ms, commits, cut, n, selected, ms[i]) == Some(z));
            } else {
                assert(promote::kept(ms, commits, cut, n, selected, ms[k - 1]) == Some(z));
            }
        }
    }
}

/// What a promoted container holds under a name other than the current manifest's is what was kept
/// of the member that had it.
proof fn lemma_promoted_held(
    ms: Seq<MemberView>,
    commits: Seq<u64>,
    cut: int,
    n: int,
    selected: ManifestView,
    source: MemberView,
    name: Seq<char>,
)
    requires
        container::names_ascending(ms),
        name != "MANIFEST"@,
    ensures
        commit_laws::held(
            promote::promoted_members(ms, commits, cut, n, selected, source),
            name,
        ) == (match commit_laws::held(ms, name) {
            Some(y) => promote::kept(ms, commits, cut, n, selected, y),
            None => None,
        }),
{
    let left = promote::kept_all(ms, commits, cut, n, selected, ms.len());
    let x = promote::as_current(source);
    let after = container::put_sorted(left, x);
    promote_laws::lemma_kept_names(ms, commits, cut, n, selected, ms.len());
    lemma_kept_members(ms, commits, cut, n, selected, ms.len());
    container::lemma_put_sorted(left, x);
    commit_laws::lemma_held(ms, name);
    commit_laws::lemma_held(after, name);
    match commit_laws::held(after, name) {
        Some(z) => {
            assert(after.contains(z));
            assert(left.contains(z));
            let i = choose|i: int|
                0 <= i < ms.len() && promote::kept(ms, commits, cut, n, selected, #[trigger] ms[i])
                    == Some(z);
            assert(ms.contains(ms[i]));
            assert(ms[i].name == name);
        },
        None => {
            if let Some(y) = commit_laws::held(ms, name) {
                assert(ms.contains(y));
                let i = choose|i: int| 0 <= i < ms.len() && ms[i] == y;
                if let Some(z) = promote::kept(ms, commits, cut, n, selected, ms[i]) {
                    assert(left.contains(z));
                    assert(after.contains(z));
                }
            }
        },
    }
}

proof fn lemma_possible_each(ms: Seq<MemberView>, n: nat, i: int)
    requires
        namespace::impossible(ms, n) is None,
        0 <= i < n,
    ensures
        namespace::possible_name(ms[i].name),
    decreases n,
{
    if i < n - 1 {
        lemma_possible_each(ms, (n - 1) as nat, i);
    }
}

proof fn lemma_begins(front: Seq<u8>, back: Seq<u8>)
    ensures
        bytes::starts_with(front + back, front),
{
    assert((front + back).subrange(0, front.len() as int) =~= front);
}

proof fn lemma_canonical(ms: Seq<MemberView>)
    requires
        namespace::impossible(ms, ms.len()) is None,
    ensures
        commit_laws::canonical_claims(ms),
{
    assert forall|y: MemberView| #[trigger]
        ms.contains(y) && namespace::claims_retained(y.name) implies exists|c: u64|
        encode_utf8(y.name) == #[trigger] names::retained_name(c) by {
        let i = choose|i: int| 0 <= i < ms.len() && ms[i] == y;
        lemma_possible_each(ms, ms.len(), i);
        commit_laws::lemma_claims(y.name);
        let b = encode_utf8(y.name);
        commit_laws::lemma_manifest_name(b);
        commit_laws::lemma_first_bytes();
        let m = encode_utf8("MANIFEST"@);
        assert(b.subrange(0, m.len() as int)[0] == b[0]);
        assert(b[0] == 77u8);
        if names::part_shape(b) {
            assert(b[0] == 112u8) by {
                lemma_part_begins(b);
            }
        }
    }
}

proof fn lemma_part_begins(b: Seq<u8>)
    requires
        names::part_shape(b),
    ensures
        b.len() > 0,
        b[0] == 112u8,
{
    commit_laws::lemma_first_bytes();
}

/// What the name of a retained revision says.
proof fn lemma_claim(commit: u64)
    ensures
        promote::claimed_revision(retained_as(commit)) == Some(commit),
        retained_as(commit) != "MANIFEST"@,
{
    commit_laws::lemma_retained_name(commit);
    let name = retained_as(commit);
    let b = names::retained_name(commit);
    let p = encode_utf8("MANIFEST."@);
    assert(b.subrange(p.len() as int, b.len() as int) =~= names::eight(commit));
    names::lemma_retained_signed(commit);
}

proof fn lemma_history_each(ms: Seq<MemberView>, commits: Seq<u64>, n: nat, i: int)
    requires
        promote::history_fault(ms, commits, n) is None,
        0 <= i < n,
        chain::revision(ms, commits[i]) is Ok,
    ensures
        manifest_at(ms, commits[i]).commit == commits[i],
    decreases n,
{
    if i < n - 1 {
        lemma_history_each(ms, commits, (n - 1) as nat, i);
    }
}

proof fn lemma_newest_index(ms: Seq<MemberView>, limits: ReadLimits, commits: Seq<u64>, n: nat)
    requires
        n <= commits.len(),
    ensures
        promote::newest_usable(ms, limits, commits, n) matches Ok(Some(i)) ==> i < n
            && promote::usable(ms, limits, commits[i as int]),
    decreases n,
{
    if n > 0 && !promote::usable(ms, limits, commits[n - 1]) {
        lemma_newest_index(ms, limits, commits, (n - 1) as nat);
    }
}

/// A revision is left exactly where it lies from the cut up to the promoted one.
proof fn lemma_revision_left(
    ms: Seq<MemberView>,
    commits: Seq<u64>,
    cut: int,
    i: int,
    selected: ManifestView,
    source: MemberView,
    k: int,
)
    requires
        container::names_ascending(ms),
        commits == chain::retained_commits(ms),
        commit_laws::canonical_claims(ms),
        commit_laws::rising(commits),
        0 <= cut <= i < commits.len(),
        0 <= k < commits.len(),
        selected.commit == commits[i],
    ensures
        commit_laws::held(ms, retained_as(commits[k])) is Some,
        commit_laws::held(
            promote::promoted_members(ms, commits, cut, i, selected, source),
            retained_as(commits[k]),
        ) == (if cut <= k <= i {
            commit_laws::held(ms, retained_as(commits[k]))
        } else {
            None
        }),
{
    let name = retained_as(commits[k]);
    lemma_claim(commits[k]);
    lemma_promoted_held(ms, commits, cut, i, selected, source, name);
    commit_laws::lemma_held(ms, name);
    chain::lemma_retained_among(ms, ms.len());
    assert(commits.contains(commits[k]));
    let j = choose|j: int|
        0 <= j < ms.len() && names::retained_commit(encode_utf8((#[trigger] ms[j]).name)) == Some(
            commits[k],
        );
    assert(ms.contains(ms[j]));
    commit_laws::lemma_claimed(ms, ms[j], commits[k]);
    let early = commits.take(cut);
    if k < cut {
        assert(early[k] == commits[k]);
    } else if early.contains(commits[k]) {
        let h = choose|h: int| 0 <= h < early.len() && early[h] == commits[k];
        assert(commits[h] < commits[k]);
    }
    if k < i {
        assert(commits[k] < commits[i]);
    } else if k > i {
        assert(commits[i] < commits[k]);
    }
}

/// What a promotion leaves of retained history, revision by revision: the promoted one and every
/// older one from which each revision still links to the next are there byte for byte; every other
/// is gone; and as many older ones are reported given up as are gone.
#[verifier::spinoff_prover]
#[verifier::rlimit(60)]
pub proof fn lemma_promotion_keeps_history(
    c: ContainerView,
    options: ManifestPromotionOptions,
    limits: ReadLimits,
) -> (i: int)
    requires
        promote::promotion(c, options, limits) is Ok,
        container::names_ascending(c.members),
        c.members.len() <= usize::MAX,
    ensures
        ({
            let ms = c.members;
            let commits = chain::retained_commits(ms);
            let (report, after) = promote::promotion(c, options, limits)->Ok_0;
            &&& 0 <= i < commits.len()
            &&& commits[i] == report.commit
            &&& commit_laws::rising(commits)
            &&& forall|k: int|
                0 <= k <= i && intact(ms, limits, commits, k, i) ==> {
                    &&& commit_laws::held(after.members, retained_as(#[trigger] commits[k]))
                        == commit_laws::held(ms, retained_as(commits[k]))
                    &&& commit_laws::held(ms, retained_as(commits[k])) is Some
                }
            &&& forall|k: int|
                0 <= k < i && !intact(ms, limits, commits, k, i) ==> commit_laws::held(
                    after.members,
                    retained_as(#[trigger] commits[k]),
                ) is None
            &&& forall|k: int|
                i < k < commits.len() ==> commit_laws::held(
                    after.members,
                    retained_as(#[trigger] commits[k]),
                ) is None
            &&& report.abandoned_retained_revisions == sum_laws::count(
                i as nat,
                |k: int| !intact(ms, limits, commits, k, i),
            )
            &&& intact(ms, limits, commits, 0, i) ==> report.abandoned_retained_revisions == 0
        }),
{
    reveal(promote::usable);
    reveal(promote::promotion);
    let ms = c.members;
    let commits = chain::retained_commits(ms);
    let (report, after) = promote::promotion(c, options, limits)->Ok_0;
    lemma_newest_index(ms, limits, commits, commits.len());
    let i = (promote::newest_usable(ms, limits, commits, commits.len())->Ok_0)->0;
    let selected = manifest_at(ms, commits[i as int]);
    let source = ms[container::position_of(ms, retained_as(commits[i as int]))->0];
    let cut = promote::abandoned(ms, limits, commits, i, selected)->Ok_0;
    lemma_canonical(ms);
    commit_laws::lemma_retained_rising(ms, ms.len());
    lemma_history_each(ms, commits, commits.len(), i as int);
    lemma_abandoned(ms, limits, commits, i, i as int);
    chain::lemma_retained_among(ms, ms.len());
    assert forall|k: int| 0 <= k < i implies (#[trigger] intact(ms, limits, commits, k, i as int)
        <==> k >= cut) by {
        if k < cut {
            assert(!links_on(ms, limits, commits, cut - 1));
        }
    }
    assert forall|k: int| 0 <= k < commits.len() implies commit_laws::held(
        after.members,
        retained_as(#[trigger] commits[k]),
    ) == (if cut <= k <= i {
        commit_laws::held(ms, retained_as(commits[k]))
    } else {
        None
    }) && commit_laws::held(ms, retained_as(commits[k])) is Some by {
        lemma_revision_left(ms, commits, cut as int, i as int, selected, source, k);
    }
    assert(intact(ms, limits, commits, i as int, i as int));
    let broken = |k: int| !intact(ms, limits, commits, k, i as int);
    assert forall|k: int| 0 <= k < i implies (#[trigger] broken(k) <==> k < cut) by {
        assert(intact(ms, limits, commits, k, i as int) <==> k >= cut);
    }
    lemma_count_below(i, cut, broken);
    i as int
}

/// Whether the promoted revision, or an older one that is left beside it, names a part.
pub open spec fn still_named(
    ms: Seq<MemberView>,
    limits: ReadLimits,
    commits: Seq<u64>,
    i: int,
    name: Seq<char>,
) -> bool {
    exists|k: int|
        0 <= k <= i && intact(ms, limits, commits, k, i) && namespace::names_part(
            manifest_at(ms, #[trigger] commits[k]),
            name,
        )
}

proof fn lemma_part_is_no_fold(name: Seq<char>, generation: u32)
    requires
        names::part_shape(encode_utf8(name)),
    ensures
        promote::claimed_revision(name) is None,
        !names::fold_member(encode_utf8(name)),
        open::role_of(name, generation) == FoldRole::Other,
        name != "MANIFEST"@,
{
    let b = encode_utf8(name);
    lemma_part_begins(b);
    commit_laws::lemma_first_bytes();
    let m = encode_utf8("MANIFEST."@);
    if bytes::starts_with(b, m) {
        assert(b.subrange(0, m.len() as int)[0] == b[0]);
    }
    if names::fold_generation(b) is Some {
        names::lemma_position(b, 47);
        let k = names::position(b, 47)->0;
        let prefix = b.subrange(0, k as int);
        let f = encode_utf8("fold-"@);
        if bytes::starts_with(prefix, f) {
            assert(prefix.subrange(0, f.len() as int)[0] == prefix[0]);
        }
        assert(prefix[0] == 102u8);
        assert(b[0] == prefix[0]);
    }
    let root = names::fold_root(generation);
    if bytes::starts_with(b, root) {
        assert(b.subrange(0, root.len() as int)[0] == b[0]);
        assert(root[0] == 102u8);
    }
}

/// A part is left by a promotion, byte for byte, exactly where the promoted revision or an older
/// one that is left names it.
#[verifier::spinoff_prover]
#[verifier::rlimit(60)]
pub proof fn lemma_promotion_keeps_parts(
    c: ContainerView,
    options: ManifestPromotionOptions,
    limits: ReadLimits,
    name: Seq<char>,
)
    requires
        promote::promotion(c, options, limits) is Ok,
        container::names_ascending(c.members),
        c.members.len() <= usize::MAX,
        names::part_shape(encode_utf8(name)),
    ensures
        ({
            let ms = c.members;
            let commits = chain::retained_commits(ms);
            let (report, after) = promote::promotion(c, options, limits)->Ok_0;
            forall|i: int|
                0 <= i < commits.len() && #[trigger] commits[i] == report.commit ==> (
                commit_laws::held(after.members, name) == if still_named(
                    ms,
                    limits,
                    commits,
                    i,
                    name,
                ) {
                    commit_laws::held(ms, name)
                } else {
                    None
                })
        }),
{
    reveal(promote::usable);
    reveal(promote::promotion);
    let ms = c.members;
    let commits = chain::retained_commits(ms);
    let at = lemma_promotion_keeps_history(c, options, limits);
    lemma_newest_index(ms, limits, commits, commits.len());
    let i = (promote::newest_usable(ms, limits, commits, commits.len())->Ok_0)->0;
    let selected = manifest_at(ms, commits[i as int]);
    let source = ms[container::position_of(ms, retained_as(commits[i as int]))->0];
    let cut = promote::abandoned(ms, limits, commits, i, selected)->Ok_0;
    lemma_abandoned(ms, limits, commits, i, i as int);
    lemma_part_is_no_fold(name, selected.fold_gen);
    lemma_promoted_held(ms, commits, cut as int, i as int, selected, source, name);
    commit_laws::lemma_held(ms, name);
    assert(promote::part_survives(ms, commits, cut as int, i as int, selected, name)
        <==> still_named(ms, limits, commits, i as int, name)) by {
        if promote::part_survives(ms, commits, cut as int, i as int, selected, name) {
            if namespace::names_part(selected, name) {
                assert(intact(ms, limits, commits, i as int, i as int));
                assert(namespace::names_part(manifest_at(ms, commits[i as int]), name));
            } else {
                let k = choose|k: int|
                    cut <= k < i && namespace::names_part(
                        chain::revision(ms, #[trigger] commits[k])->Ok_0.1,
                        name,
                    );
                assert(intact(ms, limits, commits, k, i as int));
                assert(namespace::names_part(manifest_at(ms, commits[k]), name));
            }
        }
        if still_named(ms, limits, commits, i as int, name) {
            let k = choose|k: int|
                0 <= k <= i && intact(ms, limits, commits, k, i as int) && namespace::names_part(
                    manifest_at(ms, #[trigger] commits[k]),
                    name,
                );
            if k < cut {
                assert(!links_on(ms, limits, commits, cut - 1));
            }
            assert(namespace::names_part(chain::revision(ms, commits[k])->Ok_0.1, name));
        }
    }
    assert forall|j: int| 0 <= j < commits.len() && #[trigger] commits[j] == commits[i as int]
        implies j == i by {
        if j < i {
            assert(commits[j] < commits[i as int]);
        } else if i < j {
            assert(commits[i as int] < commits[j]);
        }
    }
}

/// A promotion leaves the fold as the promoted revision wrote it: the segments before its end are
/// there byte for byte, the last one is cut at that end and loses its block directory where it was
/// longer, and nothing later or of another generation is left.
#[verifier::spinoff_prover]
#[verifier::rlimit(60)]
pub proof fn lemma_promotion_cuts_fold(
    c: ContainerView,
    options: ManifestPromotionOptions,
    limits: ReadLimits,
    y: MemberView,
)
    requires
        promote::promotion(c, options, limits) is Ok,
        container::names_ascending(c.members),
        c.members.contains(y),
        names::fold_member(encode_utf8(y.name)),
    ensures
        ({
            let (report, after) = promote::promotion(c, options, limits)->Ok_0;
            let m = manifest_at(c.members, report.commit);
            let left = commit_laws::held(after.members, y.name);
            if names::fold_generation(encode_utf8(y.name)) != Some(m.fold_gen) {
                left is None
            } else {
                match open::role_of(y.name, m.fold_gen) {
                    FoldRole::Segment { seg } => if seg > m.fold_seg {
                        left is None
                    } else if seg < m.fold_seg || y.bytes.len() <= m.fold_off {
                        left is Some && left->0.bytes == y.bytes
                    } else {
                        left is Some && left->0.bytes == y.bytes.take(m.fold_off as int)
                            && left->0.checksum == hash::crc32_of(left->0.bytes)
                    },
                    FoldRole::Sidecar { seg } => {
                        &&& seg > m.fold_seg ==> left is None
                        &&& seg < m.fold_seg ==> left == Some(y)
                        &&& seg == m.fold_seg ==> left == if exists|i: int|
                            0 <= i < c.members.len() && open::role_of(
                                (#[trigger] c.members[i]).name,
                                m.fold_gen,
                            ) == (FoldRole::Segment { seg: m.fold_seg })
                                && c.members[i].bytes.len() != m.fold_off {
                            None
                        } else {
                            Some(y)
                        }
                    },
                    _ => left == Some(y),
                }
            }
        }),
{
    reveal(promote::usable);
    reveal(promote::promotion);
    let ms = c.members;
    let commits = chain::retained_commits(ms);
    lemma_newest_index(ms, limits, commits, commits.len());
    let i = (promote::newest_usable(ms, limits, commits, commits.len())->Ok_0)->0;
    let selected = manifest_at(ms, commits[i as int]);
    let source = ms[container::position_of(ms, retained_as(commits[i as int]))->0];
    let cut = promote::abandoned(ms, limits, commits, i, selected)->Ok_0;
    commit_laws::lemma_fold_name(y.name);
    lemma_promoted_held(ms, commits, cut as int, i as int, selected, source, y.name);
    commit_laws::lemma_held(ms, y.name);
    let b = encode_utf8(y.name);
    if names::part_shape(b) {
        lemma_part_is_no_fold(y.name, selected.fold_gen);
    }
}

} // verus!
