//! Laws of promotion: recovery is never an accidental rollback.

use crate::container;
use crate::container::{ContainerView, MemberView};
use crate::read_limits::ReadLimits;
use crate::store::chain;
use crate::store::commit_laws;
use crate::store::manifest::{ManifestError, ManifestView};
use crate::store::promote;
use crate::store::promote::{
    ManifestPromotionError, ManifestPromotionOptions, ManifestPromotionReport,
};
use vstd::prelude::*;

verus! {

/// A store whose authority is intact and whose history holds is refused, whatever is allowed.
pub proof fn lemma_healthy_refused(
    c: ContainerView,
    options: ManifestPromotionOptions,
    limits: ReadLimits,
)
    requires
        promote::healthy(c),
    ensures
        promote::promotion(c, options, limits) == Err::<
            (ManifestPromotionReport, ContainerView),
            ManifestPromotionError,
        >(ManifestPromotionError::Healthy),
{
    reveal(promote::promotion);
}

/// Whether a revision is not usable, and no read ceiling is why.
pub open spec fn damaged(ms: Seq<MemberView>, limits: ReadLimits, commit: u64) -> bool {
    !promote::usable(ms, limits, commit) && promote::ceiling(ms, limits, commit) is None
}

proof fn lemma_newest_usable(ms: Seq<MemberView>, limits: ReadLimits, commits: Seq<u64>, n: nat)
    requires
        n <= commits.len(),
    ensures
        match promote::newest_usable(ms, limits, commits, n) {
            Ok(Some(i)) => {
                &&& i < n
                &&& promote::usable(ms, limits, commits[i as int])
                &&& forall|j: int| i < j < n ==> damaged(ms, limits, #[trigger] commits[j])
            },
            _ => true,
        },
    decreases n,
{
    if n > 0 && !promote::usable(ms, limits, commits[n - 1]) {
        lemma_newest_usable(ms, limits, commits, (n - 1) as nat);
    }
}

/// A promotion goes to the newest usable revision, and no further back than allowed. Where nothing
/// is allowed it goes to the newest one there is, or nowhere. It passes over damage alone: a
/// revision that only a read ceiling refuses is never given up.
pub proof fn lemma_no_accidental_rollback(
    c: ContainerView,
    options: ManifestPromotionOptions,
    limits: ReadLimits,
)
    requires
        promote::promotion(c, options, limits) is Ok,
    ensures
        ({
            let commits = chain::retained_commits(c.members);
            let report = promote::promotion(c, options, limits)->Ok_0.0;
            &&& commits.contains(report.commit)
            &&& promote::usable(c.members, limits, report.commit)
            &&& report.commit + report.rollback_commits == commits.last()
            &&& report.rollback_commits <= options.max_rollback_commits
            &&& options.max_rollback_commits == 0 ==> report.commit == commits.last()
            &&& forall|j: int|
                0 <= j < commits.len() && #[trigger] commits[j] > report.commit
                    ==> damaged(c.members, limits, commits[j])
        }),
{
    reveal(promote::promotion);
    let ms = c.members;
    let commits = chain::retained_commits(ms);
    lemma_newest_usable(ms, limits, commits, commits.len());
    chain::lemma_retained_among(ms, ms.len());
    let i = (promote::newest_usable(ms, limits, commits, commits.len())->Ok_0)->0;
    let commit = commits[i as int];
    assert(commits.contains(commit));
    assert(commit <= commits.last()) by {
        if i < commits.len() - 1 {
            assert(commits[i as int] <= commits[commits.len() - 1]);
        }
    }
    assert forall|j: int| 0 <= j < commits.len() && #[trigger] commits[j] > commit implies
        damaged(ms, limits, commits[j]) by {
        if j <= i {
            if j < i {
                assert(commits[j] <= commits[i as int]);
            }
        }
    }
}

/// A promoted container is at the revision that was promoted, byte for byte.
pub proof fn lemma_promoted_current(
    c: ContainerView,
    options: ManifestPromotionOptions,
    limits: ReadLimits,
)
    requires
        promote::promotion(c, options, limits) is Ok,
        container::names_ascending(c.members),
    ensures
        ({
            let (report, after) = promote::promotion(c, options, limits)->Ok_0;
            let (bytes, m) = chain::revision(c.members, report.commit)->Ok_0;
            &&& chain::current_of(after.members) == Some(Ok::<ManifestView, ManifestError>(m))
            &&& commit_laws::held(after.members, "MANIFEST"@) is Some
            &&& commit_laws::held(after.members, "MANIFEST"@)->0.bytes == bytes
        }),
{
    reveal(promote::usable);
    reveal(promote::promotion);
    let ms = c.members;
    let commits = chain::retained_commits(ms);
    lemma_newest_usable(ms, limits, commits, commits.len());
    let i = (promote::newest_usable(ms, limits, commits, commits.len())->Ok_0)->0;
    let commit = commits[i as int];
    let (bytes, selected) = chain::revision(ms, commit)->Ok_0;
    let name = crate::text::chars(crate::store::names::retained_name(commit));
    let source = ms[container::position_of(ms, name)->0];
    let cut = promote::abandoned(ms, limits, commits, i, selected)->Ok_0;
    let left = promote::kept_all(ms, commits, cut as int, i as int, selected, ms.len());
    let x = promote::as_current(source);
    lemma_kept_names(ms, commits, cut as int, i as int, selected, ms.len());
    container::lemma_put_sorted(left, x);
    let after = container::put_sorted(left, x);
    assert(after.contains(x));
    commit_laws::lemma_held(after, "MANIFEST"@);
}

/// What a promotion keeps stays in order.
pub proof fn lemma_kept_names(
    ms: Seq<MemberView>,
    commits: Seq<u64>,
    cut: int,
    n: int,
    selected: ManifestView,
    k: nat,
)
    requires
        k <= ms.len(),
        container::names_ascending(ms),
    ensures
        ({
            let left = promote::kept_all(ms, commits, cut, n, selected, k);
            &&& container::names_ascending(left)
            &&& forall|j: int| 0 <= j < left.len() ==> exists|i: int|
                0 <= i < k && (#[trigger] left[j]).name == (#[trigger] ms[i]).name
        }),
    decreases k,
{
    if k > 0 {
        lemma_kept_names(ms, commits, cut, n, selected, (k - 1) as nat);
        let before = promote::kept_all(ms, commits, cut, n, selected, (k - 1) as nat);
        let left = promote::kept_all(ms, commits, cut, n, selected, k);
        assert forall|j: int| 0 <= j < left.len() implies exists|i: int|
            0 <= i < k && (#[trigger] left[j]).name == (#[trigger] ms[i]).name by {
            if j < before.len() {
                assert(left[j] == before[j]);
                let i = choose|i: int|
                    0 <= i < k - 1 && (#[trigger] before[j]).name == (#[trigger] ms[i]).name;
                assert(0 <= i < k && left[j].name == ms[i].name);
            } else {
                assert(left[j].name == ms[k - 1].name);
            }
        }
        assert forall|a: int, b: int| 0 <= a < b < left.len() implies crate::bytes::name_lt(
            (#[trigger] left[a]).name,
            (#[trigger] left[b]).name,
        ) by {
            if b < before.len() {
                assert(left[a] == before[a] && left[b] == before[b]);
            } else {
                assert(left[a] == before[a]);
                let i = choose|i: int|
                    0 <= i < k - 1 && (#[trigger] before[a]).name == (#[trigger] ms[i]).name;
                assert(crate::bytes::name_lt(ms[i].name, ms[k - 1].name));
            }
        }
    }
}

} // verus!
