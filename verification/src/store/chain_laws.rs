//! Laws of the chain of revisions: what its verification accepts, link by link, and what it counts.

use crate::container;
use crate::container::{ContainerView, MemberView};
use crate::store::chain;
use crate::store::commit_laws;
use crate::store::manifest;
use crate::store::manifest::{ManifestView, PartRefView, MANIFEST_RETAIN};
use crate::store::namespace;
use crate::store::sum_laws;
use vstd::prelude::*;
use vstd::utf8::*;

verus! {

/// Whether a container holds a part that a revision pins: it is there, and where the check is deep
/// its bytes are the ones that were pinned, and unless an earlier revision named it, it opens as
/// what the reference says.
pub open spec fn pinned(ms: Seq<MemberView>, r: PartRefView, deep: bool, seen: bool) -> bool {
    &&& commit_laws::held(ms, r.member) is Some
    &&& deep ==> encode_utf8(r.b3) == manifest::link(
        (commit_laws::held(ms, r.member)->0).bytes,
    )
    &&& deep && !seen ==> {
        let p = (commit_laws::held(ms, r.member)->0).part;
        &&& p is Some
        &&& p->0.rows.len() == r.records
        &&& p->0.seq_lo == r.seq_lo
        &&& p->0.seq_hi == r.seq_hi
        &&& chain::opened(ms, r) is Ok
    }
}

/// Whether every part of a revision is pinned. `i` revisions came before it.
pub open spec fn all_pinned(
    ms: Seq<MemberView>,
    commits: Seq<u64>,
    i: int,
    m: ManifestView,
    deep: bool,
) -> bool {
    forall|j: int|
        0 <= j < m.parts.len() ==> pinned(
            ms,
            #[trigger] m.parts[j],
            deep,
            chain::named_before(ms, commits, i, m.parts[j].member),
        )
}

/// Whether a revision follows another: its number is the next one, its sequence and its fold are
/// not behind, and it names the other's bytes.
pub open spec fn comes_after(m: ManifestView, before: ManifestView, bytes: Seq<u8>) -> bool {
    &&& m.commit == before.commit + 1
    &&& m.next_seq >= before.next_seq
    &&& m.fold_seg > before.fold_seg || (m.fold_seg == before.fold_seg && m.fold_off
        >= before.fold_off)
    &&& m.prev is Some
    &&& encode_utf8(m.prev->0) == manifest::link(bytes)
}

/// Whether the retained revision at `i` holds, given that those before it do.
pub open spec fn revision_holds(
    ms: Seq<MemberView>,
    current: Option<ManifestView>,
    commits: Seq<u64>,
    i: int,
    deep: bool,
) -> bool {
    &&& chain::revision(ms, commits[i]) is Ok
    &&& {
        let m = chain::revision(ms, commits[i])->Ok_0.1;
        &&& m.commit == commits[i]
        &&& current is Some ==> m.fold_gen == current->0.fold_gen
        &&& i > 0 ==> {
            let (bytes, before) = chain::revision(ms, commits[i - 1])->Ok_0;
            comes_after(m, before, bytes)
        }
        &&& all_pinned(ms, commits, i, m, deep)
    }
}

pub proof fn lemma_pinned(ms: Seq<MemberView>, r: PartRefView, deep: bool, seen: bool)
    ensures
        chain::pin_fault(ms, r, deep, seen) is None <==> pinned(ms, r, deep, seen),
{
}

proof fn lemma_pins(
    ms: Seq<MemberView>,
    commits: Seq<u64>,
    i: int,
    m: ManifestView,
    deep: bool,
    n: nat,
)
    requires
        n <= m.parts.len(),
    ensures
        chain::pins_fault(ms, commits, i, m, deep, n) is None <==> forall|j: int|
            0 <= j < n ==> pinned(
                ms,
                #[trigger] m.parts[j],
                deep,
                chain::named_before(ms, commits, i, m.parts[j].member),
            ),
    decreases n,
{
    if n > 0 {
        lemma_pins(ms, commits, i, m, deep, (n - 1) as nat);
        let r = m.parts[n - 1];
        lemma_pinned(ms, r, deep, chain::named_before(ms, commits, i, r.member));
    }
}

proof fn lemma_link(
    ms: Seq<MemberView>,
    current: Option<ManifestView>,
    commits: Seq<u64>,
    i: int,
    deep: bool,
)
    requires
        i >= 0,
        i > 0 ==> chain::revision(ms, commits[i - 1]) is Ok && chain::revision(
            ms,
            commits[i - 1],
        )->Ok_0.1.commit == commits[i - 1],
    ensures
        chain::link_fault(ms, current, commits, i, deep) is None <==> revision_holds(
            ms,
            current,
            commits,
            i,
            deep,
        ),
{
    if chain::revision(ms, commits[i]) is Ok {
        let m = chain::revision(ms, commits[i])->Ok_0.1;
        lemma_pins(ms, commits, i, m, deep, m.parts.len());
    }
}

proof fn lemma_links(
    ms: Seq<MemberView>,
    current: Option<ManifestView>,
    commits: Seq<u64>,
    n: nat,
    deep: bool,
)
    requires
        n <= commits.len(),
    ensures
        chain::links_fault(ms, current, commits, n, deep) is None <==> forall|i: int|
            0 <= i < n ==> revision_holds(ms, current, commits, i, deep),
    decreases n,
{
    if n > 0 {
        let m = (n - 1) as nat;
        lemma_links(ms, current, commits, m, deep);
        if chain::links_fault(ms, current, commits, m, deep) is None {
            if m > 0 {
                assert(revision_holds(ms, current, commits, m - 1, deep));
            }
            lemma_link(ms, current, commits, m as int, deep);
        }
    }
}

/// A chain holds exactly where the current manifest reads or is absent, every member belongs to the
/// store, no more revisions are retained than may be, each of them holds and follows the one before
/// it, and the current manifest is the newest of them byte for byte. A container that retains none
/// holds every part its manifest pins, or was never committed to.
pub proof fn lemma_chain_exactly(c: ContainerView, deep: bool)
    ensures
        chain::chain_fault(c, deep) is None <==> {
            let ms = c.members;
            let commits = chain::retained_commits(ms);
            let current = chain::authority_of(ms);
            &&& commit_laws::held(ms, "MANIFEST"@) is Some ==> current is Some
            &&& namespace::namespace_fault(ms, current) is None
            &&& commits.len() <= MANIFEST_RETAIN
            &&& forall|i: int|
                0 <= i < commits.len() ==> revision_holds(ms, current, commits, i, deep)
            &&& commits.len() > 0 ==> {
                let (bytes, newest) = chain::revision(ms, commits.last())->Ok_0;
                current == Some(newest) && (commit_laws::held(ms, "MANIFEST"@)->0).bytes == bytes
            }
            &&& commits.len() == 0 && current is Some ==> all_pinned(
                ms,
                commits,
                0,
                current->0,
                deep,
            )
            &&& commits.len() == 0 && current is None ==> container::empty_birth(c)
        },
{
    let ms = c.members;
    let commits = chain::retained_commits(ms);
    let current = chain::authority_of(ms);
    lemma_links(ms, current, commits, commits.len(), deep);
    if let Some(m) = current {
        lemma_pins(ms, commits, 0, m, deep, m.parts.len());
    }
    if commits.len() > 0 {
        assert(revision_holds(ms, current, commits, commits.len() - 1, deep)
            || !revision_holds(ms, current, commits, commits.len() - 1, deep));
    }
}

proof fn lemma_pins_total(ms: Seq<MemberView>, commits: Seq<u64>, n: nat)
    requires
        n <= commits.len(),
    ensures
        chain::pins_total(ms, commits, n) == sum_laws::sum(
            n,
            |i: int| chain::revision(ms, commits[i])->Ok_0.1.parts.len(),
        ),
    decreases n,
{
    let m = (n - 1) as nat;
    sum_laws::lemma_sum(m, |i: int| chain::revision(ms, commits[i])->Ok_0.1.parts.len());
    if n > 0 {
        lemma_pins_total(ms, commits, m);
    }
}

/// What a verification of a chain counts: the revisions retained, a link for each, and where the
/// check is deep a digest for each part that each of them pins.
pub proof fn lemma_chain_counts(c: ContainerView, deep: bool)
    requires
        chain::retained_commits(c.members).len() <= usize::MAX,
    ensures
        ({
            let r = chain::chain_report(c, deep);
            let ms = c.members;
            let commits = chain::retained_commits(ms);
            &&& r.retained_manifests == commits.len()
            &&& r.links == commits.len()
            &&& !deep ==> r.part_digests == 0
            &&& deep && commits.len() > 0 ==> r.part_digests == sum_laws::held_at(
                sum_laws::sum(
                    commits.len(),
                    |i: int| chain::revision(ms, commits[i])->Ok_0.1.parts.len(),
                ),
                usize::MAX as nat,
            )
            &&& deep && commits.len() == 0 && chain::authority_of(ms) is Some ==> r.part_digests
                == sum_laws::held_at(chain::authority_of(ms)->0.parts.len(), usize::MAX as nat)
        }),
{
    let commits = chain::retained_commits(c.members);
    lemma_pins_total(c.members, commits, commits.len());
}

} // verus!
