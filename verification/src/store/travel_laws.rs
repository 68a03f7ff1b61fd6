//! Laws of reading at an older revision: it shows what that revision named, for as long as the
//! revision is retained.

use crate::container::{ContainerView, MemberView};
use crate::fold::BlockView;
use crate::read_limits::ReadLimits;
use crate::store::chain;
use crate::store::commit_laws;
use crate::store::container_laws;
use crate::store::debris;
use crate::store::manifest;
use crate::store::manifest::ManifestView;
use crate::store::names;
use crate::store::open;
use crate::store::open::{FoldRole, TailRule};
use crate::store::read;
use crate::text;
use vstd::prelude::*;

verus! {

/// What is read at a revision: the revision that the container retains under its number, with what
/// was given up since; and each of its parts, as the container holds it.
pub proof fn lemma_travel_view(name: Seq<u8>, c: ContainerView, commit: u64, limits: ReadLimits)
    requires
        open::named_view_at(name, c, commit, limits) is Ok,
    ensures
        ({
            let ms = c.members;
            let s = open::named_view_at(name, c, commit, limits)->Ok_0;
            let m = chain::revision(ms, commit)->Ok_0.1;
            let now = chain::authority_of(ms)->0;
            &&& !debris::reserved(name)
            &&& chain::revision(ms, commit) is Ok
            &&& chain::authority_of(ms) is Some
            &&& m.fold_gen == now.fold_gen
            &&& s.manifest.commit == m.commit
            &&& s.manifest.parts == m.parts
            &&& s.manifest.punched == now.punched
            &&& s.fold.punched == now.punched
            &&& s.parts.len() == m.parts.len()
            &&& s.read_limits == limits
            &&& forall|i: int|
                0 <= i < m.parts.len() ==> {
                    let y = commit_laws::held(ms, (#[trigger] m.parts[i]).member);
                    y is Some && y->0.part == Some(s.parts[i])
                }
        }),
{
    let ms = c.members;
    let s = open::named_view_at(name, c, commit, limits)->Ok_0;
    let m = chain::revision(ms, commit)->Ok_0.1;
    let now = chain::authority_of(ms)->0;
    let under = open::under_current(m, now);
    container_laws::lemma_opened_len(ms, under, m.parts.len());
    assert forall|i: int| 0 <= i < m.parts.len() implies {
        let y = commit_laws::held(ms, (#[trigger] m.parts[i]).member);
        y is Some && y->0.part == Some(s.parts[i])
    } by {
        container_laws::lemma_opened_at(ms, under, m.parts.len(), i);
    }
}

/// Two containers that hold the same parts of a revision open it alike.
proof fn lemma_opened_same(
    a: Seq<MemberView>,
    b: Seq<MemberView>,
    m: ManifestView,
    other: ManifestView,
    n: nat,
)
    requires
        n <= m.parts.len(),
        other.parts == m.parts,
        forall|i: int|
            0 <= i < n ==> commit_laws::held(b, (#[trigger] m.parts[i]).member)
                == commit_laws::held(a, m.parts[i].member),
    ensures
        open::opened_parts(b, other, n) == open::opened_parts(a, m, n),
    decreases n,
{
    if n > 0 {
        lemma_opened_same(a, b, m, other, (n - 1) as nat);
        let r = m.parts[n - 1];
        assert(commit_laws::held(b, r.member) == commit_laws::held(a, r.member));
        assert(chain::opened(b, r) == chain::opened(a, r));
    }
}

/// A commit does not change what an older revision shows: a revision that is still retained after
/// it is the one that was retained before it, byte for byte, and its parts open as they did.
pub proof fn lemma_commit_keeps_revision(
    c: ContainerView,
    staged: Seq<MemberView>,
    m: ManifestView,
    json: Seq<u8>,
    commit: u64,
)
    requires
        chain::chain_fault(c, false) is None,
        commit_laws::staged_for(c.members, staged, m),
        commit_laws::follows(c.members, m),
        manifest::sealed(json).len() <= manifest::MAX_MANIFEST_BYTES,
        commit != m.commit,
        chain::retained_commits(commit_laws::after_commit(staged, m, json)).contains(commit),
    ensures
        ({
            let ms = c.members;
            let left = commit_laws::after_commit(staged, m, json);
            let old = chain::revision(ms, commit)->Ok_0.1;
            &&& chain::retained_commits(ms).contains(commit)
            &&& chain::revision(ms, commit) is Ok
            &&& chain::revision(left, commit) == chain::revision(ms, commit)
            &&& forall|i: int|
                0 <= i < old.parts.len() ==> commit_laws::held(
                    left,
                    (#[trigger] old.parts[i]).member,
                ) == commit_laws::held(ms, old.parts[i].member)
            &&& open::opened_parts(left, old, old.parts.len()) == open::opened_parts(
                ms,
                old,
                old.parts.len(),
            )
        }),
{
    let ms = c.members;
    let left = commit_laws::after_commit(staged, m, json);
    let commits = chain::retained_commits(ms);
    let want = commit_laws::retained_after(commits, m);
    let k = commit_laws::dropped(commits);
    commit_laws::lemma_claims_canonical(ms);
    commit_laws::lemma_windowed(c, m);
    commit_laws::lemma_after(ms, staged, m, json);
    assert(want.contains(commit));
    let w = choose|w: int| 0 <= w < want.len() && want[w] == commit;
    let h = w + k;
    assert(commits[h] == commit);
    assert(commits.contains(commit));
    chain::lemma_links_each(
        ms,
        chain::authority_of(ms),
        commits,
        commits.len(),
        h,
        false,
    );
    commit_laws::lemma_old_revision(ms, staged, m, json, h);
    let old = chain::revision(ms, commit)->Ok_0.1;
    let retained = text::chars(names::retained_name(commit));
    commit_laws::lemma_retained_name(commit);
    commit_laws::lemma_held(ms, retained);
    assert(ms.contains(commit_laws::held(ms, retained)->0));
    assert(manifest::manifest_fault(old) is None);
    assert forall|i: int| 0 <= i < old.parts.len() implies commit_laws::held(
        left,
        (#[trigger] old.parts[i]).member,
    ) == commit_laws::held(ms, old.parts[i].member) by {
        let own = old.parts[i].member;
        commit_laws::lemma_pinned_held(ms, commits, h, old, old.parts.len(), i);
        commit_laws::lemma_held(ms, own);
        commit_laws::lemma_held(staged, own);
        let y = commit_laws::held(ms, own)->0;
        assert(ms.contains(y));
        assert(staged.contains(y));
        assert(commit_laws::held(staged, own) == Some(y));
        commit_laws::lemma_part_left(ms, staged, m, json, old, own);
    }
    lemma_opened_same(ms, left, old, old, old.parts.len());
}

/// Reading at an older revision shows the same before and after a commit, for every id: where both
/// containers serve the revision, they show the same record.
pub proof fn lemma_travel_reads(
    name: Seq<u8>,
    c: ContainerView,
    staged: Seq<MemberView>,
    m: ManifestView,
    json: Seq<u8>,
    seq: u64,
    commit: u64,
    limits: ReadLimits,
    id: Seq<char>,
)
    requires
        chain::chain_fault(c, false) is None,
        commit_laws::staged_for(c.members, staged, m),
        commit_laws::follows(c.members, m),
        manifest::sealed(json).len() <= manifest::MAX_MANIFEST_BYTES,
        commit != m.commit,
        chain::retained_commits(commit_laws::after_commit(staged, m, json)).contains(commit),
        open::named_view_at(name, c, commit, limits) is Ok,
        open::named_view_at(
            name,
            ContainerView { seq, members: commit_laws::after_commit(staged, m, json) },
            commit,
            limits,
        ) is Ok,
    ensures
        ({
            let before = open::named_view_at(name, c, commit, limits)->Ok_0;
            let after = open::named_view_at(
                name,
                ContainerView { seq, members: commit_laws::after_commit(staged, m, json) },
                commit,
                limits,
            )->Ok_0;
            &&& after.parts == before.parts
            &&& after.manifest.commit == before.manifest.commit
            &&& read::current(after.parts, id) == read::current(before.parts, id)
        }),
{
    let ms = c.members;
    let left = commit_laws::after_commit(staged, m, json);
    let after = ContainerView { seq, members: left };
    lemma_commit_keeps_revision(c, staged, m, json, commit);
    let old = chain::revision(ms, commit)->Ok_0.1;
    let a = open::under_current(old, chain::authority_of(ms)->0);
    let b = open::under_current(old, chain::authority_of(left)->0);
    lemma_opened_same(ms, left, a, b, old.parts.len());
}

/// Reading at the current revision's own number shows the parts that reading now shows.
pub proof fn lemma_travel_now(name: Seq<u8>, c: ContainerView, limits: ReadLimits)
    requires
        chain::authority_of(c.members) is Some,
        open::current_view(c, limits) is Ok,
        chain::retained_commits(c.members).len() > 0,
        open::named_view_at(name, c, chain::authority_of(c.members)->0.commit, limits) is Ok,
        chain::chain_fault(c, false) is None,
    ensures
        ({
            let now = open::current_view(c, limits)->Ok_0;
            let at = open::named_view_at(
                name,
                c,
                chain::authority_of(c.members)->0.commit,
                limits,
            )->Ok_0;
            at.parts == now.parts && at.manifest == now.manifest
        }),
{
    let ms = c.members;
    let m = chain::authority_of(ms)->0;
    commit_laws::lemma_newest(c);
    let old = chain::revision(ms, m.commit)->Ok_0.1;
    assert(old == m);
    lemma_opened_same(ms, ms, m, open::under_current(m, m), m.parts.len());
}

// ---------------------------------------------------------------------------------------------
// The fold of a view.
// ---------------------------------------------------------------------------------------------
proof fn lemma_until(blocks: Seq<BlockView>, off: u64)
    ensures
        open::blocks_until(blocks, off) == blocks.filter(|b: BlockView| b.end <= off),
    decreases blocks.len(),
{
    reveal(Seq::filter);
    if blocks.len() > 0 {
        lemma_until(blocks.drop_last(), off);
    }
}

/// A view cut at a revision's end takes no segment behind it, of the segment it ends in the frames
/// that end no later, and of every other segment all.
pub proof fn lemma_view_cut(m: ManifestView, y: MemberView)
    requires
        manifest::tail_of(m) is Some,
    ensures
        ({
            let tail = manifest::tail_of(m);
            let t = tail->0;
            let taken = open::member_blocks(y, m.fold_gen, tail, TailRule::Cut);
            let part = open::member_segments(y, m.fold_gen, tail, TailRule::Cut);
            match open::role_of(y.name, m.fold_gen) {
                FoldRole::Segment { seg } => {
                    &&& seg > t.seg ==> taken.len() == 0 && part.len() == 0
                    &&& seg == t.seg && y.blocks is Some ==> taken == y.blocks->0.filter(
                        |b: BlockView| b.end <= t.off as u64,
                    )
                    &&& seg < t.seg && y.blocks is Some ==> taken == y.blocks->0
                    &&& seg < t.seg ==> part =~= seq![(seg, y.bytes.len() as u64)]
                    &&& seg == t.seg && y.bytes.len() <= u64::MAX ==> part.len() == 1 && part[0].0
                        == seg && part[0].1 == (if t.off < y.bytes.len() {
                        t.off as u64
                    } else {
                        y.bytes.len() as u64
                    })
                },
                _ => taken.len() == 0 && part.len() == 0,
            }
        }),
{
    let t = manifest::tail_of(m)->0;
    if y.blocks is Some {
        lemma_until(y.blocks->0, t.off as u64);
    }
}

/// A reserved name is never opened, whatever the container holds.
pub proof fn lemma_reserved_refused(name: Seq<u8>, c: ContainerView, commit: u64, limits: ReadLimits)
    requires
        debris::reserved(name),
    ensures
        open::named_view(name, c, limits) is Err,
        open::named_view_at(name, c, commit, limits) is Err,
{
}

} // verus!
