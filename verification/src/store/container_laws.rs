//! Laws of publication: what a writer adopts is what a reader opens.

use crate::bytes;
use crate::container;
use crate::container::{ContainerView, MemberView};
use crate::part;
use crate::part::PartView;
use crate::read_limits::ReadLimits;
use crate::store::backup_laws;
use crate::store::chain;
use crate::store::commit;
use crate::store::commit_laws;
use crate::store::engine::StoreView;
use crate::store::manifest;
use crate::store::manifest::{FoldTail, ManifestView};
use crate::store::names;
use crate::store::namespace;
use crate::store::open;
use crate::store::open::{FoldRole, OpenError, ReadStoreView, TailRule};
use crate::store::publish;
use crate::store::publish::{EncodedPart, PlanView, PublishError};
use crate::store::recover;
use crate::store::recover::StoreOptions;
use crate::store::whole_laws;
use crate::text;
use vstd::prelude::*;
use vstd::utf8::*;

verus! {

// ---------------------------------------------------------------------------------------------
// Folds of two containers.
// ---------------------------------------------------------------------------------------------
/// Whether two containers hold the same members of a fold generation.
pub open spec fn same_fold_members(a: Seq<MemberView>, b: Seq<MemberView>, generation: u32) -> bool {
    forall|y: MemberView|
        open::role_of(y.name, generation) != FoldRole::Other ==> (#[trigger] a.contains(y)
            <==> b.contains(y))
}

/// Members in order are determined by which they are.
proof fn lemma_members_unique(a: Seq<MemberView>, b: Seq<MemberView>)
    requires
        container::names_ascending(a),
        container::names_ascending(b),
        forall|y: MemberView| #[trigger] a.contains(y) <==> b.contains(y),
    ensures
        a == b,
    decreases a.len(),
{
    if a.len() == 0 {
        if b.len() > 0 {
            assert(b.contains(b[0]));
            assert(a.contains(b[0]));
        }
        assert(a =~= b);
    } else {
        assert(a.contains(a.last()));
        assert(b.contains(a.last()));
        assert(b.contains(b.last()));
        assert(a.contains(b.last()));
        let i = choose|i: int| 0 <= i < b.len() && b[i] == a.last();
        let j = choose|j: int| 0 <= j < a.len() && a[j] == b.last();
        assert(a.last() == b.last()) by {
            if i < b.len() - 1 {
                assert(bytes::name_lt(b[i].name, b[b.len() - 1].name));
                bytes::lemma_name_order(a.last().name, b.last().name, a.last().name);
                if j < a.len() - 1 {
                    assert(bytes::name_lt(a[j].name, a[a.len() - 1].name));
                }
            }
        }
        let (c, d) = (a.drop_last(), b.drop_last());
        bytes::lemma_name_order(a.last().name, a.last().name, a.last().name);
        assert forall|y: MemberView| #[trigger] c.contains(y) <==> d.contains(y) by {
            if c.contains(y) {
                let k = choose|k: int| 0 <= k < c.len() && c[k] == y;
                assert(a[k] == y);
                assert(bytes::name_lt(a[k].name, a[a.len() - 1].name));
                assert(a.contains(y));
                let h = choose|h: int| 0 <= h < b.len() && b[h] == y;
                assert(d[h] == y);
            }
            if d.contains(y) {
                let k = choose|k: int| 0 <= k < d.len() && d[k] == y;
                assert(b[k] == y);
                assert(bytes::name_lt(b[k].name, b[b.len() - 1].name));
                assert(b.contains(y));
                assert(a.contains(y));
                let h = choose|h: int| 0 <= h < a.len() && a[h] == y;
                assert(c[h] == y);
            }
        }
        lemma_ascending_front(a);
        lemma_ascending_front(b);
        lemma_members_unique(c, d);
        assert(a =~= c.push(a.last()));
        assert(b =~= d.push(b.last()));
    }
}

proof fn lemma_ascending_front(a: Seq<MemberView>)
    requires
        a.len() > 0,
        container::names_ascending(a),
    ensures
        container::names_ascending(a.drop_last()),
{
    let c = a.drop_last();
    assert forall|i: int, j: int| 0 <= i < j < c.len() implies bytes::name_lt(
        (#[trigger] c[i]).name,
        (#[trigger] c[j]).name,
    ) by {
        assert(c[i] == a[i] && c[j] == a[j]);
    }
}

/// Only the members of a generation hold its blocks.
proof fn lemma_blocks_only(
    ms: Seq<MemberView>,
    generation: u32,
    tail: Option<FoldTail>,
    rule: TailRule,
    n: nat,
)
    requires
        n <= ms.len(),
    ensures
        ({
            let f = |name: Seq<char>| open::role_of(name, generation) != FoldRole::Other;
            let all = commit_laws::kept(ms, f, n);
            &&& open::view_blocks(all, generation, tail, rule, all.len()) == open::view_blocks(
                ms,
                generation,
                tail,
                rule,
                n,
            )
            &&& open::view_segments(all, generation, tail, rule, all.len())
                == open::view_segments(ms, generation, tail, rule, n)
        }),
    decreases n,
{
    if n > 0 {
        let f = |name: Seq<char>| open::role_of(name, generation) != FoldRole::Other;
        let before = commit_laws::kept(ms, f, (n - 1) as nat);
        let all = commit_laws::kept(ms, f, n);
        lemma_blocks_only(ms, generation, tail, rule, (n - 1) as nat);
        let x = ms[n - 1];
        if f(x.name) {
            backup_laws::lemma_blocks_prefix(before, all, generation, tail, rule, before.len());
        } else {
            assert(open::member_blocks(x, generation, tail, rule).len() == 0);
            assert(open::view_blocks(ms, generation, tail, rule, n) =~= open::view_blocks(
                ms,
                generation,
                tail,
                rule,
                (n - 1) as nat,
            ));
            assert(open::member_segments(x, generation, tail, rule).len() == 0);
            assert(open::view_segments(ms, generation, tail, rule, n) =~= open::view_segments(
                ms,
                generation,
                tail,
                rule,
                (n - 1) as nat,
            ));
        }
    }
}

proof fn lemma_same_blocks(
    a: Seq<MemberView>,
    b: Seq<MemberView>,
    generation: u32,
    tail: Option<FoldTail>,
    rule: TailRule,
)
    requires
        container::names_ascending(a),
        container::names_ascending(b),
        same_fold_members(a, b, generation),
    ensures
        open::view_blocks(a, generation, tail, rule, a.len()) == open::view_blocks(
            b,
            generation,
            tail,
            rule,
            b.len(),
        ),
        open::view_segments(a, generation, tail, rule, a.len()) == open::view_segments(
            b,
            generation,
            tail,
            rule,
            b.len(),
        ),
{
    let f = |name: Seq<char>| open::role_of(name, generation) != FoldRole::Other;
    lemma_blocks_only(a, generation, tail, rule, a.len());
    lemma_blocks_only(b, generation, tail, rule, b.len());
    commit_laws::lemma_kept(a, f);
    commit_laws::lemma_kept(b, f);
    let (x, y) = (
        commit_laws::kept(a, f, a.len()),
        commit_laws::kept(b, f, b.len()),
    );
    assert forall|z: MemberView| #[trigger] x.contains(z) <==> y.contains(z) by {
        if open::role_of(z.name, generation) != FoldRole::Other {
            assert(a.contains(z) <==> b.contains(z));
        }
        assert(f(z.name) == (open::role_of(z.name, generation) != FoldRole::Other));
    }
    lemma_members_unique(x, y);
}

proof fn lemma_same_segment(a: Seq<MemberView>, b: Seq<MemberView>, generation: u32, seg: u32)
    requires
        same_fold_members(a, b, generation),
        open::has_segment(a, generation, seg),
    ensures
        open::has_segment(b, generation, seg),
{
    let i = choose|i: int|
        0 <= i < a.len() && open::role_of((#[trigger] a[i]).name, generation) == (
        FoldRole::Segment { seg });
    assert(a.contains(a[i]));
    assert(b.contains(a[i]));
    let j = choose|j: int| 0 <= j < b.len() && b[j] == a[i];
    assert(open::role_of(b[j].name, generation) == FoldRole::Segment { seg });
}

/// A name below a generation's root finds the same member in both.
proof fn lemma_same_held(a: Seq<MemberView>, b: Seq<MemberView>, generation: u32, name: Seq<char>)
    requires
        container::names_ascending(a),
        container::names_ascending(b),
        same_fold_members(a, b, generation),
        open::role_of(name, generation) != FoldRole::Other,
    ensures
        commit_laws::held(a, name) == commit_laws::held(b, name),
{
    commit_laws::lemma_held(a, name);
    commit_laws::lemma_held(b, name);
    match commit_laws::held(a, name) {
        Some(x) => {
            assert(b.contains(x));
        },
        None => {
            if commit_laws::held(b, name) is Some {
                let x = commit_laws::held(b, name)->0;
                assert(a.contains(x));
            }
        },
    }
}

proof fn lemma_same_faults(
    a: Seq<MemberView>,
    b: Seq<MemberView>,
    generation: u32,
    tail: Option<FoldTail>,
    rule: TailRule,
    limits: ReadLimits,
    n: nat,
)
    requires
        container::names_ascending(a),
        container::names_ascending(b),
        same_fold_members(a, b, generation),
        open::fold_members_fault(a, generation, tail, rule, limits, a.len()) is None,
        open::orphan(a, generation, a.len()) is None,
        n <= b.len(),
    ensures
        open::fold_members_fault(b, generation, tail, rule, limits, n) is None,
        open::orphan(b, generation, n) is None,
    decreases n,
{
    if n > 0 {
        lemma_same_faults(a, b, generation, tail, rule, limits, (n - 1) as nat);
        let y = b[n - 1];
        assert(b.contains(y));
        if open::role_of(y.name, generation) != FoldRole::Other {
            assert(a.contains(y));
            let i = choose|i: int| 0 <= i < a.len() && a[i] == y;
            backup_laws::lemma_fold_fault_each(a, generation, tail, rule, limits, a.len(), i);
            backup_laws::lemma_orphan_each(a, generation, a.len(), i);
            match open::role_of(y.name, generation) {
                FoldRole::Segment { seg } => {
                    let name = text::chars(names::sidecar_name(generation, seg));
                    lemma_sidecar_role(generation, seg);
                    lemma_same_held(a, b, generation, name);
                },
                FoldRole::Sidecar { seg } => {
                    lemma_same_segment(a, b, generation, seg);
                },
                _ => {},
            }
        }
    }
}

/// The name of a block directory lies below its generation's root.
proof fn lemma_sidecar_role(generation: u32, seg: u32)
    ensures
        open::role_of(text::chars(names::sidecar_name(generation, seg)), generation)
            != FoldRole::Other,
{
    let b = names::sidecar_name(generation, seg);
    let root = names::fold_root(generation);
    names::lemma_sidecar_ascii(generation, seg);
    text::lemma_chars(b);
    assert(b.subrange(0, root.len() as int) =~= root);
}

/// Containers with the same members of a generation have the same fold.
pub proof fn lemma_same_fold(
    a: Seq<MemberView>,
    b: Seq<MemberView>,
    m: ManifestView,
    rule: TailRule,
    limits: ReadLimits,
)
    requires
        container::names_ascending(a),
        container::names_ascending(b),
        same_fold_members(a, b, m.fold_gen),
        open::fold_of(a, m, m.punched, rule, limits) is Ok,
    ensures
        open::fold_of(b, m, m.punched, rule, limits) == open::fold_of(
            a,
            m,
            m.punched,
            rule,
            limits,
        ),
{
    let tail = manifest::tail_of(m);
    lemma_same_blocks(a, b, m.fold_gen, tail, rule);
    lemma_same_faults(a, b, m.fold_gen, tail, rule, limits, b.len());
    if tail is Some {
        lemma_same_segment(a, b, m.fold_gen, tail->0.seg);
    }
}

// ---------------------------------------------------------------------------------------------
// What publication leaves.
// ---------------------------------------------------------------------------------------------
/// A writer and the container it publishes to are at the same revision.
pub open spec fn agrees(s: StoreView, c: ContainerView) -> bool {
    &&& container::names_ascending(c.members)
    &&& chain::chain_fault(c, false) is None
    &&& match chain::authority_of(c.members) {
        Some(m) => s.manifest == m,
        None => s.manifest == manifest::origin(),
    }
    &&& open::opened_parts(c.members, s.manifest, s.manifest.parts.len()) == Ok::<
        Seq<PartView>,
        OpenError,
    >(s.parts)
}

pub proof fn lemma_opened_len(ms: Seq<MemberView>, m: ManifestView, n: nat)
    requires
        open::opened_parts(ms, m, n) is Ok,
    ensures
        open::opened_parts(ms, m, n)->Ok_0.len() == n,
    decreases n,
{
    if n > 0 {
        lemma_opened_len(ms, m, (n - 1) as nat);
    }
}

pub proof fn lemma_opened_at(ms: Seq<MemberView>, m: ManifestView, n: nat, i: int)
    requires
        0 <= i < n,
        open::opened_parts(ms, m, n) is Ok,
    ensures
        chain::opened(ms, m.parts[i]) == Ok::<PartView, chain::PinFault>(
            open::opened_parts(ms, m, n)->Ok_0[i],
        ),
    decreases n,
{
    lemma_opened_len(ms, m, (n - 1) as nat);
    if i < n - 1 {
        lemma_opened_at(ms, m, (n - 1) as nat, i);
    }
}

proof fn lemma_opened_all(ms: Seq<MemberView>, m: ManifestView, parts: Seq<PartView>, n: nat)
    requires
        n <= m.parts.len(),
        n <= parts.len(),
        forall|i: int|
            0 <= i < n ==> chain::opened(ms, #[trigger] m.parts[i]) == Ok::<
                PartView,
                chain::PinFault,
            >(parts[i]),
    ensures
        open::opened_parts(ms, m, n) == Ok::<Seq<PartView>, OpenError>(parts.take(n as int)),
    decreases n,
{
    if n > 0 {
        lemma_opened_all(ms, m, parts, (n - 1) as nat);
        assert(chain::opened(ms, m.parts[n - 1]) is Ok);
        assert(parts.take(n as int) =~= parts.take(n - 1).push(parts[n - 1]));
    } else {
        assert(parts.take(0) =~= Seq::<PartView>::empty());
    }
}

proof fn lemma_rows_hold(rows: Seq<part::RowView>, n: nat)
    requires
        n <= rows.len(),
        part::ids_ascending(rows),
        part::ids_agree(rows),
    ensures
        part::rows_fault(rows, n) is None,
    decreases n,
{
    if n > 0 {
        lemma_rows_hold(rows, (n - 1) as nat);
        if n > 1 {
            assert(bytes::name_lt(rows[n - 2].id, rows[n - 1].id));
        }
    }
}

/// A plan, and the revision that names its part, go with what a writer and its container are at.
pub open spec fn publishable(
    s: StoreView,
    c: ContainerView,
    p: PlanView,
    e: EncodedPart,
    tail: FoldTail,
    m: ManifestView,
) -> bool {
    &&& agrees(s, c)
    &&& p.start + p.replaces <= s.parts.len()
    &&& publish::plan_sound(p)
    &&& p.rows.len() <= u32::MAX
    &&& p.flush ==> p.seq_hi >= s.manifest.next_seq
    &&& commit_laws::held(c.members, p.member) is None
    &&& manifest::succeeding(
        publish::planned_manifest(s.manifest, p, e.bytes@, tail),
        m,
        publish::predecessor_bytes(c.members),
    )
    &&& manifest::manifest_fault(m) is None
    &&& !chain::tail_before(m, s.manifest)
}

/// The container with the planned part is staged for the revision that names it.
proof fn lemma_staged(
    s: StoreView,
    c: ContainerView,
    p: PlanView,
    e: EncodedPart,
    tail: FoldTail,
    m: ManifestView,
)
    requires
        publishable(s, c, p, e, tail, m),
    ensures
        ({
            let staged = container::put_sorted(c.members, publish::plan_member(p, e));
            &&& commit_laws::staged_for(c.members, staged, m)
            &&& commit_laws::follows(c.members, m)
            &&& commit_laws::held(staged, p.member) == Some(publish::plan_member(p, e))
            &&& forall|name: Seq<char>| name != p.member ==> #[trigger] commit_laws::held(
                staged,
                name,
            ) == commit_laws::held(c.members, name)
        }),
{
    let ms = c.members;
    let x = publish::plan_member(p, e);
    let staged = container::put_sorted(ms, x);
    container::lemma_put_sorted(ms, x);
    commit_laws::lemma_held(ms, p.member);
    commit_laws::lemma_held(staged, p.member);
    assert(staged.contains(x));
    assert forall|name: Seq<char>| name != p.member implies #[trigger] commit_laws::held(
        staged,
        name,
    ) == commit_laws::held(ms, name) by {
        commit_laws::lemma_held(ms, name);
        commit_laws::lemma_held(staged, name);
        match commit_laws::held(staged, name) {
            Some(y) => {
                assert(ms.contains(y));
            },
            None => {
                if commit_laws::held(ms, name) is Some {
                    assert(staged.contains(commit_laws::held(ms, name)->0));
                }
            },
        }
    }
    lemma_opened_len(ms, s.manifest, s.manifest.parts.len());
    let reference = publish::plan_ref(p, e.bytes@);
    assert(m.parts == publish::spliced(s.manifest.parts, p.start, p.replaces, reference));
    assert(m.parts[p.start as int] == reference);
    assert(namespace::names_part(m, p.member));
    assert forall|y: MemberView| #[trigger] ms.contains(y) implies staged.contains(y) by {
        assert(y.name != p.member);
    }
    assert forall|i: int| 0 <= i < m.parts.len() implies commit_laws::held(
        staged,
        (#[trigger] m.parts[i]).member,
    ) is Some by {
        if i != p.start {
            let j = if i < p.start {
                i
            } else {
                i - 1 + p.replaces
            };
            assert(m.parts[i] == s.manifest.parts[j]);
            lemma_opened_at(ms, s.manifest, s.manifest.parts.len(), j);
            if m.parts[i].member != p.member {
                assert(commit_laws::held(staged, m.parts[i].member) == commit_laws::held(
                    ms,
                    m.parts[i].member,
                ));
            }
        }
    }
}

/// Publishing keeps the chain, is not refused, and leaves what was adopted: whoever opens the
/// container reads the parts the writer goes on with, over the fold the host synchronized, at the
/// revision that was prepared.
pub proof fn lemma_publish_opens(
    s: StoreView,
    c: ContainerView,
    p: PlanView,
    e: EncodedPart,
    tail: FoldTail,
    m: ManifestView,
    json: Seq<u8>,
    limits: ReadLimits,
    seq: u64,
)
    requires
        publishable(s, c, p, e, tail, m),
        manifest::sealed(json).len() <= manifest::MAX_MANIFEST_BYTES,
        open::fold_of(c.members, m, m.punched, TailRule::Exact, limits) is Ok,
    ensures
        ({
            let staged = container::put_sorted(c.members, publish::plan_member(p, e));
            let all = commit::committed(staged, m, json);
            let commits = chain::retained_commits(all);
            let after = ContainerView {
                seq,
                members: publish::published_members(c.members, p, e, m, json),
            };
            &&& commit::retained_fault(all, commits, commits.len()) is None
            &&& container::names_ascending(after.members)
            &&& chain::chain_fault(after, false) is None
            &&& open::current_view(after, limits) == Ok::<ReadStoreView, OpenError>(
                ReadStoreView {
                    fold: open::fold_of(
                        c.members,
                        m,
                        m.punched,
                        TailRule::Exact,
                        limits,
                    )->Ok_0,
                    parts: publish::published_store(s, p, e, m, s.wal).parts,
                    manifest: m,
                    read_limits: limits,
                },
            )
        }),
{
    let ms = c.members;
    let x = publish::plan_member(p, e);
    let staged = container::put_sorted(ms, x);
    let left = commit_laws::after_commit(staged, m, json);
    lemma_staged(s, c, p, e, tail, m);
    commit_laws::lemma_commit_keeps_chain(c, staged, m, json, seq);
    lemma_published_fold_members(s, c, p, e, tail, m, json);
    assert(left == publish::published_members(ms, p, e, m, json));
    lemma_published_parts(s, c, p, e, tail, m, json);
    lemma_same_fold(ms, left, m, TailRule::Exact, limits);
}

/// A writer that opens is at the revision of its container.
pub proof fn lemma_open_agrees(
    c: ContainerView,
    log: Seq<u8>,
    o: StoreOptions,
    t: StoreView,
    cut: bool,
)
    requires
        container::names_ascending(c.members),
        recover::open_outcome(c, log, o, Ok((t, cut))),
    ensures
        agrees(t, c),
{
    reveal(recover::preflight_fault);
    if chain::chain_fault(c, true) is None {
        whole_laws::lemma_chain_shallow(c);
    }
}

/// A writer that published is at the revision of the container it published to.
pub proof fn lemma_publish_agrees(
    s: StoreView,
    c: ContainerView,
    p: PlanView,
    e: EncodedPart,
    tail: FoldTail,
    m: ManifestView,
    json: Seq<u8>,
    limits: ReadLimits,
    seq: u64,
)
    requires
        publishable(s, c, p, e, tail, m),
        manifest::sealed(json).len() <= manifest::MAX_MANIFEST_BYTES,
        open::fold_of(c.members, m, m.punched, TailRule::Exact, limits) is Ok,
    ensures
        agrees(
            publish::published_store(s, p, e, m, s.wal),
            ContainerView {
                seq,
                members: publish::published_members(c.members, p, e, m, json),
            },
        ),
{
    lemma_publish_opens(s, c, p, e, tail, m, json, limits, seq);
}

/// Publishing a part leaves every member of the fold as it was.
proof fn lemma_published_fold_members(
    s: StoreView,
    c: ContainerView,
    p: PlanView,
    e: EncodedPart,
    tail: FoldTail,
    m: ManifestView,
    json: Seq<u8>,
)
    requires
        publishable(s, c, p, e, tail, m),
        manifest::sealed(json).len() <= manifest::MAX_MANIFEST_BYTES,
    ensures
        ({
            let left = publish::published_members(c.members, p, e, m, json);
            &&& same_fold_members(c.members, left, m.fold_gen)
            &&& commit_laws::committing(
                c.members,
                container::put_sorted(c.members, publish::plan_member(p, e)),
                m,
                json,
            )
        }),
{
    let ms = c.members;
    let staged = container::put_sorted(ms, publish::plan_member(p, e));
    let left = commit_laws::after_commit(staged, m, json);
    lemma_staged(s, c, p, e, tail, m);
    commit_laws::lemma_claims_canonical(ms);
    commit_laws::lemma_windowed(c, m);
    assert(commit_laws::committing(ms, staged, m, json));
    lemma_published_fold(ms, staged, m, json);
    lemma_staged_fold(s, c, p, e, tail, m);
    assert forall|y: MemberView|
        open::role_of(y.name, m.fold_gen) != FoldRole::Other implies (#[trigger] ms.contains(y)
        <==> left.contains(y)) by {
        assert(ms.contains(y) <==> staged.contains(y));
        assert(staged.contains(y) <==> left.contains(y));
    }
}

/// Compaction never touches content. Where a run of parts is merged, the writer keeps its fold,
/// what it staged and its log, and the container keeps every member of the fold, byte for byte.
pub proof fn lemma_merge_touches_no_content(
    s: StoreView,
    c: ContainerView,
    lo: int,
    len: int,
    p: PlanView,
    e: EncodedPart,
    tail: FoldTail,
    m: ManifestView,
    json: Seq<u8>,
)
    requires
        0 <= lo,
        publish::mergeable(s, lo, len),
        publish::merge_plan(s, lo, len) == Ok::<PlanView, PublishError>(p),
        publishable(s, c, p, e, tail, m),
        manifest::sealed(json).len() <= manifest::MAX_MANIFEST_BYTES,
    ensures
        ({
            let t = publish::published_store(s, p, e, m, s.wal);
            &&& t.writer == s.writer
            &&& t.mem == s.mem
            &&& t.wal == s.wal
        }),
        same_fold_members(
            c.members,
            publish::published_members(c.members, p, e, m, json),
            s.manifest.fold_gen,
        ),
{
    lemma_published_fold_members(s, c, p, e, tail, m, json);
    assert(m.fold_gen == s.manifest.fold_gen);
}

proof fn lemma_staged_fold(
    s: StoreView,
    c: ContainerView,
    p: PlanView,
    e: EncodedPart,
    tail: FoldTail,
    m: ManifestView,
)
    requires
        publishable(s, c, p, e, tail, m),
    ensures
        same_fold_members(
            c.members,
            container::put_sorted(c.members, publish::plan_member(p, e)),
            m.fold_gen,
        ),
{
    let ms = c.members;
    let x = publish::plan_member(p, e);
    container::lemma_put_sorted(ms, x);
    lemma_staged(s, c, p, e, tail, m);
    commit_laws::lemma_held(ms, p.member);
    lemma_opened_len(ms, s.manifest, s.manifest.parts.len());
    assert(m.parts[p.start as int] == publish::plan_ref(p, e.bytes@));
    assert(namespace::names_part(m, p.member));
    commit_laws::lemma_part_name(m, p.member);
    if open::role_of(p.member, m.fold_gen) != FoldRole::Other {
        lemma_role_generation(p.member, m.fold_gen);
        commit_laws::lemma_fold_name(p.member);
    }
}

/// A name with a role in a generation belongs to that generation.
proof fn lemma_role_generation(name: Seq<char>, generation: u32)
    requires
        generation <= names::MAX_FOLD_GENERATION,
        open::role_of(name, generation) != FoldRole::Other,
    ensures
        names::fold_generation(encode_utf8(name)) == Some(generation),
{
    let b = encode_utf8(name);
    let root = names::fold_root(generation);
    let file = b.subrange(root.len() as int, b.len() as int);
    assert(b =~= root + file);
    names::lemma_below_root(generation, file);
}

/// A commit leaves the fold of its generation alone.
proof fn lemma_published_fold(
    ms: Seq<MemberView>,
    staged: Seq<MemberView>,
    m: ManifestView,
    json: Seq<u8>,
)
    requires
        commit_laws::committing(ms, staged, m, json),
    ensures
        same_fold_members(staged, commit_laws::after_commit(staged, m, json), m.fold_gen),
{
    let all = commit::committed(staged, m, json);
    let left = commit_laws::after_commit(staged, m, json);
    commit_laws::lemma_after(ms, staged, m, json);
    commit_laws::lemma_committed(staged, m, json);
    commit_laws::lemma_retained_name(m.commit);
    commit_laws::lemma_current_name();
    assert forall|y: MemberView|
        open::role_of(y.name, m.fold_gen) != FoldRole::Other implies (#[trigger] staged.contains(y)
        <==> left.contains(y)) by {
        lemma_role_generation(y.name, m.fold_gen);
        commit_laws::lemma_fold_name(y.name);
        assert(commit::needed(all, m, y.name));
        assert(!commit::expired(y.name, m.commit));
        assert(staged.contains(y) <==> all.contains(y));
    }
}

/// The parts of a published revision are those the writer goes on with.
proof fn lemma_published_parts(
    s: StoreView,
    c: ContainerView,
    p: PlanView,
    e: EncodedPart,
    tail: FoldTail,
    m: ManifestView,
    json: Seq<u8>,
)
    requires
        publishable(s, c, p, e, tail, m),
        commit_laws::committing(
            c.members,
            container::put_sorted(c.members, publish::plan_member(p, e)),
            m,
            json,
        ),
    ensures
        open::opened_parts(
            publish::published_members(c.members, p, e, m, json),
            m,
            m.parts.len(),
        ) == Ok::<Seq<PartView>, OpenError>(publish::published_store(s, p, e, m, s.wal).parts),
{
    let ms = c.members;
    let x = publish::plan_member(p, e);
    let staged = container::put_sorted(ms, x);
    let left = commit_laws::after_commit(staged, m, json);
    let parts = publish::published_store(s, p, e, m, s.wal).parts;
    let reference = publish::plan_ref(p, e.bytes@);
    lemma_staged(s, c, p, e, tail, m);
    lemma_opened_len(ms, s.manifest, s.manifest.parts.len());
    lemma_rows_hold(p.rows, p.rows.len());
    assert(parts.len() == m.parts.len());
    assert forall|i: int| 0 <= i < m.parts.len() implies chain::opened(
        left,
        #[trigger] m.parts[i],
    ) == Ok::<PartView, chain::PinFault>(parts[i]) by {
        let r = m.parts[i];
        assert(namespace::names_part(m, r.member));
        assert(commit_laws::held(staged, r.member) is Some);
        commit_laws::lemma_part_left(ms, staged, m, json, m, r.member);
        if i == p.start {
            assert(r == reference);
            assert(parts[i] == publish::plan_part(p, e.sections, e.section_bytes));
        } else {
            let j = if i < p.start {
                i
            } else {
                i - 1 + p.replaces
            };
            assert(r == s.manifest.parts[j]);
            assert(parts[i] == s.parts[j]);
            lemma_opened_at(ms, s.manifest, s.manifest.parts.len(), j);
            assert(commit_laws::held(ms, r.member) is Some);
            assert(r.member != p.member);
            assert(commit_laws::held(staged, r.member) == commit_laws::held(ms, r.member));
        }
    }
    lemma_opened_all(left, m, parts, m.parts.len());
    assert(parts.take(m.parts.len() as int) =~= parts);
}

} // verus!
