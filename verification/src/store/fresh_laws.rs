//! The name of the next part is free: no revision that a container holds names it.

use crate::bytes;
use crate::container;
use crate::container::{ContainerView, MemberView};
use crate::store::chain;
use crate::store::checksum_laws;
use crate::store::commit_laws;
use crate::store::container_laws;
use crate::store::engine;
use crate::store::engine::StoreView;
use crate::store::manifest;
use crate::store::manifest::{FoldTail, ManifestView, PartRefView};
use crate::store::names;
use crate::store::namespace;
use crate::store::operation_laws;
use crate::store::publish;
use crate::store::publish::{EncodedPart, PlanView, PublishError};
use crate::text;
use vstd::prelude::*;
use vstd::utf8::*;

verus! {

/// What part names are made of.
proof fn lemma_part_bytes(seq: u64)
    ensures
        ({
            let b = names::part_name(seq);
            let d = names::eight(seq);
            &&& b.len() == d.len() + 10
            &&& b.subrange(5, 5 + d.len() as int) == d
            &&& names::all_digits(d)
            &&& d.len() >= 1
            &&& b[0] == 112
            &&& text::all_ascii(b)
            &&& encode_utf8(text::chars(b)) == b
        }),
{
    commit_laws::lemma_first_bytes();
    names::lemma_padded_value(seq, 8);
    let b = names::part_name(seq);
    let d = names::eight(seq);
    assert(b.subrange(5, 5 + d.len() as int) =~= d);
    assert forall|i: int| 0 <= i < b.len() implies #[trigger] b[i] < 128 by {
        if 5 <= i < 5 + d.len() {
            assert(b[i] == d[i - 5]);
            assert(names::is_digit(d[i - 5]));
        }
    }
    text::lemma_chars(b);
}

/// The part of one sequence has its name to itself.
proof fn lemma_name_of_one(seq: u64, lo: u64, hi: u64, generation: u32)
    requires
        names::part_member_allowed(names::part_name(seq), lo, hi, generation),
    ensures
        hi == seq,
{
    commit_laws::lemma_first_bytes();
    lemma_part_bytes(seq);
    let b = names::part_name(seq);
    let d = names::eight(seq);
    names::lemma_padded_value(seq, 8);
    if lo == hi && b == names::part_name(lo) {
        lemma_part_bytes(lo);
        names::lemma_padded_value(lo, 8);
    } else if lo != hi && b == names::range_name(lo, hi) {
        names::lemma_padded_value(lo, 8);
        names::lemma_padded_value(hi, 8);
        names::lemma_dash();
        let l = names::eight(lo);
        let at = 5 + l.len() as int;
        assert(b[at] == 45);
        assert(d[l.len() as int] == b[at]);
        assert(names::is_digit(d[l.len() as int]));
    } else {
        assert(b == names::refold_name(generation, lo, hi));
        assert(b[5] == 114);
        assert(d[0] == b[5]);
        assert(names::is_digit(d[0]));
    }
}

/// A part's name is none of the fold's, and none of a manifest's.
proof fn lemma_name_of_part(seq: u64)
    ensures
        names::fold_generation(names::part_name(seq)) is None,
        text::chars(names::part_name(seq)) != "MANIFEST"@,
        !namespace::claims_retained(text::chars(names::part_name(seq))),
{
    commit_laws::lemma_first_bytes();
    lemma_part_bytes(seq);
    let b = names::part_name(seq);
    names::lemma_position(b, 47);
    if names::position(b, 47) is Some {
        let k = names::position(b, 47)->0;
        let prefix = b.subrange(0, k as int);
        if prefix == encode_utf8("fold"@) {
            assert(prefix[0] == b[0]);
        }
        let f = encode_utf8("fold-"@);
        if bytes::starts_with(prefix, f) {
            assert(prefix.subrange(0, f.len() as int)[0] == prefix[0]);
            assert(prefix[0] == b[0]);
        }
    }
    if namespace::claims_retained(text::chars(b)) {
        commit_laws::lemma_claims(text::chars(b));
        let m = encode_utf8("MANIFEST"@);
        assert(b.subrange(0, m.len() as int)[0] == b[0]);
    }
}

/// A manifest names no part beyond its cursor.
proof fn lemma_beyond_cursor(m: ManifestView, seq: u64)
    requires
        manifest::manifest_fault(m) is None,
        seq > m.next_seq,
    ensures
        !namespace::names_part(m, text::chars(names::part_name(seq))),
{
    let name = text::chars(names::part_name(seq));
    if namespace::names_part(m, name) {
        let j = choose|j: int| 0 <= j < m.parts.len() && (#[trigger] m.parts[j]).member == name;
        lemma_part_bytes(seq);
        manifest::lemma_parts_fault_each(m.parts, m.fold_gen, m.parts.len(), j);
        manifest::lemma_valid_intervals(m);
        let r = m.parts[j];
        lemma_name_of_one(seq, r.seq_lo, r.seq_hi, m.fold_gen);
    }
}

/// No retained revision's cursor is beyond the current one.
proof fn lemma_cursor_rises(c: ContainerView, i: int)
    requires
        chain::chain_fault(c, false) is None,
        0 <= i < chain::retained_commits(c.members).len(),
    ensures
        chain::authority_of(c.members) is Some,
        chain::revision(c.members, chain::retained_commits(c.members)[i])->Ok_0.1.next_seq
            <= chain::authority_of(c.members)->0.next_seq,
    decreases chain::retained_commits(c.members).len() - i,
{
    let ms = c.members;
    let commits = chain::retained_commits(ms);
    commit_laws::lemma_newest(c);
    if i < commits.len() - 1 {
        lemma_cursor_rises(c, i + 1);
        chain::lemma_links_each(ms, chain::authority_of(ms), commits, commits.len(), i + 1, false);
    } else {
        assert(commits[i] == commits.last());
    }
}

proof fn lemma_belongs_each(
    ms: Seq<MemberView>,
    current: Option<ManifestView>,
    n: nat,
    i: int,
)
    requires
        namespace::outside(ms, current, n) is None,
        0 <= i < n,
    ensures
        namespace::belongs(ms, current, i),
    decreases n,
{
    if i < n - 1 {
        lemma_belongs_each(ms, current, (n - 1) as nat, i);
    }
}

/// A retained manifest is the revision that its name says.
proof fn lemma_claim_is_revision(c: ContainerView, k: int) -> (i: int)
    requires
        container::names_ascending(c.members),
        chain::chain_fault(c, false) is None,
        0 <= k < c.members.len(),
        namespace::claims_retained(c.members[k].name),
    ensures
        ({
            let commits = chain::retained_commits(c.members);
            &&& 0 <= i < commits.len()
            &&& container::member_manifest(c.members[k]) is Ok
            &&& chain::revision(c.members, commits[i]) is Ok
            &&& chain::revision(c.members, commits[i])->Ok_0.1 == container::member_manifest(
                c.members[k],
            )->Ok_0
        }),
{
    let ms = c.members;
    let commits = chain::retained_commits(ms);
    namespace::lemma_retained_each(ms, ms.len(), k);
    let d = names::signed_u64(namespace::revision_text(ms[k].name))->0;
    names::lemma_retained_commit(d);
    chain::lemma_retained_among(ms, ms.len());
    assert(names::retained_commit(encode_utf8(ms[k].name)) == Some(d));
    assert(commits.contains(d));
    let i = choose|i: int| 0 <= i < commits.len() && commits[i] == d;
    commit_laws::lemma_retained_name(d);
    bytes::lemma_utf8_injective(ms[k].name, text::chars(names::retained_name(d)));
    checksum_laws::lemma_position(ms, k);
    i
}

/// Where a chain holds, no member has the name of a part beyond the current cursor.
pub proof fn lemma_next_part_is_fresh(c: ContainerView, seq: u64)
    requires
        container::names_ascending(c.members),
        chain::chain_fault(c, false) is None,
        match chain::authority_of(c.members) {
            Some(m) => seq > m.next_seq,
            None => true,
        },
    ensures
        commit_laws::held(c.members, text::chars(names::part_name(seq))) is None,
{
    let ms = c.members;
    let current = chain::authority_of(ms);
    let name = text::chars(names::part_name(seq));
    container::lemma_position_from(ms, name, 0);
    lemma_part_bytes(seq);
    lemma_name_of_part(seq);
    if container::position_of(ms, name) is Some {
        let i = container::position_of(ms, name)->0;
        assert(current is Some);
        lemma_belongs_each(ms, current, ms.len(), i);
        lemma_beyond_cursor(current->0, seq);
        assert(namespace::admitted(ms, current, name));
        let k = choose|k: int|
            0 <= k < ms.len() && namespace::claims_retained((#[trigger] ms[k]).name) && (ms[k].name
                == name || namespace::names_part(container::member_manifest(ms[k])->Ok_0, name));
        let at = lemma_claim_is_revision(c, k);
        lemma_cursor_rises(c, at);
        lemma_beyond_cursor(container::member_manifest(ms[k])->Ok_0, seq);
    }
}

/// What a flush plans and prepares goes with the container that its writer agrees with, as long as
/// the fold has not become shorter and the rows can be counted.
pub proof fn lemma_flush_publishable(
    s: StoreView,
    u: StoreView,
    c: ContainerView,
    p: PlanView,
    e: EncodedPart,
    tail: FoldTail,
    m: ManifestView,
    r: Result<PartRefView, PublishError>,
)
    requires
        engine::store_ok(s),
        !s.requires_reopen,
        s.mem.len() <= u32::MAX,
        container_laws::agrees(s, c),
        publish::flush_plan(s) == Ok::<PlanView, PublishError>(p),
        operation_laws::published(
            s,
            u,
            p,
            e,
            tail,
            publish::predecessor_bytes(c.members),
            m,
            r,
        ),
        !chain::tail_before(m, s.manifest),
    ensures
        container_laws::publishable(s, c, p, e, tail, m),
{
    lemma_next_part_is_fresh(c, engine::pending_seq(s));
}

} // verus!
