//! Laws of committing: a container whose revisions hold together still does after one more.

use crate::bytes;
use crate::container;
use crate::container::{ContainerView, MemberView};
use crate::store::backup_laws;
use crate::store::chain;
use crate::store::commit;
use crate::store::manifest;
use crate::store::manifest::{ManifestError, ManifestView, MANIFEST_RETAIN};
use crate::store::names;
use crate::store::namespace;
use crate::text;
use vstd::prelude::*;
use vstd::utf8::*;

verus! {

// ---------------------------------------------------------------------------------------------
// Finding members.
// ---------------------------------------------------------------------------------------------
/// The member of a name.
pub open spec fn held(ms: Seq<MemberView>, name: Seq<char>) -> Option<MemberView> {
    match container::position_of(ms, name) {
        Some(i) => Some(ms[i]),
        None => None,
    }
}

/// In order, a name finds the one member that has it.
pub proof fn lemma_held(ms: Seq<MemberView>, name: Seq<char>)
    ensures
        match held(ms, name) {
            Some(x) => ms.contains(x) && x.name == name,
            None => forall|y: MemberView| #[trigger] ms.contains(y) ==> y.name != name,
        },
        container::names_ascending(ms) ==> forall|y: MemberView| #[trigger]
            ms.contains(y) && y.name == name ==> held(ms, name) == Some(y),
{
    container::lemma_position_from(ms, name, 0);
    match container::position_of(ms, name) {
        Some(i) => {
            assert(ms[i] == held(ms, name)->0);
            if container::names_ascending(ms) {
                assert forall|y: MemberView| #[trigger] ms.contains(y) && y.name == name implies held(
                    ms,
                    name,
                ) == Some(y) by {
                    let j = choose|j: int| 0 <= j < ms.len() && ms[j] == y;
                    bytes::lemma_name_order(name, name, name);
                    if i < j {
                        assert(bytes::name_lt(ms[i].name, ms[j].name));
                    }
                    if j < i {
                        assert(ms[j].name != name);
                    }
                }
            }
        },
        None => {
            assert forall|y: MemberView| #[trigger] ms.contains(y) implies y.name != name by {
                let j = choose|j: int| 0 <= j < ms.len() && ms[j] == y;
                assert(ms[j].name != name);
            }
        },
    }
}

/// The members among the first `n` whose names are wanted.
pub open spec fn kept(ms: Seq<MemberView>, f: spec_fn(Seq<char>) -> bool, n: nat) -> Seq<MemberView>
    decreases n,
{
    if n == 0 {
        Seq::empty()
    } else {
        let before = kept(ms, f, (n - 1) as nat);
        if f(ms[n - 1].name) {
            before.push(ms[n - 1])
        } else {
            before
        }
    }
}

pub proof fn lemma_kept_from(ms: Seq<MemberView>, f: spec_fn(Seq<char>) -> bool, n: nat, k: int) -> (i: int)
    requires
        n <= ms.len(),
        0 <= k < kept(ms, f, n).len(),
    ensures
        k <= i < n,
        kept(ms, f, n)[k] == ms[i],
        f(ms[i].name),
    decreases n,
{
    let before = kept(ms, f, (n - 1) as nat);
    lemma_kept_len(ms, f, (n - 1) as nat);
    if k < before.len() {
        lemma_kept_from(ms, f, (n - 1) as nat, k)
    } else {
        n - 1
    }
}

proof fn lemma_kept_len(ms: Seq<MemberView>, f: spec_fn(Seq<char>) -> bool, n: nat)
    ensures
        kept(ms, f, n).len() <= n,
    decreases n,
{
    if n > 0 {
        lemma_kept_len(ms, f, (n - 1) as nat);
    }
}

proof fn lemma_kept_to(ms: Seq<MemberView>, f: spec_fn(Seq<char>) -> bool, n: nat, i: int)
    requires
        0 <= i < n <= ms.len(),
        f(ms[i].name),
    ensures
        kept(ms, f, n).contains(ms[i]),
    decreases n,
{
    let all = kept(ms, f, n);
    let before = kept(ms, f, (n - 1) as nat);
    if i < n - 1 {
        lemma_kept_to(ms, f, (n - 1) as nat, i);
        let k = choose|k: int| 0 <= k < before.len() && before[k] == ms[i];
        assert(all[k] == ms[i]);
    } else {
        assert(all[before.len() as int] == ms[i]);
    }
}

proof fn lemma_kept_order(ms: Seq<MemberView>, f: spec_fn(Seq<char>) -> bool, n: nat)
    requires
        n <= ms.len(),
        container::names_ascending(ms),
    ensures
        container::names_ascending(kept(ms, f, n)),
    decreases n,
{
    if n > 0 {
        let all = kept(ms, f, n);
        let before = kept(ms, f, (n - 1) as nat);
        lemma_kept_order(ms, f, (n - 1) as nat);
        assert forall|a: int, b: int| 0 <= a < b < all.len() implies bytes::name_lt(
            (#[trigger] all[a]).name,
            (#[trigger] all[b]).name,
        ) by {
            if b < before.len() {
                assert(all[a] == before[a] && all[b] == before[b]);
            } else {
                let i = lemma_kept_from(ms, f, (n - 1) as nat, a);
                assert(all[a] == ms[i]);
                assert(bytes::name_lt(ms[i].name, ms[n - 1].name));
            }
        }
    }
}

/// What is kept are the members whose names are wanted, in order.
pub proof fn lemma_kept(ms: Seq<MemberView>, f: spec_fn(Seq<char>) -> bool)
    requires
        container::names_ascending(ms),
    ensures
        container::names_ascending(kept(ms, f, ms.len())),
        forall|y: MemberView| #[trigger]
            kept(ms, f, ms.len()).contains(y) <==> ms.contains(y) && f(y.name),
{
    lemma_kept_order(ms, f, ms.len());
    let all = kept(ms, f, ms.len());
    assert forall|y: MemberView| #[trigger] all.contains(y) <==> ms.contains(y) && f(y.name) by {
        if all.contains(y) {
            let k = choose|k: int| 0 <= k < all.len() && all[k] == y;
            let i = lemma_kept_from(ms, f, ms.len(), k);
            assert(ms[i] == y);
        }
        if ms.contains(y) && f(y.name) {
            let i = choose|i: int| 0 <= i < ms.len() && ms[i] == y;
            lemma_kept_to(ms, f, ms.len(), i);
        }
    }
}

proof fn lemma_unexpired_kept(ms: Seq<MemberView>, commit: u64, n: nat)
    ensures
        commit::unexpired(ms, commit, n) == kept(
            ms,
            |name: Seq<char>| !commit::expired(name, commit),
            n,
        ),
    decreases n,
{
    if n > 0 {
        lemma_unexpired_kept(ms, commit, (n - 1) as nat);
    }
}

pub proof fn lemma_swept_kept(ms: Seq<MemberView>, live: ManifestView, n: nat)
    ensures
        commit::swept_among(ms, live, n) == kept(
            ms,
            |name: Seq<char>| commit::needed(ms, live, name),
            n,
        ),
    decreases n,
{
    if n > 0 {
        lemma_swept_kept(ms, live, (n - 1) as nat);
    }
}

// ---------------------------------------------------------------------------------------------
// Names.
// ---------------------------------------------------------------------------------------------
/// The literals that names begin with.
pub proof fn lemma_first_bytes()
    ensures
        encode_utf8("MANIFEST"@) == seq![77u8, 65, 78, 73, 70, 69, 83, 84],
        encode_utf8("MANIFEST."@) == seq![77u8, 65, 78, 73, 70, 69, 83, 84, 46],
        encode_utf8("part-"@) == seq![112u8, 97, 114, 116, 45],
        encode_utf8(".part"@) == seq![46u8, 112, 97, 114, 116],
        encode_utf8("part-r"@) == seq![112u8, 97, 114, 116, 45, 114],
        encode_utf8("fold"@) == seq![102u8, 111, 108, 100],
        encode_utf8("fold-"@) == seq![102u8, 111, 108, 100, 45],
{
    reveal_strlit("MANIFEST");
    reveal_strlit("MANIFEST.");
    reveal_strlit("part-");
    reveal_strlit(".part");
    reveal_strlit("part-r");
    reveal_strlit("fold");
    reveal_strlit("fold-");
    is_ascii_chars_encode_utf8("MANIFEST"@);
    is_ascii_chars_encode_utf8("MANIFEST."@);
    is_ascii_chars_encode_utf8("part-"@);
    is_ascii_chars_encode_utf8(".part"@);
    is_ascii_chars_encode_utf8("part-r"@);
    is_ascii_chars_encode_utf8("fold"@);
    is_ascii_chars_encode_utf8("fold-"@);
    assert(encode_utf8("MANIFEST"@) =~= seq![77u8, 65, 78, 73, 70, 69, 83, 84]);
    assert(encode_utf8("MANIFEST."@) =~= seq![77u8, 65, 78, 73, 70, 69, 83, 84, 46]);
    assert(encode_utf8("part-"@) =~= seq![112u8, 97, 114, 116, 45]);
    assert(encode_utf8(".part"@) =~= seq![46u8, 112, 97, 114, 116]);
    assert(encode_utf8("part-r"@) =~= seq![112u8, 97, 114, 116, 45, 114]);
    assert(encode_utf8("fold"@) =~= seq![102u8, 111, 108, 100]);
    assert(encode_utf8("fold-"@) =~= seq![102u8, 111, 108, 100, 45]);
}

/// A name that begins like a manifest's is no part's.
pub proof fn lemma_manifest_name(b: Seq<u8>)
    requires
        bytes::starts_with(b, encode_utf8("MANIFEST"@)),
    ensures
        !names::part_ends(b),
        names::fold_generation(b) is None,
{
    lemma_first_bytes();
    let m = encode_utf8("MANIFEST"@);
    assert(b.subrange(0, m.len() as int)[0] == b[0]);
    assert(b[0] == 77u8);
    let p = encode_utf8("part-"@);
    if bytes::starts_with(b, p) {
        assert(b.subrange(0, p.len() as int)[0] == b[0]);
    }
    names::lemma_position(b, 47);
    if names::position(b, 47) is Some {
        let k = names::position(b, 47)->0;
        let prefix = b.subrange(0, k as int);
        if prefix == encode_utf8("fold"@) {
            assert(prefix[0] == b[0]);
        }
        let f = encode_utf8("fold-"@);
        if bytes::starts_with(prefix, f) {
            assert(prefix.subrange(0, f.len() as int)[0] == prefix[0]);
            assert(prefix[0] == b[0]);
        }
    }
}

/// A name that claims to be a retained revision's begins like a manifest's.
pub proof fn lemma_claims(name: Seq<char>)
    requires
        namespace::claims_retained(name),
    ensures
        bytes::starts_with(encode_utf8(name), encode_utf8("MANIFEST"@)),
        name != "MANIFEST"@,
{
    lemma_first_bytes();
    let b = encode_utf8(name);
    let long = encode_utf8("MANIFEST."@);
    let short = encode_utf8("MANIFEST"@);
    assert(b.subrange(0, short.len() as int) =~= b.subrange(0, long.len() as int).subrange(
        0,
        short.len() as int,
    ));
    assert(long.subrange(0, short.len() as int) =~= short);
}

/// The retained copy of a revision carries its number.
pub proof fn lemma_retained_name(c: u64)
    ensures
        encode_utf8(text::chars(names::retained_name(c))) == names::retained_name(c),
        namespace::claims_retained(text::chars(names::retained_name(c))),
        names::retained_commit(names::retained_name(c)) == Some(c),
        text::chars(names::retained_name(c)) != "MANIFEST"@,
{
    names::lemma_retained_ascii(c);
    text::lemma_chars(names::retained_name(c));
    names::lemma_retained_commit(c);
    let b = names::retained_name(c);
    let p = encode_utf8("MANIFEST."@);
    assert(b.subrange(0, p.len() as int) =~= p);
    lemma_claims(text::chars(b));
}

/// A part that a valid manifest names has a part's name.
pub proof fn lemma_part_name(m: ManifestView, name: Seq<char>)
    requires
        manifest::manifest_fault(m) is None,
        namespace::names_part(m, name),
    ensures
        names::part_ends(encode_utf8(name)),
        !namespace::claims_retained(name),
        name != "MANIFEST"@,
        names::retained_commit(encode_utf8(name)) is None,
{
    lemma_first_bytes();
    let b = encode_utf8(name);
    let j = choose|j: int| 0 <= j < m.parts.len() && (#[trigger] m.parts[j]).member == name;
    manifest::lemma_parts_fault_each(m.parts, m.fold_gen, m.parts.len(), j);
    let r = m.parts[j];
    assert(names::part_member_allowed(b, r.seq_lo, r.seq_hi, m.fold_gen));
    let p = encode_utf8("part-"@);
    let s = encode_utf8(".part"@);
    assert(b.len() >= p.len() + s.len());
    assert(b.subrange(0, p.len() as int) =~= p);
    assert(b.subrange(b.len() - s.len(), b.len() as int) =~= s);
    if namespace::claims_retained(name) {
        lemma_claims(name);
        lemma_manifest_name(b);
    }
    if name == "MANIFEST"@ {
        assert(b[0] == 77u8);
        assert(b.subrange(0, p.len() as int)[0] == b[0]);
    }
}

/// A name below a fold generation's root is no manifest's and no part's.
pub proof fn lemma_fold_name(name: Seq<char>)
    requires
        names::fold_generation(encode_utf8(name)) is Some,
    ensures
        !names::part_ends(encode_utf8(name)),
        !namespace::claims_retained(name),
        name != "MANIFEST"@,
        names::retained_commit(encode_utf8(name)) is None,
{
    lemma_first_bytes();
    let b = encode_utf8(name);
    names::lemma_position(b, 47);
    let k = names::position(b, 47)->0;
    let prefix = b.subrange(0, k as int);
    let f = encode_utf8("fold-"@);
    if bytes::starts_with(prefix, f) {
        assert(prefix.subrange(0, f.len() as int)[0] == prefix[0]);
    }
    assert(prefix[0] == 102u8);
    assert(b[0] == prefix[0]);
    let p = encode_utf8("part-"@);
    if bytes::starts_with(b, p) {
        assert(b.subrange(0, p.len() as int)[0] == b[0]);
    }
    let m = encode_utf8("MANIFEST."@);
    if bytes::starts_with(b, m) {
        assert(b.subrange(0, m.len() as int)[0] == b[0]);
    }
    if name == "MANIFEST"@ {
        assert(b[0] == 77u8);
    }
}

// ---------------------------------------------------------------------------------------------
// Retained revisions.
// ---------------------------------------------------------------------------------------------
/// Numbers that ascend strictly.
pub open spec fn rising(s: Seq<u64>) -> bool {
    forall|i: int, j: int| 0 <= i < j < s.len() ==> s[i] < s[j]
}

/// Strictly ascending sequences of the same numbers are the same.
pub proof fn lemma_rising_unique(a: Seq<u64>, b: Seq<u64>)
    requires
        rising(a),
        rising(b),
        forall|x: u64| #[trigger] a.contains(x) <==> b.contains(x),
    ensures
        a == b,
    decreases a.len(),
{
    if a.len() == 0 {
        if b.len() > 0 {
            assert(b.contains(b[0]));
            assert(a.contains(b[0]));
        }
        assert(a =~= b);
    } else {
        assert(a.contains(a.last()));
        assert(b.contains(a.last()));
        assert(b.len() > 0);
        assert(b.contains(b.last()));
        assert(a.contains(b.last()));
        let i = choose|i: int| 0 <= i < b.len() && b[i] == a.last();
        let j = choose|j: int| 0 <= j < a.len() && a[j] == b.last();
        assert(a.last() == b.last()) by {
            if i < b.len() - 1 {
                assert(b[i] < b[b.len() - 1]);
                if j < a.len() - 1 {
                    assert(a[j] < a[a.len() - 1]);
                }
            }
        }
        let (c, d) = (a.drop_last(), b.drop_last());
        assert forall|x: u64| #[trigger] c.contains(x) <==> d.contains(x) by {
            if c.contains(x) {
                let k = choose|k: int| 0 <= k < c.len() && c[k] == x;
                assert(a[k] == x && a[k] < a[a.len() - 1]);
                assert(a.contains(x));
                let h = choose|h: int| 0 <= h < b.len() && b[h] == x;
                assert(d[h] == x);
            }
            if d.contains(x) {
                let k = choose|k: int| 0 <= k < d.len() && d[k] == x;
                assert(b[k] == x && b[k] < b[b.len() - 1]);
                assert(b.contains(x));
                assert(a.contains(x));
                let h = choose|h: int| 0 <= h < a.len() && a[h] == x;
                assert(c[h] == x);
            }
        }
        lemma_rising_unique(c, d);
        assert(a =~= c.push(a.last()));
        assert(b =~= d.push(b.last()));
    }
}

/// Every name that claims a revision is the canonical name of one.
pub open spec fn canonical_claims(ms: Seq<MemberView>) -> bool {
    forall|y: MemberView| #[trigger]
        ms.contains(y) && namespace::claims_retained(y.name) ==> exists|c: u64|
            encode_utf8(y.name) == #[trigger] names::retained_name(c)
}

/// A number behind a canonical name is that of the name.
pub proof fn lemma_claimed(ms: Seq<MemberView>, y: MemberView, c: u64)
    requires
        canonical_claims(ms),
        ms.contains(y),
        names::retained_commit(encode_utf8(y.name)) == Some(c),
    ensures
        namespace::claims_retained(y.name),
        encode_utf8(y.name) == names::retained_name(c),
        y.name == text::chars(names::retained_name(c)),
{
    assert(namespace::claims_retained(y.name));
    let d = choose|d: u64| encode_utf8(y.name) == #[trigger] names::retained_name(d);
    names::lemma_retained_commit(d);
    lemma_retained_name(c);
    bytes::lemma_utf8_injective(y.name, text::chars(names::retained_name(c)));
}

/// Revisions under canonical names are each retained once.
pub proof fn lemma_retained_rising(ms: Seq<MemberView>, n: nat)
    requires
        n <= ms.len(),
        container::names_ascending(ms),
        canonical_claims(ms),
    ensures
        rising(chain::retained_among(ms, n)),
    decreases n,
{
    if n > 0 {
        lemma_retained_rising(ms, (n - 1) as nat);
        let before = chain::retained_among(ms, (n - 1) as nat);
        match names::retained_commit(encode_utf8(ms[n - 1].name)) {
            None => {},
            Some(c) => {
                chain::lemma_retained_among(ms, (n - 1) as nat);
                assert(ms.contains(ms[n - 1]));
                lemma_claimed(ms, ms[n - 1], c);
                if before.contains(c) {
                    let i = choose|i: int|
                        0 <= i < n - 1 && names::retained_commit(
                            encode_utf8((#[trigger] ms[i]).name),
                        ) == Some(c);
                    assert(ms.contains(ms[i]));
                    lemma_claimed(ms, ms[i], c);
                    assert(bytes::name_lt(ms[i].name, ms[n - 1].name));
                    bytes::lemma_name_order(ms[i].name, ms[i].name, ms[i].name);
                }
                lemma_inserted_rising(before, c);
            },
        }
    }
}

proof fn lemma_inserted_rising(s: Seq<u64>, c: u64)
    requires
        rising(s),
        !s.contains(c),
    ensures
        rising(chain::inserted(s, c)),
        forall|i: int| 0 <= i < chain::inserted(s, c).len() ==> #[trigger] chain::inserted(s, c)[i]
            <= c || (s.len() > 0 && chain::inserted(s, c)[i] <= s.last()),
    decreases s.len(),
{
    let r = chain::inserted(s, c);
    if s.len() == 0 || s.last() <= c {
        if s.len() > 0 {
            assert(s[s.len() - 1] == s.last());
            assert(s.contains(s.last()));
            assert forall|i: int| 0 <= i < s.len() implies s[i] <= s.last() by {}
        }
        assert forall|i: int, j: int| 0 <= i < j < r.len() implies r[i] < r[j] by {
            if j == s.len() {
                assert(s[i] <= s.last());
            }
        }
    } else {
        let front = s.drop_last();
        assert(!front.contains(c)) by {
            if front.contains(c) {
                let k = choose|k: int| 0 <= k < front.len() && front[k] == c;
                assert(s[k] == c);
            }
        }
        lemma_inserted_rising(front, c);
        let f = chain::inserted(front, c);
        assert forall|i: int| 0 <= i < f.len() implies #[trigger] f[i] < s.last() by {
            if front.len() > 0 {
                assert(s[front.len() - 1] < s[s.len() - 1]);
                assert(front.last() == s[front.len() - 1]);
            }
        }
        assert forall|i: int, j: int| 0 <= i < j < r.len() implies r[i] < r[j] by {
            if j < f.len() {
                assert(r[i] == f[i] && r[j] == f[j]);
            } else {
                assert(r[i] == f[i]);
            }
        }
    }
}

// ---------------------------------------------------------------------------------------------
// One more revision.
// ---------------------------------------------------------------------------------------------
/// What a host and a writer put into a container before they commit a revision: nothing that was
/// there changes, and what is new is a part the revision names or a member of its fold.
pub open spec fn staged_for(before: Seq<MemberView>, after: Seq<MemberView>, m: ManifestView) -> bool {
    &&& container::names_ascending(before)
    &&& container::names_ascending(after)
    &&& forall|y: MemberView| #[trigger] before.contains(y) ==> after.contains(y)
    &&& forall|y: MemberView| #[trigger]
        after.contains(y) ==> before.contains(y) || namespace::names_part(m, y.name) || (
        names::fold_member(encode_utf8(y.name)) && names::fold_generation(encode_utf8(y.name))
            == Some(m.fold_gen))
    &&& forall|i: int|
        0 <= i < m.parts.len() ==> held(after, (#[trigger] m.parts[i]).member) is Some
}

/// A revision follows what a container is at.
pub open spec fn follows(ms: Seq<MemberView>, m: ManifestView) -> bool {
    &&& manifest::manifest_fault(m) is None
    &&& match chain::authority_of(ms) {
        None => m.commit == 1,
        Some(p) => {
            &&& m.commit == p.commit + 1
            &&& m.fold_gen == p.fold_gen
            &&& m.next_seq >= p.next_seq
            &&& !chain::tail_before(m, p)
            &&& m.prev is Some
            &&& encode_utf8(m.prev->0) == manifest::link(held(ms, "MANIFEST"@)->0.bytes)
        },
    }
}

/// The members a commit leaves.
pub open spec fn after_commit(staged: Seq<MemberView>, m: ManifestView, json: Seq<u8>) -> Seq<
    MemberView,
> {
    commit::swept(commit::committed(staged, m, json), m)
}

/// What a committed container holds before the sweep.
pub proof fn lemma_committed(staged: Seq<MemberView>, m: ManifestView, json: Seq<u8>)
    requires
        container::names_ascending(staged),
        m.commit > 0,
    ensures
        ({
            let all = commit::committed(staged, m, json);
            let r = commit::manifest_member(
                text::chars(names::retained_name(m.commit)),
                m,
                json,
            );
            let x = commit::manifest_member("MANIFEST"@, m, json);
            &&& container::names_ascending(all)
            &&& forall|y: MemberView| #[trigger]
                all.contains(y) <==> y == x || y == r || (staged.contains(y) && y.name != x.name
                    && y.name != r.name && !commit::expired(y.name, m.commit))
        }),
{
    let r = commit::manifest_member(text::chars(names::retained_name(m.commit)), m, json);
    let x = commit::manifest_member("MANIFEST"@, m, json);
    let one = container::put_sorted(staged, r);
    let two = container::put_sorted(one, x);
    container::lemma_put_sorted(staged, r);
    container::lemma_put_sorted(one, x);
    lemma_unexpired_kept(two, m.commit, two.len());
    lemma_kept(two, |name: Seq<char>| !commit::expired(name, m.commit));
    lemma_retained_name(m.commit);
    lemma_first_bytes();
    assert(!commit::expired(r.name, m.commit));
    assert(!commit::expired(x.name, m.commit));
    let all = commit::committed(staged, m, json);
    assert forall|y: MemberView| #[trigger] all.contains(y) <==> y == x || y == r || (
    staged.contains(y) && y.name != x.name && y.name != r.name && !commit::expired(
        y.name,
        m.commit,
    )) by {
        assert(two.contains(y) <==> y == x || (one.contains(y) && y.name != x.name));
        assert(one.contains(y) <==> y == r || (staged.contains(y) && y.name != r.name));
    }
}

/// Where a container's revisions hold together, what claims to be one is canonical.
pub proof fn lemma_claims_canonical(ms: Seq<MemberView>)
    requires
        namespace::retained_fault(ms, ms.len()) is None,
    ensures
        canonical_claims(ms),
        forall|y: MemberView| #[trigger]
            ms.contains(y) && namespace::claims_retained(y.name) ==> container::member_manifest(
                y,
            ) is Ok && manifest::manifest_fault(container::member_manifest(y)->Ok_0) is None,
{
    assert forall|y: MemberView| #[trigger]
        ms.contains(y) && namespace::claims_retained(y.name) implies (exists|c: u64|
        encode_utf8(y.name) == #[trigger] names::retained_name(c)) && container::member_manifest(
        y,
    ) is Ok && manifest::manifest_fault(container::member_manifest(y)->Ok_0) is None by {
        let i = choose|i: int| 0 <= i < ms.len() && ms[i] == y;
        namespace::lemma_retained_each(ms, ms.len(), i);
        let c = names::signed_u64(namespace::revision_text(y.name))->0;
        assert(encode_utf8(y.name) == names::retained_name(c));
    }
}

/// The newest retained revision is the current one.
pub proof fn lemma_newest(c: ContainerView)
    requires
        chain::chain_fault(c, false) is None,
        chain::retained_commits(c.members).len() > 0,
    ensures
        chain::authority_of(c.members) is Some,
        ({
            let ms = c.members;
            let commits = chain::retained_commits(ms);
            let p = chain::authority_of(ms)->0;
            &&& commits.last() == p.commit
            &&& chain::revision(ms, commits.last()) == Ok::<(Seq<u8>, ManifestView), chain::ChainError>(
                (held(ms, "MANIFEST"@)->0.bytes, p),
            )
        }),
{
    let ms = c.members;
    let commits = chain::retained_commits(ms);
    chain::lemma_retained_among(ms, ms.len());
    let last = commits.len() - 1;
    assert(commits.contains(commits[last]));
    assert(ms.len() > 0);
    let p = chain::authority_of(ms)->0;
    chain::lemma_links_each(ms, Some(p), commits, commits.len(), last, false);
    let name = text::chars(names::retained_name(commits[last]));
    container::lemma_position_from(ms, name, 0);
    container::lemma_position_from(ms, "MANIFEST"@, 0);
    let i = container::position_of(ms, name)->0;
    let j = container::position_of(ms, "MANIFEST"@)->0;
    assert(ms[i].bytes == ms[j].bytes);
}

/// Retained revisions follow one another without a gap.
proof fn lemma_consecutive(c: ContainerView, i: int)
    requires
        chain::chain_fault(c, false) is None,
        0 < i < chain::retained_commits(c.members).len(),
    ensures
        chain::retained_commits(c.members)[i] == chain::retained_commits(c.members)[i - 1] + 1,
{
    let ms = c.members;
    let commits = chain::retained_commits(ms);
    chain::lemma_links_each(ms, chain::authority_of(ms), commits, commits.len(), i, false);
}

pub proof fn lemma_distance(c: ContainerView, i: int, j: int)
    requires
        chain::chain_fault(c, false) is None,
        0 <= i <= j < chain::retained_commits(c.members).len(),
    ensures
        chain::retained_commits(c.members)[j] == chain::retained_commits(c.members)[i] + (j - i),
    decreases j - i,
{
    if i < j {
        lemma_distance(c, i, j - 1);
        lemma_consecutive(c, j);
    }
}

/// How many of the oldest revisions a commit gives up.
pub open spec fn dropped(commits: Seq<u64>) -> int {
    if commits.len() >= MANIFEST_RETAIN {
        commits.len() - MANIFEST_RETAIN + 1
    } else {
        0
    }
}

/// The revisions retained after one more.
pub open spec fn retained_after(commits: Seq<u64>, m: ManifestView) -> Seq<u64> {
    commits.skip(dropped(commits)).push(m.commit)
}

/// A revision that a container retains expires exactly where the window moves past it.
proof fn lemma_window(c: ContainerView, m: ManifestView, i: int)
    requires
        chain::chain_fault(c, false) is None,
        follows(c.members, m),
        0 <= i < chain::retained_commits(c.members).len(),
    ensures
        ({
            let commits = chain::retained_commits(c.members);
            &&& (commits[i] <= manifest::oldest_expired(m.commit) <==> i < dropped(commits))
            &&& commits[i] < m.commit
            &&& commits[i] > 0
        }),
{
    let commits = chain::retained_commits(c.members);
    lemma_newest(c);
    lemma_distance(c, i, commits.len() - 1);
    chain::lemma_links_each(
        c.members,
        chain::authority_of(c.members),
        commits,
        commits.len(),
        i,
        false,
    );
    let found = chain::revision(c.members, commits[i])->Ok_0.1;
    assert(manifest::manifest_fault(found) is None);
    assert(commits.len() <= MANIFEST_RETAIN);
}

/// The window a commit moves past, over all revisions.
pub open spec fn windowed(commits: Seq<u64>, m: ManifestView) -> bool {
    forall|i: int|
        0 <= i < commits.len() ==> (#[trigger] commits[i] <= manifest::oldest_expired(m.commit)
            <==> i < dropped(commits)) && commits[i] < m.commit
}

pub proof fn lemma_windowed(c: ContainerView, m: ManifestView)
    requires
        chain::chain_fault(c, false) is None,
        follows(c.members, m),
    ensures
        windowed(chain::retained_commits(c.members), m),
        rising(retained_after(chain::retained_commits(c.members), m)),
{
    let commits = chain::retained_commits(c.members);
    let want = retained_after(commits, m);
    let k = dropped(commits);
    assert forall|i: int| 0 <= i < commits.len() implies (#[trigger] commits[i]
        <= manifest::oldest_expired(m.commit) <==> i < k) && commits[i] < m.commit by {
        lemma_window(c, m, i);
    }
    assert forall|i: int, j: int| 0 <= i < j < want.len() implies want[i] < want[j] by {
        assert(commits[i + k] < m.commit);
        if j < want.len() - 1 {
            lemma_distance(c, i + k, j + k);
        }
    }
}

/// The name of the current manifest is none of a retained one, of a part, or of a fold member.
pub proof fn lemma_current_name()
    ensures
        !namespace::claims_retained("MANIFEST"@),
        names::retained_commit(encode_utf8("MANIFEST"@)) is None,
        !names::part_ends(encode_utf8("MANIFEST"@)),
        names::fold_generation(encode_utf8("MANIFEST"@)) is None,
{
    lemma_first_bytes();
    let short = encode_utf8("MANIFEST"@);
    assert(short.subrange(0, short.len() as int) =~= short);
    lemma_manifest_name(short);
}

/// A member that claims a revision was there before, but for the new revision's.
proof fn lemma_claimant(
    ms: Seq<MemberView>,
    staged: Seq<MemberView>,
    m: ManifestView,
    y: MemberView,
)
    requires
        staged_for(ms, staged, m),
        manifest::manifest_fault(m) is None,
        staged.contains(y),
        namespace::claims_retained(y.name),
    ensures
        ms.contains(y),
{
    if !ms.contains(y) {
        if namespace::names_part(m, y.name) {
            lemma_part_name(m, y.name);
        } else {
            lemma_fold_name(y.name);
        }
    }
}

/// What a commit without its sweep retains.
proof fn lemma_retained_kept(
    ms: Seq<MemberView>,
    staged: Seq<MemberView>,
    m: ManifestView,
    json: Seq<u8>,
    d: u64,
)
    requires
        canonical_claims(ms),
        staged_for(ms, staged, m),
        manifest::manifest_fault(m) is None,
        windowed(chain::retained_commits(ms), m),
        chain::retained_commits(commit::committed(staged, m, json)).contains(d),
    ensures
        retained_after(chain::retained_commits(ms), m).contains(d),
{
    let all = commit::committed(staged, m, json);
    let r = commit::manifest_member(text::chars(names::retained_name(m.commit)), m, json);
    let commits = chain::retained_commits(ms);
    let want = retained_after(commits, m);
    let k = dropped(commits);
    lemma_committed(staged, m, json);
    lemma_current_name();
    lemma_retained_name(m.commit);
    chain::lemma_retained_among(all, all.len());
    let i = choose|i: int|
        0 <= i < all.len() && names::retained_commit(encode_utf8((#[trigger] all[i]).name)) == Some(
            d,
        );
    let y = all[i];
    assert(all.contains(y));
    if y == r {
        assert(want[want.len() - 1] == d);
    } else {
        assert(staged.contains(y));
        assert(namespace::claims_retained(y.name));
        lemma_claimant(ms, staged, m, y);
        lemma_claimed(ms, y, d);
        chain::lemma_retained_among(ms, ms.len());
        let j = choose|j: int| 0 <= j < ms.len() && ms[j] == y;
        assert(names::retained_commit(encode_utf8(ms[j].name)) == Some(d));
        assert(commits.contains(d));
        let h = choose|h: int| 0 <= h < commits.len() && commits[h] == d;
        assert(commits[h] <= manifest::oldest_expired(m.commit) <==> h < k);
        assert(want[h - k] == d);
    }
}

/// What a commit without its sweep keeps.
proof fn lemma_kept_retained(
    ms: Seq<MemberView>,
    staged: Seq<MemberView>,
    m: ManifestView,
    json: Seq<u8>,
    d: u64,
)
    requires
        canonical_claims(ms),
        staged_for(ms, staged, m),
        manifest::manifest_fault(m) is None,
        windowed(chain::retained_commits(ms), m),
        retained_after(chain::retained_commits(ms), m).contains(d),
    ensures
        chain::retained_commits(commit::committed(staged, m, json)).contains(d),
{
    let all = commit::committed(staged, m, json);
    let r = commit::manifest_member(text::chars(names::retained_name(m.commit)), m, json);
    let commits = chain::retained_commits(ms);
    let want = retained_after(commits, m);
    let k = dropped(commits);
    lemma_committed(staged, m, json);
    lemma_retained_name(m.commit);
    chain::lemma_retained_among(all, all.len());
    let h = choose|h: int| 0 <= h < want.len() && want[h] == d;
    if h == want.len() - 1 {
        assert(all.contains(r));
        let i = choose|i: int| 0 <= i < all.len() && all[i] == r;
        assert(names::retained_commit(encode_utf8(all[i].name)) == Some(d));
    } else {
        chain::lemma_retained_among(ms, ms.len());
        assert(commits[h + k] == d);
        assert(commits.contains(d));
        let j = choose|j: int|
            0 <= j < ms.len() && names::retained_commit(encode_utf8((#[trigger] ms[j]).name))
                == Some(d);
        let y = ms[j];
        assert(ms.contains(y));
        lemma_claimed(ms, y, d);
        lemma_claims(y.name);
        assert(commits[h + k] <= manifest::oldest_expired(m.commit) <==> h + k < k);
        assert(staged.contains(y));
        assert(all.contains(y));
        let i = choose|i: int| 0 <= i < all.len() && all[i] == y;
        assert(names::retained_commit(encode_utf8(all[i].name)) == Some(d));
    }
}

/// What is left after a commit, member by member.
pub proof fn lemma_after(ms: Seq<MemberView>, staged: Seq<MemberView>, m: ManifestView, json: Seq<u8>)
    requires
        canonical_claims(ms),
        staged_for(ms, staged, m),
        manifest::manifest_fault(m) is None,
        windowed(chain::retained_commits(ms), m),
        rising(retained_after(chain::retained_commits(ms), m)),
    ensures
        ({
            let all = commit::committed(staged, m, json);
            let left = after_commit(staged, m, json);
            let want = retained_after(chain::retained_commits(ms), m);
            &&& container::names_ascending(all)
            &&& container::names_ascending(left)
            &&& canonical_claims(all)
            &&& canonical_claims(left)
            &&& forall|y: MemberView| #[trigger]
                left.contains(y) <==> all.contains(y) && commit::needed(all, m, y.name)
            &&& chain::retained_commits(all) == want
            &&& chain::retained_commits(left) == want
        }),
{
    let all = commit::committed(staged, m, json);
    let left = after_commit(staged, m, json);
    let commits = chain::retained_commits(ms);
    let want = retained_after(commits, m);
    lemma_committed(staged, m, json);
    lemma_swept_kept(all, m, all.len());
    lemma_kept(all, |name: Seq<char>| commit::needed(all, m, name));
    assert(canonical_claims(all)) by {
        assert forall|y: MemberView| #[trigger]
            all.contains(y) && namespace::claims_retained(y.name) implies exists|d: u64|
            encode_utf8(y.name) == #[trigger] names::retained_name(d) by {
            lemma_retained_name(m.commit);
            lemma_current_name();
            if staged.contains(y) {
                lemma_claimant(ms, staged, m, y);
            } else {
                assert(encode_utf8(y.name) == names::retained_name(m.commit));
            }
        }
    }
    assert(canonical_claims(left)) by {
        assert forall|y: MemberView| #[trigger]
            left.contains(y) && namespace::claims_retained(y.name) implies exists|d: u64|
            encode_utf8(y.name) == #[trigger] names::retained_name(d) by {
            assert(all.contains(y));
        }
    }
    lemma_retained_rising(all, all.len());
    lemma_retained_rising(left, left.len());
    assert forall|d: u64| #[trigger] chain::retained_commits(all).contains(d) <==> want.contains(
        d,
    ) by {
        if want.contains(d) {
            lemma_kept_retained(ms, staged, m, json, d);
        }
        if chain::retained_commits(all).contains(d) {
            lemma_retained_kept(ms, staged, m, json, d);
        }
    }
    assert forall|d: u64| #[trigger] chain::retained_commits(left).contains(d) <==> want.contains(
        d,
    ) by {
        lemma_left_set(all, left, m, d);
        assert(chain::retained_commits(all).contains(d) <==> want.contains(d));
    }
    lemma_rising_unique(chain::retained_commits(all), want);
    lemma_rising_unique(chain::retained_commits(left), want);
}

/// A sweep removes no retained revision.
pub proof fn lemma_left_set(all: Seq<MemberView>, left: Seq<MemberView>, m: ManifestView, d: u64)
    requires
        forall|y: MemberView| #[trigger]
            left.contains(y) <==> all.contains(y) && commit::needed(all, m, y.name),
    ensures
        chain::retained_commits(left).contains(d) <==> chain::retained_commits(all).contains(d),
{
    chain::lemma_retained_among(all, all.len());
    chain::lemma_retained_among(left, left.len());
    if chain::retained_commits(left).contains(d) {
        let i = choose|i: int|
            0 <= i < left.len() && names::retained_commit(encode_utf8((#[trigger] left[i]).name))
                == Some(d);
        assert(left.contains(left[i]));
        let j = choose|j: int| 0 <= j < all.len() && all[j] == left[i];
        assert(names::retained_commit(encode_utf8(all[j].name)) == Some(d));
    }
    if chain::retained_commits(all).contains(d) {
        let i = choose|i: int|
            0 <= i < all.len() && names::retained_commit(encode_utf8((#[trigger] all[i]).name))
                == Some(d);
        assert(all.contains(all[i]));
        assert(namespace::claims_retained(all[i].name));
        lemma_claims(all[i].name);
        lemma_manifest_name(encode_utf8(all[i].name));
        assert(left.contains(all[i]));
        let j = choose|j: int| 0 <= j < left.len() && left[j] == all[i];
        assert(names::retained_commit(encode_utf8(left[j].name)) == Some(d));
    }
}

// ---------------------------------------------------------------------------------------------
// The chain after a commit.
// ---------------------------------------------------------------------------------------------
/// A sealed manifest reads back.
proof fn lemma_sealed_reads(name: Seq<char>, m: ManifestView, json: Seq<u8>)
    requires
        manifest::manifest_fault(m) is None,
        manifest::sealed(json).len() <= manifest::MAX_MANIFEST_BYTES,
    ensures
        container::member_manifest(commit::manifest_member(name, m, json)) == Ok::<
            ManifestView,
            ManifestError,
        >(m),
{
    manifest::lemma_sealed_opens(json);
}

/// What every lemma below works from.
pub open spec fn committing(
    ms: Seq<MemberView>,
    staged: Seq<MemberView>,
    m: ManifestView,
    json: Seq<u8>,
) -> bool {
    &&& canonical_claims(ms)
    &&& staged_for(ms, staged, m)
    &&& manifest::manifest_fault(m) is None
    &&& manifest::sealed(json).len() <= manifest::MAX_MANIFEST_BYTES
    &&& windowed(chain::retained_commits(ms), m)
    &&& rising(retained_after(chain::retained_commits(ms), m))
}

/// The new revision reads back from what is left.
proof fn lemma_new_revision(
    ms: Seq<MemberView>,
    staged: Seq<MemberView>,
    m: ManifestView,
    json: Seq<u8>,
)
    requires
        committing(ms, staged, m, json),
    ensures
        ({
            let left = after_commit(staged, m, json);
            let x = commit::manifest_member("MANIFEST"@, m, json);
            let r = commit::manifest_member(
                text::chars(names::retained_name(m.commit)),
                m,
                json,
            );
            &&& held(left, "MANIFEST"@) == Some(x)
            &&& held(left, r.name) == Some(r)
            &&& chain::current_of(left) == Some(Ok::<ManifestView, ManifestError>(m))
            &&& chain::revision(left, m.commit) == Ok::<
                (Seq<u8>, ManifestView),
                chain::ChainError,
            >((x.bytes, m))
        }),
{
    let all = commit::committed(staged, m, json);
    let left = after_commit(staged, m, json);
    let x = commit::manifest_member("MANIFEST"@, m, json);
    let r = commit::manifest_member(text::chars(names::retained_name(m.commit)), m, json);
    lemma_after(ms, staged, m, json);
    lemma_committed(staged, m, json);
    lemma_current_name();
    lemma_retained_name(m.commit);
    lemma_claims(r.name);
    lemma_manifest_name(encode_utf8(r.name));
    assert(all.contains(x) && all.contains(r));
    assert(left.contains(x) && left.contains(r));
    lemma_held(left, x.name);
    lemma_held(left, r.name);
    lemma_sealed_reads("MANIFEST"@, m, json);
    lemma_sealed_reads(r.name, m, json);
}

/// An older revision that is still retained reads as it did.
pub proof fn lemma_old_revision(
    ms: Seq<MemberView>,
    staged: Seq<MemberView>,
    m: ManifestView,
    json: Seq<u8>,
    h: int,
)
    requires
        committing(ms, staged, m, json),
        dropped(chain::retained_commits(ms)) <= h < chain::retained_commits(ms).len(),
    ensures
        ({
            let left = after_commit(staged, m, json);
            let all = commit::committed(staged, m, json);
            let d = chain::retained_commits(ms)[h];
            let name = text::chars(names::retained_name(d));
            &&& held(ms, name) is Some
            &&& held(left, name) == held(ms, name)
            &&& held(all, name) == held(ms, name)
            &&& chain::revision(left, d) == chain::revision(ms, d)
            &&& chain::revision(all, d) == chain::revision(ms, d)
        }),
{
    let all = commit::committed(staged, m, json);
    let left = after_commit(staged, m, json);
    let commits = chain::retained_commits(ms);
    let d = commits[h];
    let name = text::chars(names::retained_name(d));
    lemma_after(ms, staged, m, json);
    lemma_committed(staged, m, json);
    lemma_retained_name(m.commit);
    lemma_retained_name(d);
    chain::lemma_retained_among(ms, ms.len());
    assert(commits.contains(d));
    let j = choose|j: int|
        0 <= j < ms.len() && names::retained_commit(encode_utf8((#[trigger] ms[j]).name)) == Some(d);
    let y = ms[j];
    assert(ms.contains(y));
    lemma_claimed(ms, y, d);
    lemma_claims(y.name);
    lemma_manifest_name(encode_utf8(y.name));
    assert(commits[h] < m.commit);
    assert(commits[h] <= manifest::oldest_expired(m.commit) <==> h < dropped(commits));
    assert(staged.contains(y));
    assert(all.contains(y));
    assert(left.contains(y));
    lemma_held(ms, name);
    lemma_held(all, name);
    lemma_held(left, name);
}

/// A part that a retained revision, or the new one, names is not swept.
pub proof fn lemma_part_left(
    ms: Seq<MemberView>,
    staged: Seq<MemberView>,
    m: ManifestView,
    json: Seq<u8>,
    by: ManifestView,
    name: Seq<char>,
)
    requires
        committing(ms, staged, m, json),
        manifest::manifest_fault(by) is None,
        namespace::names_part(by, name),
        by == m || exists|h: int|
            dropped(chain::retained_commits(ms)) <= h < chain::retained_commits(ms).len()
                && chain::revision(ms, #[trigger] chain::retained_commits(ms)[h]) is Ok
                && chain::revision(ms, chain::retained_commits(ms)[h])->Ok_0.1 == by,
        held(staged, name) is Some,
    ensures
        held(after_commit(staged, m, json), name) == held(staged, name),
{
    let all = commit::committed(staged, m, json);
    let left = after_commit(staged, m, json);
    let commits = chain::retained_commits(ms);
    lemma_after(ms, staged, m, json);
    lemma_committed(staged, m, json);
    lemma_part_name(by, name);
    lemma_retained_name(m.commit);
    lemma_held(staged, name);
    let y = held(staged, name)->0;
    assert(all.contains(y));
    if by != m {
        let h = choose|h: int|
            dropped(commits) <= h < commits.len() && chain::revision(
                ms,
                #[trigger] commits[h],
            ) is Ok && chain::revision(ms, commits[h])->Ok_0.1 == by;
        lemma_old_revision(ms, staged, m, json, h);
        let want = retained_after(commits, m);
        assert(want[h - dropped(commits)] == commits[h]);
        assert(chain::named_before(all, want, want.len() as int, name));
    }
    assert(commit::needed(all, m, name));
    assert(left.contains(y));
    lemma_held(left, name);
}

proof fn lemma_shallow_pins(
    ms: Seq<MemberView>,
    commits: Seq<u64>,
    i: int,
    m: ManifestView,
    n: nat,
)
    requires
        n <= m.parts.len(),
        forall|j: int| 0 <= j < n ==> held(ms, (#[trigger] m.parts[j]).member) is Some,
    ensures
        chain::pins_fault(ms, commits, i, m, false, n) is None,
    decreases n,
{
    if n > 0 {
        lemma_shallow_pins(ms, commits, i, m, (n - 1) as nat);
        assert(held(ms, m.parts[n - 1].member) is Some);
    }
}

pub proof fn lemma_pinned_held(
    ms: Seq<MemberView>,
    commits: Seq<u64>,
    i: int,
    m: ManifestView,
    n: nat,
    j: int,
)
    requires
        0 <= j < n <= m.parts.len(),
        chain::pins_fault(ms, commits, i, m, false, n) is None,
    ensures
        held(ms, m.parts[j].member) is Some,
    decreases n,
{
    if j < n - 1 {
        lemma_pinned_held(ms, commits, i, m, (n - 1) as nat, j);
    }
}

/// One retained revision holds after a commit.
proof fn lemma_link_left(
    c: ContainerView,
    staged: Seq<MemberView>,
    m: ManifestView,
    json: Seq<u8>,
    i: int,
)
    requires
        chain::chain_fault(c, false) is None,
        follows(c.members, m),
        committing(c.members, staged, m, json),
        0 <= i < retained_after(chain::retained_commits(c.members), m).len(),
    ensures
        chain::link_fault(
            after_commit(staged, m, json),
            Some(m),
            retained_after(chain::retained_commits(c.members), m),
            i,
            false,
        ) is None,
{
    let ms = c.members;
    let left = after_commit(staged, m, json);
    let commits = chain::retained_commits(ms);
    let want = retained_after(commits, m);
    let k = dropped(commits);
    let current = chain::authority_of(ms);
    if i < want.len() - 1 {
        let h = i + k;
        assert(want[i] == commits[h]);
        chain::lemma_links_each(ms, current, commits, commits.len(), h, false);
        lemma_newest(c);
        lemma_old_revision(ms, staged, m, json, h);
        let mm = chain::revision(ms, commits[h])->Ok_0.1;
        assert(manifest::manifest_fault(mm) is None);
        if i > 0 {
            assert(want[i - 1] == commits[h - 1]);
            lemma_old_revision(ms, staged, m, json, h - 1);
        }
        assert forall|j: int| 0 <= j < mm.parts.len() implies held(
            left,
            (#[trigger] mm.parts[j]).member,
        ) is Some by {
            let name = mm.parts[j].member;
            lemma_pinned_held(ms, commits, h, mm, mm.parts.len(), j);
            lemma_held(ms, name);
            lemma_held(staged, name);
            assert(staged.contains(held(ms, name)->0));
            assert(namespace::names_part(mm, name));
            lemma_part_left(ms, staged, m, json, mm, name);
        }
        lemma_shallow_pins(left, want, i, mm, mm.parts.len());
    } else {
        assert(want[i] == m.commit);
        lemma_new_revision(ms, staged, m, json);
        if i > 0 {
            lemma_newest(c);
            assert(want[i - 1] == commits[i - 1 + k]);
            assert(commits.last() == commits[i - 1 + k]);
            lemma_old_revision(ms, staged, m, json, i - 1 + k);
        }
        assert forall|j: int| 0 <= j < m.parts.len() implies held(
            left,
            (#[trigger] m.parts[j]).member,
        ) is Some by {
            let name = m.parts[j].member;
            assert(namespace::names_part(m, name));
            lemma_part_left(ms, staged, m, json, m, name);
        }
        lemma_shallow_pins(left, want, i, m, m.parts.len());
    }
}

proof fn lemma_links_left(
    c: ContainerView,
    staged: Seq<MemberView>,
    m: ManifestView,
    json: Seq<u8>,
    n: nat,
)
    requires
        chain::chain_fault(c, false) is None,
        follows(c.members, m),
        committing(c.members, staged, m, json),
        n <= retained_after(chain::retained_commits(c.members), m).len(),
    ensures
        chain::links_fault(
            after_commit(staged, m, json),
            Some(m),
            retained_after(chain::retained_commits(c.members), m),
            n,
            false,
        ) is None,
    decreases n,
{
    if n > 0 {
        lemma_links_left(c, staged, m, json, (n - 1) as nat);
        lemma_link_left(c, staged, m, json, n - 1);
    }
}

/// What claims a revision after a commit is one.
proof fn lemma_claimants_left(
    ms: Seq<MemberView>,
    staged: Seq<MemberView>,
    m: ManifestView,
    json: Seq<u8>,
    y: MemberView,
)
    requires
        committing(ms, staged, m, json),
        namespace::retained_fault(ms, ms.len()) is None,
        after_commit(staged, m, json).contains(y),
        namespace::claims_retained(y.name),
    ensures
        ms.contains(y) || y == commit::manifest_member(
            text::chars(names::retained_name(m.commit)),
            m,
            json,
        ),
        container::member_manifest(y) is Ok,
        names::signed_u64(namespace::revision_text(y.name)) is Some,
        ({
            let d = names::signed_u64(namespace::revision_text(y.name))->0;
            &&& encode_utf8(y.name) == names::retained_name(d)
            &&& container::member_manifest(y)->Ok_0.commit == d
        }),
{
    let r = commit::manifest_member(text::chars(names::retained_name(m.commit)), m, json);
    lemma_after(ms, staged, m, json);
    lemma_committed(staged, m, json);
    lemma_current_name();
    if y != r {
        assert(staged.contains(y));
        lemma_claimant(ms, staged, m, y);
        let i = choose|i: int| 0 <= i < ms.len() && ms[i] == y;
        namespace::lemma_retained_each(ms, ms.len(), i);
    } else {
        lemma_retained_name(m.commit);
        lemma_sealed_reads(r.name, m, json);
        names::lemma_retained_signed(m.commit);
        let p = encode_utf8("MANIFEST."@);
        let b = names::retained_name(m.commit);
        assert(b.subrange(p.len() as int, b.len() as int) =~= names::eight(m.commit));
    }
}

proof fn lemma_retained_left(
    ms: Seq<MemberView>,
    staged: Seq<MemberView>,
    m: ManifestView,
    json: Seq<u8>,
    n: nat,
)
    requires
        committing(ms, staged, m, json),
        namespace::retained_fault(ms, ms.len()) is None,
        n <= after_commit(staged, m, json).len(),
    ensures
        namespace::retained_fault(after_commit(staged, m, json), n) is None,
    decreases n,
{
    if n > 0 {
        lemma_retained_left(ms, staged, m, json, (n - 1) as nat);
        let left = after_commit(staged, m, json);
        let y = left[n - 1];
        assert(left.contains(y));
        if namespace::claims_retained(y.name) {
            lemma_claimants_left(ms, staged, m, json, y);
        }
    }
}

/// A retained revision's member, by its number.
proof fn lemma_revision_member(
    ms: Seq<MemberView>,
    staged: Seq<MemberView>,
    m: ManifestView,
    json: Seq<u8>,
    k: int,
) -> (z: int)
    requires
        committing(ms, staged, m, json),
        0 <= k < retained_after(chain::retained_commits(ms), m).len(),
        chain::revision(
            commit::committed(staged, m, json),
            retained_after(chain::retained_commits(ms), m)[k],
        ) is Ok,
    ensures
        0 <= z < after_commit(staged, m, json).len(),
        namespace::claims_retained(after_commit(staged, m, json)[z].name),
        container::member_manifest(after_commit(staged, m, json)[z]) == Ok::<
            ManifestView,
            ManifestError,
        >(
            chain::revision(
                commit::committed(staged, m, json),
                retained_after(chain::retained_commits(ms), m)[k],
            )->Ok_0.1,
        ),
{
    let all = commit::committed(staged, m, json);
    let left = after_commit(staged, m, json);
    let d = retained_after(chain::retained_commits(ms), m)[k];
    let name = text::chars(names::retained_name(d));
    lemma_after(ms, staged, m, json);
    lemma_retained_name(d);
    lemma_claims(name);
    lemma_manifest_name(encode_utf8(name));
    lemma_held(all, name);
    let y = held(all, name)->0;
    assert(all.contains(y));
    assert(left.contains(y));
    choose|z: int| 0 <= z < left.len() && left[z] == y
}

/// Every member left by a commit belongs to the store.
proof fn lemma_belongs_left(
    ms: Seq<MemberView>,
    current: Option<ManifestView>,
    staged: Seq<MemberView>,
    m: ManifestView,
    json: Seq<u8>,
    i: int,
)
    requires
        committing(ms, staged, m, json),
        namespace::namespace_fault(ms, current) is None,
        current matches Some(p) ==> manifest::manifest_fault(p) is None,
        forall|k: int|
            0 <= k < retained_after(chain::retained_commits(ms), m).len() ==> chain::revision(
                commit::committed(staged, m, json),
                #[trigger] retained_after(chain::retained_commits(ms), m)[k],
            ) is Ok,
        0 <= i < after_commit(staged, m, json).len(),
    ensures
        namespace::belongs(after_commit(staged, m, json), Some(m), i),
{
    let all = commit::committed(staged, m, json);
    let left = after_commit(staged, m, json);
    let want = retained_after(chain::retained_commits(ms), m);
    let y = left[i];
    let b = encode_utf8(y.name);
    assert(left.contains(y));
    lemma_after(ms, staged, m, json);
    lemma_committed(staged, m, json);
    lemma_claims_canonical(ms);
    assert(commit::needed(all, m, y.name));
    if y.name == "MANIFEST"@ || namespace::names_part(m, y.name) || namespace::claims_retained(
        y.name,
    ) {
        assert(namespace::admitted(left, Some(m), y.name));
    } else if names::part_ends(b) {
        let k = choose|k: int|
            0 <= k < want.len() && namespace::names_part(
                chain::revision(all, #[trigger] want[k])->Ok_0.1,
                y.name,
            );
        let z = lemma_revision_member(ms, staged, m, json, k);
        assert(namespace::names_part(container::member_manifest(left[z])->Ok_0, y.name));
        assert(namespace::admitted(left, Some(m), y.name));
    } else {
        lemma_retained_name(m.commit);
        assert(staged.contains(y));
        assert(names::fold_member(b)) by {
            if ms.contains(y) {
                let j = choose|j: int| 0 <= j < ms.len() && ms[j] == y;
                namespace::lemma_all_belong(ms, current, ms.len(), j);
                if namespace::admitted(ms, current, y.name) {
                    lemma_admitted_kind(ms, current, y.name);
                }
            }
        }
        let g = names::fold_generation(b)->0;
        if m.fold_gen != g {
            let k = choose|k: int|
                0 <= k < want.len() && chain::revision(all, #[trigger] want[k])->Ok_0.1.fold_gen
                    == g;
            let z = lemma_revision_member(ms, staged, m, json, k);
            assert(namespace::claims_retained(left[z].name));
        }
        assert(namespace::references(left, Some(m), g));
    }
}

/// What authority admits by name is a manifest or has a part's name.
proof fn lemma_admitted_kind(ms: Seq<MemberView>, current: Option<ManifestView>, name: Seq<char>)
    requires
        namespace::retained_fault(ms, ms.len()) is None,
        current matches Some(p) ==> manifest::manifest_fault(p) is None,
        namespace::admitted(ms, current, name),
    ensures
        name == "MANIFEST"@ || namespace::claims_retained(name) || names::part_ends(
            encode_utf8(name),
        ),
{
    lemma_claims_canonical(ms);
    if current is Some && namespace::names_part(current->0, name) {
        lemma_part_name(current->0, name);
    } else if !(current is Some && name == "MANIFEST"@) {
        let i = choose|i: int|
            0 <= i < ms.len() && namespace::claims_retained((#[trigger] ms[i]).name) && (ms[i].name
                == name || namespace::names_part(container::member_manifest(ms[i])->Ok_0, name));
        assert(ms.contains(ms[i]));
        if ms[i].name != name {
            lemma_part_name(container::member_manifest(ms[i])->Ok_0, name);
        }
    }
}

proof fn lemma_outside_left(
    ms: Seq<MemberView>,
    current: Option<ManifestView>,
    staged: Seq<MemberView>,
    m: ManifestView,
    json: Seq<u8>,
    n: nat,
)
    requires
        committing(ms, staged, m, json),
        namespace::namespace_fault(ms, current) is None,
        current matches Some(p) ==> manifest::manifest_fault(p) is None,
        forall|k: int|
            0 <= k < retained_after(chain::retained_commits(ms), m).len() ==> chain::revision(
                commit::committed(staged, m, json),
                #[trigger] retained_after(chain::retained_commits(ms), m)[k],
            ) is Ok,
        n <= after_commit(staged, m, json).len(),
    ensures
        namespace::outside(after_commit(staged, m, json), Some(m), n) is None,
    decreases n,
{
    if n > 0 {
        lemma_outside_left(ms, current, staged, m, json, (n - 1) as nat);
        lemma_belongs_left(ms, current, staged, m, json, n - 1);
    }
}

/// Every revision retained after a commit reads before the sweep.
proof fn lemma_revisions_read(
    c: ContainerView,
    staged: Seq<MemberView>,
    m: ManifestView,
    json: Seq<u8>,
    k: int,
)
    requires
        chain::chain_fault(c, false) is None,
        committing(c.members, staged, m, json),
        0 <= k < retained_after(chain::retained_commits(c.members), m).len(),
    ensures
        chain::revision(
            commit::committed(staged, m, json),
            retained_after(chain::retained_commits(c.members), m)[k],
        ) is Ok,
{
    let ms = c.members;
    let all = commit::committed(staged, m, json);
    let commits = chain::retained_commits(ms);
    let want = retained_after(commits, m);
    if k < want.len() - 1 {
        let h = k + dropped(commits);
        assert(want[k] == commits[h]);
        chain::lemma_links_each(
            ms,
            chain::authority_of(ms),
            commits,
            commits.len(),
            h,
            false,
        );
        lemma_old_revision(ms, staged, m, json, h);
    } else {
        let r = commit::manifest_member(text::chars(names::retained_name(m.commit)), m, json);
        lemma_after(ms, staged, m, json);
        lemma_committed(staged, m, json);
        assert(all.contains(r));
        lemma_held(all, r.name);
        lemma_sealed_reads(r.name, m, json);
    }
}

/// A commit keeps the chain. Where a container's revisions hold together, and the next revision
/// follows the current one and names only parts that are there, they still hold together after the
/// commit and its sweep: the new revision is current and retained, the window behind it is full at
/// most, and nothing that a retained revision needs was removed. The sweep is not refused.
pub proof fn lemma_commit_keeps_chain(
    c: ContainerView,
    staged: Seq<MemberView>,
    m: ManifestView,
    json: Seq<u8>,
    seq: u64,
)
    requires
        chain::chain_fault(c, false) is None,
        staged_for(c.members, staged, m),
        follows(c.members, m),
        manifest::sealed(json).len() <= manifest::MAX_MANIFEST_BYTES,
    ensures
        ({
            let left = after_commit(staged, m, json);
            let all = commit::committed(staged, m, json);
            let commits = chain::retained_commits(all);
            &&& commit::retained_fault(all, commits, commits.len()) is None
            &&& chain::chain_fault(ContainerView { seq, members: left }, false) is None
            &&& chain::authority_of(left) == Some(m)
            &&& chain::retained_commits(left) == retained_after(
                chain::retained_commits(c.members),
                m,
            )
            &&& chain::retained_commits(left).len() <= MANIFEST_RETAIN
            &&& container::names_ascending(left)
        }),
{
    let ms = c.members;
    let left = after_commit(staged, m, json);
    let all = commit::committed(staged, m, json);
    let commits = chain::retained_commits(ms);
    let want = retained_after(commits, m);
    let current = chain::authority_of(ms);
    lemma_claims_canonical(ms);
    lemma_windowed(c, m);
    lemma_after(ms, staged, m, json);
    lemma_new_revision(ms, staged, m, json);
    assert forall|k: int| 0 <= k < want.len() implies chain::revision(
        all,
        #[trigger] want[k],
    ) is Ok by {
        lemma_revisions_read(c, staged, m, json, k);
    }
    lemma_no_retained_fault(all, want, want.len());
    lemma_retained_left(ms, staged, m, json, left.len());
    lemma_outside_left(ms, current, staged, m, json, left.len());
    lemma_links_left(c, staged, m, json, want.len());
    assert(want.last() == m.commit);
    assert(commits.len() <= MANIFEST_RETAIN);
}

proof fn lemma_no_retained_fault(all: Seq<MemberView>, commits: Seq<u64>, n: nat)
    requires
        n <= commits.len(),
        forall|k: int|
            0 <= k < commits.len() ==> chain::revision(all, #[trigger] commits[k]) is Ok,
    ensures
        commit::retained_fault(all, commits, n) is None,
    decreases n,
{
    if n > 0 {
        lemma_no_retained_fault(all, commits, (n - 1) as nat);
        assert(chain::revision(all, commits[n - 1]) is Ok);
    }
}

} // verus!
