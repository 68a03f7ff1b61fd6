//! The exhaustive member namespace of one store.
//!
//! A store admits its current manifest, canonical retained manifests, the parts that current or
//! retained authority names, and exact fold members of a generation that authority references. An
//! unrecognized member is not an extension: it is another format, and fails closed.

use crate::bytes;
use crate::container;
use crate::container::{Container, Member, MemberView};
use crate::store::manifest::{Manifest, ManifestError, ManifestView};
use crate::store::names;
use vstd::prelude::*;
use vstd::utf8::*;

verus! {

/// Why a container is not a store's.
#[derive(Clone, Copy, Debug, PartialEq, Eq, Structural)]
pub enum NamespaceError {
    /// Nothing was committed, and yet there are members.
    OriginHasMembers,
    /// A retained manifest's name has no revision number.
    NoRevision { index: usize },
    /// A retained manifest's name is not the canonical one.
    NotCanonical { index: usize },
    /// A retained manifest is invalid.
    Invalid { index: usize, error: ManifestError },
    /// A retained manifest is another revision than its name says.
    WrongRevision { index: usize, found: u64 },
    /// A member no authority admits.
    Outside { index: usize },
}

/// A name that claims to be a retained manifest.
pub open spec fn claims_retained(name: Seq<char>) -> bool {
    bytes::starts_with(encode_utf8(name), encode_utf8("MANIFEST."@))
}

/// What follows `MANIFEST.`.
pub open spec fn revision_text(name: Seq<char>) -> Seq<u8> {
    encode_utf8(name).subrange(
        encode_utf8("MANIFEST."@).len() as int,
        encode_utf8(name).len() as int,
    )
}

/// What is wrong with one retained manifest.
pub open spec fn retained_member_fault(ms: Seq<MemberView>, i: int) -> Option<NamespaceError> {
    let m = ms[i];
    if !claims_retained(m.name) {
        None
    } else {
        match names::signed_u64(revision_text(m.name)) {
            None => Some(NamespaceError::NoRevision { index: i as usize }),
            Some(commit) => if encode_utf8(m.name) != names::retained_name(commit) {
                Some(NamespaceError::NotCanonical { index: i as usize })
            } else {
                match container::member_manifest(m) {
                    Err(error) => Some(NamespaceError::Invalid { index: i as usize, error }),
                    Ok(found) => if found.commit != commit {
                        Some(
                            NamespaceError::WrongRevision {
                                index: i as usize,
                                found: found.commit,
                            },
                        )
                    } else {
                        None
                    },
                }
            },
        }
    }
}

/// What is wrong first with the retained manifests among the first `n` members.
pub open spec fn retained_fault(ms: Seq<MemberView>, n: nat) -> Option<NamespaceError>
    decreases n,
{
    if n == 0 {
        None
    } else {
        match retained_fault(ms, (n - 1) as nat) {
            Some(e) => Some(e),
            None => retained_member_fault(ms, n - 1),
        }
    }
}

/// Whether a manifest names a part.
pub open spec fn names_part(m: ManifestView, name: Seq<char>) -> bool {
    exists|j: int| 0 <= j < m.parts.len() && (#[trigger] m.parts[j]).member == name
}

/// Whether authority admits a name on its own.
pub open spec fn admitted(ms: Seq<MemberView>, current: Option<ManifestView>, name: Seq<char>) -> bool {
    ||| current is Some && (name == "MANIFEST"@ || names_part(current->0, name))
    ||| exists|i: int|
        0 <= i < ms.len() && claims_retained((#[trigger] ms[i]).name) && (ms[i].name == name
            || names_part(container::member_manifest(ms[i])->Ok_0, name))
}

/// Whether authority references a fold generation.
pub open spec fn references(ms: Seq<MemberView>, current: Option<ManifestView>, generation: u32) -> bool {
    ||| current is Some && current->0.fold_gen == generation
    ||| exists|i: int|
        0 <= i < ms.len() && claims_retained((#[trigger] ms[i]).name)
            && container::member_manifest(ms[i])->Ok_0.fold_gen == generation
}

/// Whether a member belongs to the store.
pub open spec fn belongs(ms: Seq<MemberView>, current: Option<ManifestView>, i: int) -> bool {
    let b = encode_utf8(ms[i].name);
    ||| admitted(ms, current, ms[i].name)
    ||| names::fold_member(b) && references(ms, current, names::fold_generation(b)->0)
}

/// The first of the first `n` members that does not belong.
pub open spec fn outside(ms: Seq<MemberView>, current: Option<ManifestView>, n: nat) -> Option<
    NamespaceError,
>
    decreases n,
{
    if n == 0 {
        None
    } else {
        match outside(ms, current, (n - 1) as nat) {
            Some(e) => Some(e),
            None => if belongs(ms, current, n - 1) {
                None
            } else {
                Some(NamespaceError::Outside { index: (n - 1) as usize })
            },
        }
    }
}

/// What is wrong first with a store's members.
pub open spec fn namespace_fault(ms: Seq<MemberView>, current: Option<ManifestView>) -> Option<
    NamespaceError,
> {
    if current is None && ms.len() > 0 {
        Some(NamespaceError::OriginHasMembers)
    } else if retained_fault(ms, ms.len()) is Some {
        retained_fault(ms, ms.len())
    } else {
        outside(ms, current, ms.len())
    }
}

/// View of optional authority.
pub open spec fn authority_view(m: Option<&Manifest>) -> Option<ManifestView> {
    match m {
        Some(m) => Some(m@),
        None => None,
    }
}

pub proof fn lemma_retained_fault_prefix(ms: Seq<MemberView>, k: nat, n: nat)
    requires
        k <= n,
        retained_fault(ms, k) is Some,
    ensures
        retained_fault(ms, n) == retained_fault(ms, k),
    decreases n,
{
    if k < n {
        lemma_retained_fault_prefix(ms, k, (n - 1) as nat);
    }
}

/// Without a fault each retained manifest is valid and has the revision of its name.
pub proof fn lemma_retained_each(ms: Seq<MemberView>, n: nat, i: int)
    requires
        retained_fault(ms, n) is None,
        0 <= i < n,
    ensures
        retained_member_fault(ms, i) is None,
    decreases n,
{
    if i < n - 1 {
        lemma_retained_each(ms, (n - 1) as nat, i);
    }
}

proof fn lemma_outside_prefix(ms: Seq<MemberView>, current: Option<ManifestView>, k: nat, n: nat)
    requires
        k <= n,
        outside(ms, current, k) is Some,
    ensures
        outside(ms, current, n) == outside(ms, current, k),
    decreases n,
{
    if k < n {
        lemma_outside_prefix(ms, current, k, (n - 1) as nat);
    }
}

/// In a store without a fault every member belongs.
pub proof fn lemma_all_belong(ms: Seq<MemberView>, current: Option<ManifestView>, n: nat, i: int)
    requires
        outside(ms, current, n) is None,
        0 <= i < n,
    ensures
        belongs(ms, current, i),
    decreases n,
{
    if i < n - 1 {
        lemma_all_belong(ms, current, (n - 1) as nat, i);
    }
}

/// Whether a manifest names a part.
pub fn manifest_names(m: &Manifest, name: &str) -> (r: bool)
    ensures
        r == names_part(m@, name@),
{
    let mut j: usize = 0;
    while j < m.parts.len()
        invariant
            j <= m.parts@.len(),
            forall|k: int| 0 <= k < j ==> (#[trigger] m@.parts[k]).member != name@,
        decreases m.parts.len() - j,
    {
        assert(m@.parts[j as int] == m.parts@[j as int]@);
        if bytes::str_eq(m.parts[j].member.as_str(), name) {
            return true;
        }
        j = j + 1;
    }
    false
}

fn check_retained(members: &Vec<Member>, i: usize) -> (r: Result<Option<Manifest>, NamespaceError>)
    requires
        i < members@.len(),
    ensures
        ({
            let ms = container::members_view(members@);
            match r {
                Err(e) => retained_member_fault(ms, i as int) == Some(e),
                Ok(None) => !claims_retained(ms[i as int].name) && retained_member_fault(
                    ms,
                    i as int,
                ) is None,
                Ok(Some(m)) => claims_retained(ms[i as int].name) && retained_member_fault(
                    ms,
                    i as int,
                ) is None && container::member_manifest(ms[i as int]) == Ok::<
                    ManifestView,
                    ManifestError,
                >(m@),
            }
        }),
{
    let m = &members[i];
    assert(container::members_view(members@)[i as int] == m@);
    let name = m.name.as_str().as_bytes();
    let suffix = match bytes::strip_prefix(name, "MANIFEST.".as_bytes()) {
        Some(suffix) => suffix,
        None => {
            return Ok(None);
        },
    };
    let commit: u64 = match names::parse_signed(suffix) {
        Some(commit) => commit,
        None => {
            return Err(NamespaceError::NoRevision { index: i });
        },
    };
    let canonical = names::retained_member(commit);
    if !bytes::bytes_eq(name, canonical.as_str().as_bytes()) {
        return Err(NamespaceError::NotCanonical { index: i });
    }
    match m.parse_manifest() {
        Err(error) => Err(NamespaceError::Invalid { index: i, error }),
        Ok(found) => {
            if found.commit != commit {
                return Err(NamespaceError::WrongRevision { index: i, found: found.commit });
            }
            Ok(Some(found))
        },
    }
}

/// The retained manifests collected so far are those of the members they came from.
spec fn collected(
    ms: Seq<MemberView>,
    retained: Seq<Manifest>,
    at: Seq<int>,
    n: int,
) -> bool {
    &&& at.len() == retained.len()
    &&& forall|k: int|
        0 <= k < at.len() ==> 0 <= #[trigger] at[k] < n && claims_retained(ms[at[k]].name)
            && container::member_manifest(ms[at[k]]) == Ok::<ManifestView, ManifestError>(
            retained[k]@,
        )
    &&& forall|i: int|
        0 <= i < n && claims_retained((#[trigger] ms[i]).name) ==> exists|k: int|
            0 <= k < at.len() && #[trigger] at[k] == i
}

fn name_admitted(
    members: &Vec<Member>,
    current: Option<&Manifest>,
    retained: &Vec<Manifest>,
    Ghost(at): Ghost<Seq<int>>,
    i: usize,
) -> (r: bool)
    requires
        i < members@.len(),
        collected(
            container::members_view(members@),
            retained@,
            at,
            members@.len() as int,
        ),
    ensures
        r == admitted(
            container::members_view(members@),
            authority_view(current),
            container::members_view(members@)[i as int].name,
        ),
{
    let ghost ms = container::members_view(members@);
    let name = members[i].name.as_str();
    assert(ms[i as int].name == name@);
    if let Some(m) = current {
        if bytes::str_eq(name, "MANIFEST") || manifest_names(m, name) {
            return true;
        }
    }
    let claims = bytes::strip_prefix(name.as_bytes(), "MANIFEST.".as_bytes()).is_some();
    if claims {
        assert(claims_retained(ms[i as int].name));
        return true;
    }
    let mut k: usize = 0;
    while k < retained.len()
        invariant
            ms == container::members_view(members@),
            i < members@.len(),
            name@ == ms[i as int].name,
            collected(ms, retained@, at, ms.len() as int),
            k <= retained@.len(),
            forall|j: int| 0 <= j < k ==> !names_part((#[trigger] retained@[j])@, name@),
        decreases retained.len() - k,
    {
        if manifest_names(&retained[k], name) {
            proof {
                let j = at[k as int];
                assert(claims_retained(ms[j].name));
                assert(names_part(container::member_manifest(ms[j])->Ok_0, name@));
            }
            return true;
        }
        k = k + 1;
    }
    proof {
        assert forall|j: int|
            0 <= j < ms.len() && claims_retained((#[trigger] ms[j]).name) implies !(ms[j].name
            == name@ || names_part(container::member_manifest(ms[j])->Ok_0, name@)) by {
            let q = choose|q: int| 0 <= q < at.len() && #[trigger] at[q] == j;
            assert(!names_part(retained@[q]@, name@));
        }
    }
    false
}

fn generation_referenced(
    members: &Vec<Member>,
    current: Option<&Manifest>,
    retained: &Vec<Manifest>,
    Ghost(at): Ghost<Seq<int>>,
    generation: u32,
) -> (r: bool)
    requires
        collected(
            container::members_view(members@),
            retained@,
            at,
            members@.len() as int,
        ),
    ensures
        r == references(
            container::members_view(members@),
            authority_view(current),
            generation,
        ),
{
    let ghost ms = container::members_view(members@);
    if let Some(m) = current {
        if m.fold_gen == generation {
            return true;
        }
    }
    let mut k: usize = 0;
    while k < retained.len()
        invariant
            ms == container::members_view(members@),
            collected(ms, retained@, at, ms.len() as int),
            k <= retained@.len(),
            forall|j: int| 0 <= j < k ==> (#[trigger] retained@[j])@.fold_gen != generation,
        decreases retained.len() - k,
    {
        if retained[k].fold_gen == generation {
            proof {
                let j = at[k as int];
                assert(claims_retained(ms[j].name));
            }
            return true;
        }
        k = k + 1;
    }
    proof {
        assert forall|j: int|
            0 <= j < ms.len() && claims_retained(
                (#[trigger] ms[j]).name,
            ) implies container::member_manifest(ms[j])->Ok_0.fold_gen != generation by {
            let q = choose|q: int| 0 <= q < at.len() && #[trigger] at[q] == j;
            assert(retained@[q]@.fold_gen != generation);
        }
    }
    false
}

fn member_belongs(
    members: &Vec<Member>,
    current: Option<&Manifest>,
    retained: &Vec<Manifest>,
    Ghost(at): Ghost<Seq<int>>,
    i: usize,
) -> (r: bool)
    requires
        i < members@.len(),
        collected(
            container::members_view(members@),
            retained@,
            at,
            members@.len() as int,
        ),
    ensures
        r == belongs(
            container::members_view(members@),
            authority_view(current),
            i as int,
        ),
{
    if name_admitted(members, current, retained, Ghost(at), i) {
        return true;
    }
    let name = members[i].name.as_str().as_bytes();
    assert(container::members_view(members@)[i as int] == members@[i as int]@);
    match (names::fold_generation_of_member(name), names::member_file(name)) {
        (Some(g), Some(file)) => names::is_fold_file(file) && generation_referenced(
            members,
            current,
            retained,
            Ghost(at),
            g,
        ),
        _ => false,
    }
}

proof fn lemma_collect(
    ms: Seq<MemberView>,
    retained: Seq<Manifest>,
    at: Seq<int>,
    i: int,
    m: Manifest,
)
    requires
        0 <= i < ms.len(),
        collected(ms, retained, at, i),
        claims_retained(ms[i].name),
        container::member_manifest(ms[i]) == Ok::<ManifestView, ManifestError>(m@),
    ensures
        collected(ms, retained.push(m), at.push(i), i + 1),
{
    let more = at.push(i);
    assert forall|j: int| 0 <= j < i + 1 && claims_retained(
        (#[trigger] ms[j]).name,
    ) implies exists|k: int| 0 <= k < more.len() && #[trigger] more[k] == j by {
        if j == i {
            assert(more[at.len() as int] == j);
        } else {
            let k = choose|k: int| 0 <= k < at.len() && #[trigger] at[k] == j;
            assert(more[k] == j);
        }
    }
}

/// The retained manifests of a container, each valid and under its canonical name.
fn collect_retained(members: &Vec<Member>) -> (r: Result<
    (Vec<Manifest>, Ghost<Seq<int>>),
    NamespaceError,
>)
    ensures
        ({
            let ms = container::members_view(members@);
            match r {
                Ok((retained, at)) => retained_fault(ms, ms.len()) is None && collected(
                    ms,
                    retained@,
                    at@,
                    ms.len() as int,
                ),
                Err(e) => retained_fault(ms, ms.len()) == Some(e),
            }
        }),
{
    let ghost ms = container::members_view(members@);
    let mut retained: Vec<Manifest> = Vec::new();
    let ghost mut at: Seq<int> = Seq::empty();
    let mut i: usize = 0;
    while i < members.len()
        invariant
            ms == container::members_view(members@),
            i <= members@.len(),
            retained_fault(ms, i as nat) is None,
            collected(ms, retained@, at, i as int),
        decreases members.len() - i,
    {
        match check_retained(members, i) {
            Err(e) => {
                proof {
                    lemma_retained_fault_prefix(ms, (i + 1) as nat, ms.len());
                }
                return Err(e);
            },
            Ok(Some(m)) => {
                proof {
                    lemma_collect(ms, retained@, at, i as int, m);
                    at = at.push(i as int);
                }
                retained.push(m);
            },
            Ok(None) => {},
        }
        i = i + 1;
    }
    Ok((retained, Ghost(at)))
}

/// Refuse a container that holds anything but this store's members.
pub fn validate_store_member_namespace(c: &Container, current: Option<&Manifest>) -> (r: Result<
    (),
    NamespaceError,
>)
    ensures
        match r {
            Ok(()) => namespace_fault(c@.members, authority_view(current)) is None,
            Err(e) => namespace_fault(c@.members, authority_view(current)) == Some(e),
        },
{
    let members = &c.members;
    let ghost ms = container::members_view(members@);
    if current.is_none() && members.len() > 0 {
        return Err(NamespaceError::OriginHasMembers);
    }
    let (retained, at) = match collect_retained(members) {
        Ok(found) => found,
        Err(e) => {
            return Err(e);
        },
    };
    let mut i: usize = 0;
    while i < members.len()
        invariant
            ms == container::members_view(members@),
            ms == c@.members,
            i <= members@.len(),
            retained_fault(ms, ms.len()) is None,
            collected(ms, retained@, at@, ms.len() as int),
            outside(ms, authority_view(current), i as nat) is None,
            !(authority_view(current) is None && ms.len() > 0),
        decreases members.len() - i,
    {
        let ok = member_belongs(members, current, &retained, at, i);
        i = i + 1;
        if !ok {
            proof {
                lemma_outside_prefix(ms, authority_view(current), i as nat, ms.len());
            }
            return Err(NamespaceError::Outside { index: i - 1 });
        }
    }
    Ok(())
}

/// A name some store could hold, whatever its authority says.
pub open spec fn possible_name(name: Seq<char>) -> bool {
    let b = encode_utf8(name);
    ||| name == "MANIFEST"@
    ||| names::retained_shape(b)
    ||| names::part_shape(b)
    ||| names::fold_member(b)
}

/// The first of the first `n` members whose name no store could hold.
pub open spec fn impossible(ms: Seq<MemberView>, n: nat) -> Option<NamespaceError>
    decreases n,
{
    if n == 0 {
        None
    } else {
        match impossible(ms, (n - 1) as nat) {
            Some(e) => Some(e),
            None => if possible_name(ms[n - 1].name) {
                None
            } else {
                Some(NamespaceError::Outside { index: (n - 1) as usize })
            },
        }
    }
}

proof fn lemma_impossible_prefix(ms: Seq<MemberView>, k: nat, n: nat)
    requires
        k <= n,
        impossible(ms, k) is Some,
    ensures
        impossible(ms, n) == impossible(ms, k),
    decreases n,
{
    if k < n {
        lemma_impossible_prefix(ms, k, (n - 1) as nat);
    }
}

/// Refuse a container that holds a name no store could hold. Promotion checks this much before it
/// trusts any manifest.
pub fn validate_manifest_promotion_member_namespace(c: &Container) -> (r: Result<
    (),
    NamespaceError,
>)
    ensures
        match r {
            Ok(()) => impossible(c@.members, c@.members.len()) is None,
            Err(e) => impossible(c@.members, c@.members.len()) == Some(e),
        },
{
    let ghost ms = c@.members;
    let mut i: usize = 0;
    while i < c.members.len()
        invariant
            ms == c@.members,
            i <= c.members@.len(),
            impossible(ms, i as nat) is None,
        decreases c.members.len() - i,
    {
        let name = c.members[i].name.as_str();
        assert(ms[i as int].name == name@);
        let ok = bytes::str_eq(name, "MANIFEST") || names::is_retained_name(name.as_bytes())
            || names::canonical_part_member_shape(name) || names::exact_fold_member_name(name);
        i = i + 1;
        if !ok {
            proof {
                lemma_impossible_prefix(ms, i as nat, ms.len());
            }
            return Err(NamespaceError::Outside { index: i - 1 });
        }
    }
    Ok(())
}

} // verus!
