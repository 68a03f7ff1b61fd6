//! The retained chain: manifest revisions linked by digest, and the parts they pin.

use crate::bytes;
use crate::container;
use crate::container::{Container, ContainerView, MemberView};
use crate::hash;
use crate::part;
use crate::part::{Part, PartError, PartView};
use crate::store::audit;
use crate::store::manifest;
use crate::store::manifest::{Manifest, ManifestError, ManifestView, PartRef, PartRefView, MANIFEST_RETAIN};
use crate::store::names;
use crate::store::namespace;
use crate::store::namespace::NamespaceError;
use crate::store::retention_laws;
use crate::text;
use vstd::prelude::*;
use vstd::utf8::*;

verus! {

// ---------------------------------------------------------------------------------------------
// Retained revisions.
// ---------------------------------------------------------------------------------------------
/// A sorted list with one more number.
pub open spec fn inserted(s: Seq<u64>, c: u64) -> Seq<u64>
    decreases s.len(),
{
    if s.len() == 0 || s.last() <= c {
        s.push(c)
    } else {
        inserted(s.drop_last(), c).push(s.last())
    }
}

/// The revisions that the first `n` members retain, ascending.
pub open spec fn retained_among(ms: Seq<MemberView>, n: nat) -> Seq<u64>
    decreases n,
{
    if n == 0 {
        Seq::empty()
    } else {
        match names::retained_commit(encode_utf8(ms[n - 1].name)) {
            Some(c) => inserted(retained_among(ms, (n - 1) as nat), c),
            None => retained_among(ms, (n - 1) as nat),
        }
    }
}

/// The revisions a container retains, ascending.
pub open spec fn retained_commits(ms: Seq<MemberView>) -> Seq<u64> {
    retained_among(ms, ms.len())
}

/// A sorted list stays sorted, and gains the number and nothing else.
pub proof fn lemma_inserted(s: Seq<u64>, c: u64)
    requires
        forall|i: int, j: int| 0 <= i < j < s.len() ==> s[i] <= s[j],
    ensures
        inserted(s, c).len() == s.len() + 1,
        forall|i: int, j: int|
            0 <= i < j < inserted(s, c).len() ==> inserted(s, c)[i] <= inserted(s, c)[j],
        forall|x: u64| #[trigger] inserted(s, c).contains(x) <==> x == c || s.contains(x),
        forall|i: int| 0 <= i < inserted(s, c).len() ==> inserted(s, c)[i] <= c || (s.len() > 0
            && inserted(s, c)[i] <= s.last()),
    decreases s.len(),
{
    let r = inserted(s, c);
    if s.len() == 0 || s.last() <= c {
        assert forall|x: u64| #[trigger] r.contains(x) <==> x == c || s.contains(x) by {
            if s.contains(x) {
                let i = choose|i: int| 0 <= i < s.len() && s[i] == x;
                assert(r[i] == x);
            }
            if x == c {
                assert(r[s.len() as int] == x);
            }
        }
        if s.len() > 0 {
            assert forall|i: int| 0 <= i < s.len() implies s[i] <= s.last() by {
                if i < s.len() - 1 {
                    assert(s[i] <= s[s.len() - 1]);
                }
            }
        }
    } else {
        let front = s.drop_last();
        let f = inserted(front, c);
        assert forall|i: int, j: int| 0 <= i < j < front.len() implies front[i] <= front[j] by {
            assert(s[i] <= s[j]);
        }
        lemma_inserted(front, c);
        assert forall|i: int| 0 <= i < f.len() implies f[i] <= s.last() by {
            if front.len() > 0 {
                assert(s[s.len() - 2] <= s[s.len() - 1]);
            }
        }
        assert forall|x: u64| #[trigger] r.contains(x) <==> x == c || s.contains(x) by {
            if r.contains(x) {
                let i = choose|i: int| 0 <= i < r.len() && r[i] == x;
                if i < f.len() {
                    assert(f[i] == x);
                    assert(f.contains(x));
                    if front.contains(x) {
                        let k = choose|k: int| 0 <= k < front.len() && front[k] == x;
                        assert(s[k] == x);
                    }
                } else {
                    assert(s[s.len() - 1] == x);
                }
            }
            if s.contains(x) {
                let k = choose|k: int| 0 <= k < s.len() && s[k] == x;
                if k < front.len() {
                    assert(front[k] == x);
                    assert(f.contains(x));
                    let i = choose|i: int| 0 <= i < f.len() && f[i] == x;
                    assert(r[i] == x);
                } else {
                    assert(r[f.len() as int] == x);
                }
            }
            if x == c {
                assert(f.contains(x));
                let i = choose|i: int| 0 <= i < f.len() && f[i] == x;
                assert(r[i] == x);
            }
        }
    }
}

/// The retained revisions ascend, and each comes from a member.
pub proof fn lemma_retained_among(ms: Seq<MemberView>, n: nat)
    requires
        n <= ms.len(),
    ensures
        retained_among(ms, n).len() <= n,
        forall|i: int, j: int|
            0 <= i < j < retained_among(ms, n).len() ==> retained_among(ms, n)[i]
                <= retained_among(ms, n)[j],
        forall|c: u64|
            #[trigger] retained_among(ms, n).contains(c) <==> exists|i: int|
                0 <= i < n && names::retained_commit(encode_utf8((#[trigger] ms[i]).name)) == Some(
                    c,
                ),
    decreases n,
{
    if n > 0 {
        lemma_retained_among(ms, (n - 1) as nat);
        let before = retained_among(ms, (n - 1) as nat);
        let here = names::retained_commit(encode_utf8(ms[n - 1].name));
        if here is Some {
            lemma_inserted(before, here->0);
        }
        assert forall|c: u64| #[trigger] retained_among(ms, n).contains(c) <==> exists|i: int|
            0 <= i < n && names::retained_commit(encode_utf8((#[trigger] ms[i]).name)) == Some(
                c,
            ) by {
            if before.contains(c) {
                let i = choose|i: int|
                    0 <= i < n - 1 && names::retained_commit(
                        encode_utf8((#[trigger] ms[i]).name),
                    ) == Some(c);
                assert(0 <= i < n);
            }
            if here == Some(c) {
                assert(names::retained_commit(encode_utf8(ms[n - 1].name)) == Some(c));
            }
            if exists|i: int|
                0 <= i < n && names::retained_commit(encode_utf8((#[trigger] ms[i]).name)) == Some(
                    c,
                ) {
                let i = choose|i: int|
                    0 <= i < n && names::retained_commit(encode_utf8((#[trigger] ms[i]).name))
                        == Some(c);
                if i < n - 1 {
                    assert(before.contains(c));
                }
            }
        }
    }
}

pub(crate) fn insert_sorted(v: &mut Vec<u64>, c: u64)
    ensures
        final(v)@ == inserted(old(v)@, c),
{
    let mut i: usize = v.len();
    let ghost s = v@;
    assert(s.take(i as int) =~= s);
    while i > 0 && v[i - 1] > c
        invariant
            v@ == s,
            i <= s.len(),
            inserted(s, c) == inserted(s.take(i as int), c) + s.skip(i as int),
        decreases i,
    {
        proof {
            let t = s.take(i as int);
            assert(t.drop_last() =~= s.take(i - 1));
            assert(t.last() == s[i - 1]);
            assert(inserted(s.take(i - 1), c).push(s[i - 1]) + s.skip(i as int) =~= inserted(
                s.take(i - 1),
                c,
            ) + s.skip(i - 1));
        }
        i = i - 1;
    }
    proof {
        let t = s.take(i as int);
        if i > 0 {
            assert(t.last() == s[i - 1]);
        }
        assert(t.push(c) + s.skip(i as int) =~= s.insert(i as int, c));
    }
    v.insert(i, c);
}

/// The revisions a container retains, ascending.
pub fn container_retained_commits(c: &Container) -> (r: Vec<u64>)
    ensures
        r@ == retained_commits(c@.members),
{
    let ghost ms = c@.members;
    let mut out: Vec<u64> = Vec::new();
    let mut i: usize = 0;
    while i < c.members.len()
        invariant
            ms == c@.members,
            i <= c.members@.len(),
            out@ == retained_among(ms, i as nat),
        decreases c.members.len() - i,
    {
        assert(ms[i as int] == c.members@[i as int]@);
        if let Some(commit) = names::parse_retained(c.members[i].name.as_str().as_bytes()) {
            insert_sorted(&mut out, commit);
        }
        i = i + 1;
    }
    out
}

// ---------------------------------------------------------------------------------------------
// Pinned parts.
// ---------------------------------------------------------------------------------------------
/// Why a part that a manifest names is not the part it pinned.
#[derive(Clone, Copy, Debug, PartialEq, Eq, Structural)]
pub enum PinFault {
    /// The container does not hold it.
    Absent,
    /// Its bytes are not the pinned ones.
    Drifted,
    /// It does not decode.
    Unreadable,
    /// It has another range or number of rows than the manifest says.
    Metadata,
    /// Its rows are out of order.
    Rows { error: PartError },
}

/// Whether a part is what a reference says of it.
pub open spec fn metadata_agrees(p: PartView, r: PartRefView) -> bool {
    p.rows.len() == r.records && p.seq_lo == r.seq_lo && p.seq_hi == r.seq_hi
}

/// The part a reference opens.
pub open spec fn opened(ms: Seq<MemberView>, r: PartRefView) -> Result<PartView, PinFault> {
    match container::position_of(ms, r.member) {
        None => Err(PinFault::Absent),
        Some(i) => match ms[i].part {
            None => Err(PinFault::Unreadable),
            Some(p) => if !metadata_agrees(p, r) {
                Err(PinFault::Metadata)
            } else if part::rows_fault(p.rows, p.rows.len()) is Some {
                Err(PinFault::Rows { error: part::rows_fault(p.rows, p.rows.len())->0 })
            } else {
                Ok(p)
            },
        },
    }
}

/// What is wrong with one pinned part. Without deep checks its presence is enough; a part that an
/// earlier revision named was opened there.
pub open spec fn pin_fault(ms: Seq<MemberView>, r: PartRefView, deep: bool, seen: bool) -> Option<
    PinFault,
> {
    match container::position_of(ms, r.member) {
        None => Some(PinFault::Absent),
        Some(i) => if !deep {
            None
        } else if encode_utf8(r.b3) != manifest::link(ms[i].bytes) {
            Some(PinFault::Drifted)
        } else if seen {
            None
        } else {
            match opened(ms, r) {
                Ok(p) => None,
                Err(e) => Some(e),
            }
        },
    }
}

/// Open the part a reference names.
pub fn open_manifest_part<'a>(c: &'a Container, r: &PartRef) -> (res: Result<&'a Part, PinFault>)
    ensures
        opened(c@.members, r@) == (match res {
            Ok(p) => Ok::<PartView, PinFault>(p@),
            Err(e) => Err(e),
        }),
        res matches Ok(p) ==> part::part_sound(p@),
{
    proof {
        container::lemma_position_from(c@.members, r.member@, 0);
    }
    let i: usize = match c.find(r.member.as_str()) {
        Some(i) => i,
        None => {
            return Err(PinFault::Absent);
        },
    };
    assert(c@.members[i as int] == c.members@[i as int]@);
    match &c.members[i].part {
        None => Err(PinFault::Unreadable),
        Some(p) => {
            if p.rows.len() as u64 != r.records as u64 || p.seq_lo != r.seq_lo || p.seq_hi
                != r.seq_hi {
                return Err(PinFault::Metadata);
            }
            match p.verify_semantics() {
                Ok(()) => Ok(p),
                Err(error) => Err(PinFault::Rows { error }),
            }
        },
    }
}

/// Check one pinned part.
pub fn check_pin(c: &Container, r: &PartRef, deep: bool, seen: bool) -> (res: Option<PinFault>)
    ensures
        res == pin_fault(c@.members, r@, deep, seen),
{
    proof {
        container::lemma_position_from(c@.members, r.member@, 0);
    }
    let i: usize = match c.find(r.member.as_str()) {
        Some(i) => i,
        None => {
            return Some(PinFault::Absent);
        },
    };
    assert(c@.members[i as int] == c.members@[i as int]@);
    if !deep {
        return None;
    }
    let digest = hash::blake3_hash(c.members[i].bytes.as_slice());
    let hex = text::hex_bytes(digest.as_slice());
    if !bytes::bytes_eq(r.b3.as_str().as_bytes(), hex.as_slice()) {
        return Some(PinFault::Drifted);
    }
    if seen {
        return None;
    }
    match open_manifest_part(c, r) {
        Ok(p) => None,
        Err(e) => Some(e),
    }
}

// ---------------------------------------------------------------------------------------------
// The chain.
// ---------------------------------------------------------------------------------------------
/// What a chain verification checked.
#[derive(Clone, Copy, Debug, PartialEq, Eq, Structural)]
pub struct ChainReport {
    /// Retained manifests checked.
    pub retained_manifests: usize,
    /// Links verified, the equality of the newest retained revision and the current one included.
    pub links: usize,
    /// Part digests verified, over every retained revision.
    pub part_digests: usize,
}

/// Why a retained chain does not hold.
#[allow(inconsistent_fields)]
#[derive(Clone, Copy, Debug, PartialEq, Eq, Structural)]
pub enum ChainError {
    /// The current manifest is invalid.
    Current { error: ManifestError },
    /// A member is not the store's.
    Namespace { error: NamespaceError },
    /// More revisions are retained than the window has.
    TooManyRetained { count: usize },
    /// A retained revision is not there under its name.
    Lost { commit: u64 },
    /// A retained revision is invalid.
    Retained { commit: u64, error: ManifestError },
    /// A retained revision is another than its name says.
    WrongRevision { commit: u64, found: u64 },
    /// A retained revision references another fold generation than the current one.
    Generation { commit: u64 },
    /// A revision is missing before this one.
    Gap { commit: u64 },
    /// The sequence cursor moves backward.
    CursorBackward { commit: u64 },
    /// The fold's end moves backward.
    TailBackward { commit: u64 },
    /// A revision does not name its predecessor's bytes.
    Broken { commit: u64 },
    /// A part is not the one a revision pinned.
    Part { commit: u64, index: usize, fault: PinFault },
    /// The current manifest is not the newest retained one: in its bytes, or in what they decode to.
    Diverges { commit: u64 },
    /// A committed container has no manifest.
    NoAuthority { seq: u64 },
}

/// The bytes of a retained revision and the manifest they hold.
pub open spec fn revision(ms: Seq<MemberView>, commit: u64) -> Result<
    (Seq<u8>, ManifestView),
    ChainError,
> {
    match container::position_of(ms, text::chars(names::retained_name(commit))) {
        None => Err(ChainError::Lost { commit }),
        Some(i) => match container::member_manifest(ms[i]) {
            Err(error) => Err(ChainError::Retained { commit, error }),
            Ok(m) => Ok((ms[i].bytes, m)),
        },
    }
}

/// Whether one fold ends before another.
pub open spec fn tail_before(a: ManifestView, b: ManifestView) -> bool {
    a.fold_seg < b.fold_seg || (a.fold_seg == b.fold_seg && a.fold_off < b.fold_off)
}

/// What is wrong between a revision and the one before it.
pub open spec fn step_fault(
    commit: u64,
    m: ManifestView,
    previous: Option<(u64, Seq<u8>, ManifestView)>,
) -> Option<ChainError> {
    match previous {
        None => None,
        Some((before, bytes, p)) => if commit != before + 1 {
            Some(ChainError::Gap { commit })
        } else if m.next_seq < p.next_seq {
            Some(ChainError::CursorBackward { commit })
        } else if tail_before(m, p) {
            Some(ChainError::TailBackward { commit })
        } else if m.prev is None || encode_utf8(m.prev->0) != manifest::link(bytes) {
            Some(ChainError::Broken { commit })
        } else {
            None
        },
    }
}

/// Whether one of the first `n` revisions names a part.
pub open spec fn named_before(
    ms: Seq<MemberView>,
    commits: Seq<u64>,
    n: int,
    name: Seq<char>,
) -> bool {
    exists|k: int|
        0 <= k < n && namespace::names_part(revision(ms, #[trigger] commits[k])->Ok_0.1, name)
}

/// What is wrong first with the first `n` parts of a revision.
pub open spec fn pins_fault(
    ms: Seq<MemberView>,
    commits: Seq<u64>,
    i: int,
    m: ManifestView,
    deep: bool,
    n: nat,
) -> Option<ChainError>
    decreases n,
{
    if n == 0 {
        None
    } else {
        match pins_fault(ms, commits, i, m, deep, (n - 1) as nat) {
            Some(e) => Some(e),
            None => {
                let r = m.parts[n - 1];
                match pin_fault(ms, r, deep, named_before(ms, commits, i, r.member)) {
                    Some(fault) => Some(
                        ChainError::Part { commit: m.commit, index: (n - 1) as usize, fault },
                    ),
                    None => None,
                }
            },
        }
    }
}

/// What is wrong with the revision at `i`, given that those before it hold.
pub open spec fn link_fault(
    ms: Seq<MemberView>,
    current: Option<ManifestView>,
    commits: Seq<u64>,
    i: int,
    deep: bool,
) -> Option<ChainError> {
    let commit = commits[i];
    match revision(ms, commit) {
        Err(e) => Some(e),
        Ok((bytes, m)) => if m.commit != commit {
            Some(ChainError::WrongRevision { commit, found: m.commit })
        } else if current is Some && m.fold_gen != current->0.fold_gen {
            Some(ChainError::Generation { commit })
        } else {
            let previous = if i == 0 {
                None
            } else {
                let (b, p) = revision(ms, commits[i - 1])->Ok_0;
                Some((commits[i - 1], b, p))
            };
            match step_fault(commit, m, previous) {
                Some(e) => Some(e),
                None => pins_fault(ms, commits, i, m, deep, m.parts.len()),
            }
        },
    }
}

/// What is wrong first with the first `n` revisions.
pub open spec fn links_fault(
    ms: Seq<MemberView>,
    current: Option<ManifestView>,
    commits: Seq<u64>,
    n: nat,
    deep: bool,
) -> Option<ChainError>
    decreases n,
{
    if n == 0 {
        None
    } else {
        match links_fault(ms, current, commits, (n - 1) as nat, deep) {
            Some(e) => Some(e),
            None => link_fault(ms, current, commits, n - 1, deep),
        }
    }
}

/// The current manifest of a container, where it has one.
pub open spec fn current_of(ms: Seq<MemberView>) -> Option<Result<ManifestView, ManifestError>> {
    match container::position_of(ms, "MANIFEST"@) {
        None => None,
        Some(i) => Some(container::member_manifest(ms[i])),
    }
}

/// The valid current manifest of a container, where it has one.
pub open spec fn authority_of(ms: Seq<MemberView>) -> Option<ManifestView> {
    match current_of(ms) {
        Some(Ok(m)) => Some(m),
        _ => None,
    }
}

/// What is wrong first with a container's chain.
pub open spec fn chain_fault(c: ContainerView, deep: bool) -> Option<ChainError> {
    let ms = c.members;
    let commits = retained_commits(ms);
    let current = authority_of(ms);
    match current_of(ms) {
        Some(Err(error)) => Some(ChainError::Current { error }),
        _ => match namespace::namespace_fault(ms, current) {
            Some(error) => Some(ChainError::Namespace { error }),
            None => if commits.len() > MANIFEST_RETAIN {
                Some(ChainError::TooManyRetained { count: commits.len() as usize })
            } else if links_fault(ms, current, commits, commits.len(), deep) is Some {
                links_fault(ms, current, commits, commits.len(), deep)
            } else if commits.len() > 0 {
                let (bytes, newest) = revision(ms, commits.last())->Ok_0;
                if ms[container::position_of(ms, "MANIFEST"@)->0].bytes != bytes || current != Some(
                    newest,
                ) {
                    Some(ChainError::Diverges { commit: commits.last() })
                } else {
                    None
                }
            } else {
                match current {
                    Some(m) => pins_fault(ms, commits, 0, m, deep, m.parts.len()),
                    None => if container::empty_birth(c) {
                        None
                    } else {
                        Some(ChainError::NoAuthority { seq: c.seq })
                    },
                }
            },
        },
    }
}

/// How many parts the first `n` revisions pin.
pub open spec fn pins_total(ms: Seq<MemberView>, commits: Seq<u64>, n: nat) -> nat
    decreases n,
{
    if n == 0 {
        0
    } else {
        pins_total(ms, commits, (n - 1) as nat) + revision(
            ms,
            commits[n - 1],
        )->Ok_0.1.parts.len()
    }
}

/// The number of digests a chain verification checks.
pub open spec fn digests_total(c: ContainerView, deep: bool) -> nat {
    let commits = retained_commits(c.members);
    if !deep {
        0
    } else if commits.len() > 0 {
        pins_total(c.members, commits, commits.len())
    } else {
        match authority_of(c.members) {
            Some(m) => m.parts.len(),
            None => 0,
        }
    }
}

/// What a verification of a sound chain reports.
pub open spec fn chain_report(c: ContainerView, deep: bool) -> ChainReport {
    let commits = retained_commits(c.members);
    ChainReport {
        retained_manifests: commits.len() as usize,
        links: commits.len() as usize,
        part_digests: audit::fit(digests_total(c, deep)),
    }
}

proof fn lemma_links_fault_prefix(
    ms: Seq<MemberView>,
    current: Option<ManifestView>,
    commits: Seq<u64>,
    k: nat,
    n: nat,
    deep: bool,
)
    requires
        k <= n,
        links_fault(ms, current, commits, k, deep) is Some,
    ensures
        links_fault(ms, current, commits, n, deep) == links_fault(ms, current, commits, k, deep),
    decreases n,
{
    if k < n {
        lemma_links_fault_prefix(ms, current, commits, k, (n - 1) as nat, deep);
    }
}

/// Without a fault each revision holds.
pub proof fn lemma_links_each(
    ms: Seq<MemberView>,
    current: Option<ManifestView>,
    commits: Seq<u64>,
    n: nat,
    i: int,
    deep: bool,
)
    requires
        links_fault(ms, current, commits, n, deep) is None,
        0 <= i < n,
    ensures
        link_fault(ms, current, commits, i, deep) is None,
        revision(ms, commits[i]) is Ok,
    decreases n,
{
    if i < n - 1 {
        lemma_links_each(ms, current, commits, (n - 1) as nat, i, deep);
    }
}

proof fn lemma_pins_fault_prefix(
    ms: Seq<MemberView>,
    commits: Seq<u64>,
    i: int,
    m: ManifestView,
    deep: bool,
    k: nat,
    n: nat,
)
    requires
        k <= n,
        pins_fault(ms, commits, i, m, deep, k) is Some,
    ensures
        pins_fault(ms, commits, i, m, deep, n) == pins_fault(ms, commits, i, m, deep, k),
    decreases n,
{
    if k < n {
        lemma_pins_fault_prefix(ms, commits, i, m, deep, k, (n - 1) as nat);
    }
}

/// The manifests of the first revisions.
pub open spec fn prior_ok(ms: Seq<MemberView>, commits: Seq<u64>, prior: Seq<Manifest>) -> bool {
    &&& prior.len() <= commits.len()
    &&& forall|k: int|
        0 <= k < prior.len() ==> revision(ms, #[trigger] commits[k]) is Ok && revision(
            ms,
            commits[k],
        )->Ok_0.1 == prior[k]@
}

fn was_named(
    c: &Container,
    prior: &Vec<Manifest>,
    name: &str,
    Ghost(commits): Ghost<Seq<u64>>,
) -> (r: bool)
    requires
        prior_ok(c@.members, commits, prior@),
    ensures
        r == named_before(c@.members, commits, prior@.len() as int, name@),
{
    let ghost ms = c@.members;
    let mut k: usize = 0;
    while k < prior.len()
        invariant
            ms == c@.members,
            prior_ok(ms, commits, prior@),
            k <= prior@.len(),
            forall|j: int|
                0 <= j < k ==> !namespace::names_part(
                    revision(ms, #[trigger] commits[j])->Ok_0.1,
                    name@,
                ),
        decreases prior.len() - k,
    {
        assert(revision(ms, commits[k as int])->Ok_0.1 == prior@[k as int]@);
        if namespace::manifest_names(&prior[k], name) {
            return true;
        }
        k = k + 1;
    }
    false
}

fn check_pins(
    c: &Container,
    prior: &Vec<Manifest>,
    m: &Manifest,
    deep: bool,
    Ghost(commits): Ghost<Seq<u64>>,
) -> (r: Result<(), ChainError>)
    requires
        prior_ok(c@.members, commits, prior@),
    ensures
        ({
            let fault = pins_fault(
                c@.members,
                commits,
                prior@.len() as int,
                m@,
                deep,
                m@.parts.len(),
            );
            match r {
                Ok(()) => fault is None,
                Err(e) => fault == Some(e),
            }
        }),
{
    let ghost ms = c@.members;
    let ghost i = prior@.len() as int;
    let mut j: usize = 0;
    while j < m.parts.len()
        invariant
            ms == c@.members,
            i == prior@.len(),
            prior_ok(ms, commits, prior@),
            j <= m.parts@.len(),
            pins_fault(ms, commits, i, m@, deep, j as nat) is None,
        decreases m.parts.len() - j,
    {
        let r = &m.parts[j];
        assert(m@.parts[j as int] == r@);
        let seen = was_named(c, prior, r.member.as_str(), Ghost(commits));
        let found = check_pin(c, r, deep, seen);
        j = j + 1;
        if let Some(fault) = found {
            proof {
                lemma_pins_fault_prefix(ms, commits, i, m@, deep, j as nat, m@.parts.len());
            }
            return Err(ChainError::Part { commit: m.commit, index: j - 1, fault });
        }
    }
    Ok(())
}

/// The bytes and the manifest of a retained revision.
pub fn read_revision(c: &Container, commit: u64) -> (r: Result<(usize, Manifest), ChainError>)
    ensures
        match r {
            Ok((i, m)) => i < c@.members.len() && revision(c@.members, commit) == Ok::<
                (Seq<u8>, ManifestView),
                ChainError,
            >((c@.members[i as int].bytes, m@)),
            Err(e) => revision(c@.members, commit) == Err::<(Seq<u8>, ManifestView), ChainError>(e),
        },
{
    let name = names::retained_member(commit);
    proof {
        container::lemma_position_from(c@.members, name@, 0);
    }
    match c.find(name.as_str()) {
        None => Err(ChainError::Lost { commit }),
        Some(i) => {
            assert(c@.members[i as int] == c.members@[i as int]@);
            match c.members[i].parse_manifest() {
                Err(error) => Err(ChainError::Retained { commit, error }),
                Ok(m) => Ok((i, m)),
            }
        },
    }
}

/// The text of a predecessor digest is that of some bytes.
pub fn names_predecessor(m: &Manifest, bytes: &[u8]) -> (r: bool)
    ensures
        r == (m@.prev is Some && encode_utf8(m@.prev->0) == manifest::link(bytes@)),
{
    match &m.prev {
        None => false,
        Some(want) => {
            let digest = hash::blake3_hash(bytes);
            let hex = text::hex_bytes(digest.as_slice());
            bytes::bytes_eq(want.as_str().as_bytes(), hex.as_slice())
        },
    }
}

fn check_step(
    c: &Container,
    commit: u64,
    m: &Manifest,
    previous: Option<(u64, usize, &Manifest)>,
) -> (r: Option<ChainError>)
    requires
        previous matches Some((_, at, _)) ==> at < c@.members.len(),
    ensures
        r == step_fault(
            commit,
            m@,
            match previous {
                Some((before, at, p)) => Some((before, c@.members[at as int].bytes, p@)),
                None => None,
            },
        ),
{
    match previous {
        None => None,
        Some((before, at, p)) => {
            assert(c@.members[at as int] == c.members@[at as int]@);
            if before == u64::MAX || commit != before + 1 {
                return Some(ChainError::Gap { commit });
            }
            if m.next_seq < p.next_seq {
                return Some(ChainError::CursorBackward { commit });
            }
            if m.fold_seg < p.fold_seg || (m.fold_seg == p.fold_seg && m.fold_off < p.fold_off) {
                return Some(ChainError::TailBackward { commit });
            }
            if !names_predecessor(m, c.members[at].bytes.as_slice()) {
                return Some(ChainError::Broken { commit });
            }
            None
        },
    }
}

fn check_link(
    c: &Container,
    current: Option<&Manifest>,
    commits: &Vec<u64>,
    prior: &Vec<Manifest>,
    last_at: usize,
    deep: bool,
) -> (r: Result<(usize, Manifest), ChainError>)
    requires
        prior@.len() < commits@.len(),
        prior_ok(c@.members, commits@, prior@),
        prior@.len() > 0 ==> last_at < c@.members.len() && revision(
            c@.members,
            commits@[prior@.len() - 1],
        )->Ok_0.0 == c@.members[last_at as int].bytes,
    ensures
        ({
            let i = prior@.len() as int;
            let fault = link_fault(
                c@.members,
                namespace::authority_view(current),
                commits@,
                i,
                deep,
            );
            match r {
                Ok((at, m)) => fault is None && at < c@.members.len() && revision(
                    c@.members,
                    commits@[i],
                ) == Ok::<(Seq<u8>, ManifestView), ChainError>(
                    (c@.members[at as int].bytes, m@),
                ),
                Err(e) => fault == Some(e),
            }
        }),
{
    let i: usize = prior.len();
    let commit: u64 = commits[i];
    let (at, m) = match read_revision(c, commit) {
        Ok(found) => found,
        Err(e) => {
            return Err(e);
        },
    };
    if m.commit != commit {
        return Err(ChainError::WrongRevision { commit, found: m.commit });
    }
    if let Some(authority) = current {
        if m.fold_gen != authority.fold_gen {
            return Err(ChainError::Generation { commit });
        }
    }
    let previous: Option<(u64, usize, &Manifest)> = if i == 0 {
        None
    } else {
        assert(revision(c@.members, commits@[i - 1])->Ok_0.1 == prior@[i - 1]@);
        Some((commits[i - 1], last_at, &prior[i - 1]))
    };
    if let Some(e) = check_step(c, commit, &m, previous) {
        return Err(e);
    }
    match check_pins(c, prior, &m, deep, Ghost(commits@)) {
        Ok(()) => Ok((at, m)),
        Err(e) => Err(e),
    }
}

/// The current manifest of a container, where it has one.
pub fn read_authority(c: &Container) -> (r: Result<Option<(usize, Manifest)>, ManifestError>)
    ensures
        match r {
            Ok(None) => current_of(c@.members) is None,
            Ok(Some((at, m))) => at < c@.members.len() && container::position_of(
                c@.members,
                "MANIFEST"@,
            ) == Some(at as int) && current_of(c@.members) == Some(
                Ok::<ManifestView, ManifestError>(m@),
            ),
            Err(e) => current_of(c@.members) == Some(Err::<ManifestView, ManifestError>(e)),
        },
{
    proof {
        container::lemma_position_from(c@.members, "MANIFEST"@, 0);
    }
    match c.find("MANIFEST") {
        None => Ok(None),
        Some(at) => {
            assert(c@.members[at as int] == c.members@[at as int]@);
            match c.members[at].parse_manifest() {
                Ok(m) => Ok(Some((at, m))),
                Err(e) => Err(e),
            }
        },
    }
}

/// Walk the retained chain: every revision's name, adjacency, link, cursor and fold end, every part
/// it pins, and the equality of the current manifest and the newest retained one. Without deep
/// checks parts need only be present.
#[verifier::spinoff_prover]
#[verifier::rlimit(60)]
pub fn verify_chain_container_scoped(c: &Container, deep: bool) -> (r: Result<
    ChainReport,
    ChainError,
>)
    ensures
        match r {
            Ok(report) => chain_fault(c@, deep) is None && report == chain_report(c@, deep),
            Err(e) => chain_fault(c@, deep) == Some(e),
        },
{
    let ghost ms = c@.members;
    let found = match read_authority(c) {
        Ok(found) => found,
        Err(error) => {
            return Err(ChainError::Current { error });
        },
    };
    let current: Option<&Manifest> = match &found {
        Some((_, m)) => Some(m),
        None => None,
    };
    assert(namespace::authority_view(current) == authority_of(ms));
    if let Err(error) = namespace::validate_store_member_namespace(c, current) {
        return Err(ChainError::Namespace { error });
    }
    let commits = container_retained_commits(c);
    let n: usize = commits.len();
    if n > MANIFEST_RETAIN {
        return Err(ChainError::TooManyRetained { count: n });
    }
    let mut prior: Vec<Manifest> = Vec::new();
    let mut last_at: usize = 0;
    let mut digests: usize = 0;
    while prior.len() < n
        invariant
            ms == c@.members,
            n == commits@.len(),
            commits@ == retained_commits(ms),
            namespace::authority_view(current) == authority_of(ms),
            prior@.len() <= n,
            prior_ok(ms, commits@, prior@),
            prior@.len() > 0 ==> last_at < ms.len() && revision(
                ms,
                commits@[prior@.len() - 1],
            )->Ok_0.0 == ms[last_at as int].bytes,
            links_fault(ms, authority_of(ms), commits@, prior@.len(), deep) is None,
            digests == audit::fit(
                if deep {
                    pins_total(ms, commits@, prior@.len())
                } else {
                    0
                },
            ),
            !(current_of(ms) matches Some(Err(_))),
            namespace::namespace_fault(ms, authority_of(ms)) is None,
            n <= MANIFEST_RETAIN,
        decreases n - prior.len(),
    {
        let ghost i = prior@.len();
        match check_link(c, current, &commits, &prior, last_at, deep) {
            Err(e) => {
                proof {
                    lemma_links_fault_prefix(
                        ms,
                        authority_of(ms),
                        commits@,
                        (i + 1) as nat,
                        commits@.len(),
                        deep,
                    );
                }
                return Err(e);
            },
            Ok((at, m)) => {
                if deep {
                    digests =
                    audit::add_fit(digests, m.parts.len(), Ghost(pins_total(ms, commits@, i)));
                }
                last_at = at;
                let ghost before = prior@;
                prior.push(m);
                proof {
                    assert forall|k: int| 0 <= k < prior@.len() implies revision(
                        ms,
                        #[trigger] commits@[k],
                    ) is Ok && revision(ms, commits@[k])->Ok_0.1 == prior@[k]@ by {
                        if k < before.len() {
                            assert(prior@[k] == before[k]);
                        }
                    }
                }
            },
        }
    }
    if n > 0 {
        let newest: u64 = commits[n - 1];
        proof {
            lemma_retained_needs_authority(c@, commits@);
        }
        if let Some((at, m)) = &found {
            assert(ms[*at as int] == c.members@[*at as int]@);
            assert(ms[last_at as int] == c.members@[last_at as int]@);
            if !bytes::bytes_eq(
                c.members[*at].bytes.as_slice(),
                c.members[last_at].bytes.as_slice(),
            ) || !m.same(&prior[n - 1]) {
                return Err(ChainError::Diverges { commit: newest });
            }
        }
    } else {
        match current {
            Some(m) => {
                if let Err(e) = check_pins(c, &prior, m, deep, Ghost(commits@)) {
                    return Err(e);
                }
                if deep {
                    digests = m.parts.len();
                }
            },
            None => {
                if !c.committed_is_empty_birth() {
                    return Err(ChainError::NoAuthority { seq: c.seq });
                }
            },
        }
    }
    Ok(ChainReport { retained_manifests: n, links: n, part_digests: digests })
}

/// A container that retains revisions has members, so its namespace holds only with authority.
proof fn lemma_retained_needs_authority(c: ContainerView, commits: Seq<u64>)
    requires
        commits == retained_commits(c.members),
        commits.len() > 0,
        namespace::namespace_fault(c.members, authority_of(c.members)) is None,
    ensures
        authority_of(c.members) is Some,
{
    lemma_retained_among(c.members, c.members.len());
}

/// Walk the retained chain with every check.
pub fn verify_chain_file(c: &Container) -> (r: Result<ChainReport, ChainError>)
    ensures
        match r {
            Ok(report) => chain_fault(c@, true) is None && report == chain_report(c@, true),
            Err(e) => chain_fault(c@, true) == Some(e),
        },
{
    verify_chain_container_scoped(c, true)
}

/// Retained revisions as a history: at most as many as are kept, each following the one before it,
/// up to the current one.
pub open spec fn history(commits: Seq<u64>, current: Option<ManifestView>) -> bool {
    &&& commits.len() <= MANIFEST_RETAIN
    &&& forall|i: int, j: int|
        0 <= i <= j < commits.len() ==> #[trigger] commits[j] == #[trigger] commits[i] + (j - i)
    &&& commits.len() > 0 ==> (current matches Some(m) && commits.last() == m.commit)
}

/// The retained revisions, oldest first, of a container whose chain holds.
pub fn retained_commits_file(c: &Container) -> (r: Result<Vec<u64>, ChainError>)
    ensures
        match r {
            Ok(commits) => {
                &&& chain_fault(c@, true) is None
                &&& commits@ == retained_commits(c@.members)
                &&& history(commits@, authority_of(c@.members))
            },
            Err(e) => chain_fault(c@, true) == Some(e),
        },
{
    match verify_chain_file(c) {
        Ok(_) => {
            proof {
                retention_laws::lemma_retained_history(c@);
            }
            Ok(container_retained_commits(c))
        },
        Err(e) => Err(e),
    }
}

} // verus!
