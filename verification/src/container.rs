//! The container: one file that holds every committed member of a store.
//!
//! A member is its bytes together with what they decode to: JSON of a manifest, the rows of a part,
//! the blocks of a fold segment. The host decodes; the library decides what the values mean.

use crate::bytes;
use crate::fold;
use crate::fold::{Block, BlockView};
use crate::hash;
use crate::part::{Part, PartView};
use crate::store::manifest;
use crate::store::manifest::{DecodedManifest, DecodedView, Manifest, ManifestError, ManifestView};
use vstd::prelude::*;

verus! {

/// One named member.
#[derive(Debug, PartialEq, Eq)]
pub struct Member {
    pub name: String,
    pub bytes: Vec<u8>,
    /// The checksum that the container's directory records for the bytes.
    pub checksum: u32,
    /// What the bytes decode to as a manifest's JSON.
    pub manifest: Option<DecodedManifest>,
    /// What the bytes decode to as a part.
    pub part: Option<Part>,
    /// What the bytes decode to as a fold segment.
    pub blocks: Option<Vec<Block>>,
}

/// View of a [`Member`].
pub struct MemberView {
    pub name: Seq<char>,
    pub bytes: Seq<u8>,
    pub checksum: u32,
    pub manifest: Option<DecodedView>,
    pub part: Option<PartView>,
    pub blocks: Option<Seq<BlockView>>,
}

impl View for Member {
    type V = MemberView;

    open spec fn view(&self) -> MemberView {
        MemberView {
            name: self.name@,
            bytes: self.bytes@,
            checksum: self.checksum,
            manifest: manifest::decoded_view(self.manifest),
            part: match self.part {
                Some(p) => Some(p@),
                None => None,
            },
            blocks: match self.blocks {
                Some(b) => Some(fold::blocks_view(b@)),
                None => None,
            },
        }
    }
}

/// Views of members.
pub open spec fn members_view(members: Seq<Member>) -> Seq<MemberView> {
    Seq::new(members.len(), |i: int| members[i]@)
}

/// A committed container.
#[derive(Debug, PartialEq, Eq)]
pub struct Container {
    /// How many states were committed before this one.
    pub seq: u64,
    /// Members, in the order of their names.
    pub members: Vec<Member>,
}

/// View of a [`Container`].
pub struct ContainerView {
    pub seq: u64,
    pub members: Seq<MemberView>,
}

impl View for Container {
    type V = ContainerView;

    open spec fn view(&self) -> ContainerView {
        ContainerView { seq: self.seq, members: members_view(self.members@) }
    }
}

/// Names ascend strictly.
pub open spec fn names_ascending(ms: Seq<MemberView>) -> bool {
    forall|i: int, j: int|
        0 <= i < j < ms.len() ==> bytes::name_lt((#[trigger] ms[i]).name, (#[trigger] ms[j]).name)
}

/// The position of a name from `k` on.
pub open spec fn position_from(ms: Seq<MemberView>, name: Seq<char>, k: int) -> Option<int>
    decreases ms.len() - k,
{
    if k < 0 || k >= ms.len() {
        None
    } else if ms[k].name == name {
        Some(k)
    } else {
        position_from(ms, name, k + 1)
    }
}

/// The position of a name.
pub open spec fn position_of(ms: Seq<MemberView>, name: Seq<char>) -> Option<int> {
    position_from(ms, name, 0)
}

/// A position is inside and carries the name; none means no member does.
pub proof fn lemma_position_from(ms: Seq<MemberView>, name: Seq<char>, k: int)
    requires
        0 <= k <= ms.len(),
    ensures
        match position_from(ms, name, k) {
            Some(i) => k <= i < ms.len() && ms[i].name == name && forall|j: int|
                k <= j < i ==> (#[trigger] ms[j]).name != name,
            None => forall|j: int| k <= j < ms.len() ==> (#[trigger] ms[j]).name != name,
        },
    decreases ms.len() - k,
{
    if k < ms.len() && ms[k].name != name {
        lemma_position_from(ms, name, k + 1);
    }
}

/// A member as a container records it when it is written: with the checksum of its bytes.
pub open spec fn recorded(m: MemberView) -> MemberView {
    MemberView { checksum: hash::crc32_of(m.bytes), ..m }
}

/// The manifest a member holds. A member longer than a manifest may be is not read at all.
pub open spec fn member_manifest(m: MemberView) -> Result<ManifestView, ManifestError> {
    if m.bytes.len() > manifest::MAX_MANIFEST_BYTES {
        Err(ManifestError::MemberTooLarge { bytes: m.bytes.len() as u64 })
    } else {
        manifest::parsed(m.bytes, m.manifest)
    }
}

impl Member {
    /// The manifest this member holds.
    pub fn parse_manifest(&self) -> (r: Result<Manifest, ManifestError>)
        ensures
            member_manifest(self@) == (match r {
                Ok(m) => Ok::<ManifestView, ManifestError>(m@),
                Err(e) => Err(e),
            }),
    {
        if self.bytes.len() as u64 > manifest::MAX_MANIFEST_BYTES {
            return Err(ManifestError::MemberTooLarge { bytes: self.bytes.len() as u64 });
        }
        Manifest::parse(self.bytes.as_slice(), &self.manifest)
    }

    /// Record the checksum of the bytes, as writing the member does.
    pub(crate) fn record(&mut self)
        ensures
            final(self)@ == recorded(old(self)@),
    {
        self.checksum = hash::crc32(self.bytes.as_slice());
    }
}

impl Container {
    /// The position of a name.
    pub fn find(&self, name: &str) -> (r: Option<usize>)
        ensures
            position_of(self@.members, name@) == (match r {
                Some(i) => Some(i as int),
                None => None,
            }),
            r matches Some(i) ==> i < self.members@.len(),
    {
        let ghost ms = self@.members;
        let mut i: usize = 0;
        while i < self.members.len()
            invariant
                ms == self@.members,
                i <= self.members@.len(),
                position_of(ms, name@) == position_from(ms, name@, i as int),
            decreases self.members.len() - i,
        {
            assert(ms[i as int] == self.members@[i as int]@);
            if bytes::str_eq(self.members[i].name.as_str(), name) {
                return Some(i);
            }
            i = i + 1;
        }
        None
    }

    /// Whether a name is held.
    pub fn contains(&self, name: &str) -> (r: bool)
        ensures
            r == (position_of(self@.members, name@) is Some),
    {
        self.find(name).is_some()
    }

    /// Whether this is the one valid state without a manifest: nothing was ever committed.
    pub fn committed_is_empty_birth(&self) -> (r: bool)
        ensures
            r == empty_birth(self@),
    {
        self.seq == 0 && self.members.len() == 0
    }
}

/// Whether nothing was ever committed to a container.
pub open spec fn empty_birth(c: ContainerView) -> bool {
    c.seq == 0 && c.members.len() == 0
}

/// Members with one more, or one replaced, in the order of their names.
pub open spec fn put_sorted(ms: Seq<MemberView>, m: MemberView) -> Seq<MemberView>
    decreases ms.len(),
{
    if ms.len() == 0 || bytes::name_lt(ms.last().name, m.name) {
        ms.push(m)
    } else if ms.last().name == m.name {
        ms.drop_last().push(m)
    } else {
        put_sorted(ms.drop_last(), m).push(ms.last())
    }
}

/// A member put in order is found, every other member stays, and the order holds.
pub proof fn lemma_put_sorted(ms: Seq<MemberView>, m: MemberView)
    requires
        names_ascending(ms),
    ensures
        names_ascending(put_sorted(ms, m)),
        put_sorted(ms, m).len() > 0,
        exists|i: int|
            0 <= i < put_sorted(ms, m).len() && #[trigger] put_sorted(ms, m)[i] == m,
        forall|x: MemberView|
            #[trigger] put_sorted(ms, m).contains(x) <==> x == m || (ms.contains(x) && x.name
                != m.name),
        bytes::name_lt(m.name, put_sorted(ms, m).last().name) || m.name == put_sorted(
            ms,
            m,
        ).last().name,
        ms.len() > 0 ==> bytes::name_lt(ms.last().name, put_sorted(ms, m).last().name)
            || ms.last().name == put_sorted(ms, m).last().name,
        forall|n: Seq<char>|
            bytes::name_lt(m.name, n) && (ms.len() > 0 ==> bytes::name_lt(ms.last().name, n))
                ==> bytes::name_lt(put_sorted(ms, m).last().name, n),
    decreases ms.len(),
{
    let r = put_sorted(ms, m);
    bytes::lemma_name_order(m.name, m.name, m.name);
    if ms.len() == 0 || bytes::name_lt(ms.last().name, m.name) {
        assert(r[ms.len() as int] == m);
        assert forall|i: int, j: int| 0 <= i < j < r.len() implies bytes::name_lt(
            (#[trigger] r[i]).name,
            (#[trigger] r[j]).name,
        ) by {
            if j == ms.len() {
                if i < ms.len() - 1 {
                    assert(bytes::name_lt(ms[i].name, ms[ms.len() - 1].name));
                    bytes::lemma_name_order(ms[i].name, ms.last().name, m.name);
                }
            } else {
                assert(r[i] == ms[i] && r[j] == ms[j]);
            }
        }
        assert forall|x: MemberView| #[trigger] r.contains(x) <==> x == m || (ms.contains(x)
            && x.name != m.name) by {
            if r.contains(x) {
                let i = choose|i: int| 0 <= i < r.len() && r[i] == x;
                if i < ms.len() {
                    assert(ms[i] == x);
                    assert(bytes::name_lt(r[i].name, r[ms.len() as int].name));
                }
            }
            if ms.contains(x) {
                let i = choose|i: int| 0 <= i < ms.len() && ms[i] == x;
                assert(r[i] == x);
            }
            if x == m {
                assert(r[ms.len() as int] == m);
            }
        }
    } else if ms.last().name == m.name {
        let k = ms.len() - 1;
        assert(r[k] == m);
        assert forall|i: int, j: int| 0 <= i < j < r.len() implies bytes::name_lt(
            (#[trigger] r[i]).name,
            (#[trigger] r[j]).name,
        ) by {
            assert(bytes::name_lt(ms[i].name, ms[j].name));
        }
        assert forall|x: MemberView| #[trigger] r.contains(x) <==> x == m || (ms.contains(x)
            && x.name != m.name) by {
            if r.contains(x) {
                let i = choose|i: int| 0 <= i < r.len() && r[i] == x;
                if i < k {
                    assert(ms[i] == x);
                    assert(bytes::name_lt(ms[i].name, ms[k].name));
                }
            }
            if ms.contains(x) && x.name != m.name {
                let i = choose|i: int| 0 <= i < ms.len() && ms[i] == x;
                assert(r[i] == x);
            }
            if x == m {
                assert(r[k] == m);
            }
        }
    } else {
        let front = ms.drop_last();
        let last = ms.last();
        let f = put_sorted(front, m);
        assert forall|i: int, j: int| 0 <= i < j < front.len() implies bytes::name_lt(
            (#[trigger] front[i]).name,
            (#[trigger] front[j]).name,
        ) by {
            assert(bytes::name_lt(ms[i].name, ms[j].name));
        }
        lemma_put_sorted(front, m);
        bytes::lemma_name_order(m.name, last.name, last.name);
        if front.len() > 0 {
            assert(bytes::name_lt(ms[front.len() - 1].name, ms[front.len() as int].name));
        }
        assert(bytes::name_lt(f.last().name, last.name));
        assert forall|i: int, j: int| 0 <= i < j < r.len() implies bytes::name_lt(
            (#[trigger] r[i]).name,
            (#[trigger] r[j]).name,
        ) by {
            if j < f.len() {
                assert(r[i] == f[i] && r[j] == f[j]);
            } else {
                assert(r[i] == f[i]);
                if i < f.len() - 1 {
                    assert(bytes::name_lt(f[i].name, f[f.len() - 1].name));
                    bytes::lemma_name_order(f[i].name, f.last().name, last.name);
                }
            }
        }
        let at = choose|i: int| 0 <= i < f.len() && #[trigger] f[i] == m;
        assert(r[at] == m);
        assert forall|x: MemberView| #[trigger] r.contains(x) <==> x == m || (ms.contains(x)
            && x.name != m.name) by {
            if r.contains(x) {
                let i = choose|i: int| 0 <= i < r.len() && r[i] == x;
                if i < f.len() {
                    assert(f[i] == x);
                    assert(f.contains(x));
                    if x != m {
                        let k = choose|k: int| 0 <= k < front.len() && front[k] == x;
                        assert(ms[k] == x);
                    }
                } else {
                    assert(ms[ms.len() - 1] == x);
                }
            }
            if ms.contains(x) && x.name != m.name {
                let k = choose|k: int| 0 <= k < ms.len() && ms[k] == x;
                if k < front.len() {
                    assert(front[k] == x);
                    assert(front.contains(x));
                    assert(f.contains(x));
                    let i = choose|i: int| 0 <= i < f.len() && f[i] == x;
                    assert(r[i] == x);
                } else {
                    assert(r[f.len() as int] == x);
                }
            }
            if x == m {
                assert(r[at] == m);
            }
        }
    }
}

impl Container {
    /// Put a member in its place, over one of the same name.
    pub fn put(&mut self, m: Member)
        ensures
            final(self)@.members == put_sorted(old(self)@.members, m@),
            final(self).seq == old(self).seq,
    {
        let ghost ms = self@.members;
        let mut i: usize = self.members.len();
        assert(ms.take(i as int) =~= ms);
        assert(put_sorted(ms, m@) =~= put_sorted(ms.take(i as int), m@) + ms.skip(i as int));
        while i > 0 && !bytes::str_lt(self.members[i - 1].name.as_str(), m.name.as_str())
            && !bytes::str_eq(self.members[i - 1].name.as_str(), m.name.as_str())
            invariant
                ms == self@.members,
                *self == *old(self),
                i <= self.members@.len(),
                put_sorted(ms, m@) == put_sorted(ms.take(i as int), m@) + ms.skip(i as int),
            decreases i,
        {
            proof {
                let t = ms.take(i as int);
                assert(t.drop_last() =~= ms.take(i - 1));
                assert(t.last() == ms[i - 1]);
                assert(ms[i - 1] == self.members@[i - 1]@);
                assert(put_sorted(ms.take(i - 1), m@).push(ms[i - 1]) + ms.skip(i as int)
                    =~= put_sorted(ms.take(i - 1), m@) + ms.skip(i - 1));
            }
            i = i - 1;
        }
        let replace = if i > 0 {
            bytes::str_eq(self.members[i - 1].name.as_str(), m.name.as_str())
        } else {
            false
        };
        proof {
            let t = ms.take(i as int);
            if i > 0 {
                assert(t.last() == ms[i - 1]);
                assert(ms[i - 1] == self.members@[i - 1]@);
                bytes::lemma_name_order(m.name@, m.name@, m.name@);
            }
        }
        if replace {
            proof {
                let t = ms.take(i as int);
                assert(t.drop_last().push(m@) + ms.skip(i as int) =~= ms.update(i - 1, m@));
            }
            let ghost before = self.members@;
            self.members.set(i - 1, m);
            assert(members_view(self.members@) =~= members_view(before).update(i - 1, m@));
        } else {
            proof {
                let t = ms.take(i as int);
                assert(t.push(m@) + ms.skip(i as int) =~= ms.insert(i as int, m@));
            }
            let ghost before = self.members@;
            self.members.insert(i, m);
            assert(members_view(self.members@) =~= members_view(before).insert(i as int, m@));
        }
    }
}

impl Clone for Member {
    fn clone(&self) -> (r: Member)
        ensures
            r@ == self@,
    {
        let mut held: Vec<u8> = Vec::new();
        bytes::append_bytes(&mut held, self.bytes.as_slice());
        assert(held@ =~= self.bytes@);
        Member {
            name: self.name.clone(),
            bytes: held,
            checksum: self.checksum,
            manifest: match &self.manifest {
                Some(d) => Some(d.clone()),
                None => None,
            },
            part: match &self.part {
                Some(p) => Some(p.clone()),
                None => None,
            },
            blocks: match &self.blocks {
                Some(b) => Some(fold::clone_blocks(b)),
                None => None,
            },
        }
    }
}

} // verus!
