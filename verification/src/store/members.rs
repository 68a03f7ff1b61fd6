//! Where a store's immutable members come from.
//!
//! A store names its parts and fold segments, and never their paths. What turns a name into bytes
//! is a source of members: the files of a working directory, the members of a container, or the
//! one before the other.

use crate::bytes;
use crate::container;
use crate::container::{Container, Member, MemberView};
use crate::store::scan;
use vstd::prelude::*;

verus! {

/// A source of immutable members.
///
/// That a source does not hold a name is a routing answer, no error.
pub trait Members {
    /// The bytes of a member.
    spec fn lookup(&self, name: Seq<char>) -> Option<Seq<u8>>;

    /// The bytes of a member, if this source holds it.
    fn open(&self, name: &str) -> (r: Option<&[u8]>)
        ensures
            match r {
                Some(b) => self.lookup(name@) == Some(b@),
                None => self.lookup(name@) is None,
            },
    ;

    /// Every member this source holds, in order.
    fn names(&self) -> (r: Vec<String>)
        ensures
            scan::ascending(scan::texts_view(r@)),
            forall|name: Seq<char>| #[trigger]
                scan::texts_view(r@).contains(name) <==> self.lookup(name) is Some,
    ;

    /// Whether this source holds a member.
    fn contains(&self, name: &str) -> (r: bool)
        ensures
            r == (self.lookup(name@) is Some),
    ;
}

/// One file of a working directory.
#[derive(Debug)]
pub struct FileMember {
    pub name: String,
    pub bytes: Vec<u8>,
}

/// Members as files of a working directory.
#[derive(Debug)]
pub struct DirMembers {
    pub files: Vec<FileMember>,
}

/// Where a file of a name is.
pub open spec fn file_at(files: Seq<FileMember>, name: Seq<char>) -> Option<int>
    decreases files.len(),
{
    if files.len() == 0 {
        None
    } else if files[0].name@ == name {
        Some(0)
    } else {
        match file_at(files.drop_first(), name) {
            Some(i) => Some(i + 1),
            None => None,
        }
    }
}

/// Members as they were captured from one committed container. A member it gains later belongs to
/// a later view.
#[derive(Debug)]
pub struct ContainerMembers {
    pub extents: Vec<Member>,
}

/// The working directory first, the container after it. A name in both is one that the session
/// wrote again, and the directory's bytes are the ones its manifest names.
#[derive(Debug)]
pub struct Layered {
    pub hot: DirMembers,
    pub sealed: ContainerMembers,
}

proof fn lemma_file_at(files: Seq<FileMember>, name: Seq<char>, k: int)
    requires
        0 <= k <= files.len(),
        forall|i: int| 0 <= i < k ==> (#[trigger] files[i]).name@ != name,
        k < files.len() ==> files[k].name@ == name,
    ensures
        file_at(files, name) == if k < files.len() {
            Some(k)
        } else {
            None
        },
    decreases files.len(),
{
    if k > 0 {
        let rest = files.drop_first();
        assert forall|i: int| 0 <= i < k - 1 implies (#[trigger] rest[i]).name@ != name by {
            assert(rest[i] == files[i + 1]);
        }
        assert(files[0].name@ != name);
        lemma_file_at(rest, name, k - 1);
    }
}

proof fn lemma_file_named(files: Seq<FileMember>, name: Seq<char>)
    ensures
        match file_at(files, name) {
            Some(k) => 0 <= k < files.len() && files[k].name@ == name,
            None => forall|i: int| 0 <= i < files.len() ==> (#[trigger] files[i]).name@ != name,
        },
    decreases files.len(),
{
    if files.len() > 0 && files[0].name@ != name {
        let rest = files.drop_first();
        lemma_file_named(rest, name);
        if file_at(rest, name) is None {
            assert forall|i: int| 0 <= i < files.len() implies (#[trigger] files[i]).name@
                != name by {
                if i > 0 {
                    assert(rest[i - 1] == files[i]);
                }
            }
        }
    }
}

/// Put a name into an ordered list, once.
pub fn insert_text(all: &mut Vec<String>, name: &str)
    requires
        scan::ascending(scan::texts_view(old(all)@)),
    ensures
        scan::ascending(scan::texts_view(final(all)@)),
        forall|x: Seq<char>| #[trigger]
            scan::texts_view(final(all)@).contains(x) <==> scan::texts_view(old(all)@).contains(x)
                || x == name@,
{
    let ghost before = scan::texts_view(all@);
    let ghost held = all@;
    let mut k: usize = 0;
    while k < all.len() && bytes::str_lt(all[k].as_str(), name)
        invariant
            all@ == held,
            before == scan::texts_view(held),
            scan::ascending(before),
            k <= all@.len(),
            forall|i: int| 0 <= i < k ==> bytes::name_lt(#[trigger] before[i], name@),
        decreases all.len() - k,
    {
        assert(before[k as int] == held[k as int]@);
        k = k + 1;
    }
    if k < all.len() && bytes::str_eq(all[k].as_str(), name) {
        assert(before[k as int] == held[k as int]@);
        assert(before.contains(name@));
        return;
    }
    all.insert(k, name.to_owned());
    proof {
        let after = scan::texts_view(all@);
        assert(after =~= before.insert(k as int, name@));
        assert forall|x: Seq<char>| #[trigger] after.contains(x) <==> before.contains(x) || x
            == name@ by {
            if before.contains(x) {
                let i = choose|i: int| 0 <= i < before.len() && before[i] == x;
                if i < k {
                    assert(after[i] == x);
                } else {
                    assert(after[i + 1] == x);
                }
            }
            if x == name@ {
                assert(after[k as int] == x);
            }
            if after.contains(x) && x != name@ {
                let i = choose|i: int| 0 <= i < after.len() && after[i] == x;
                if i < k {
                    assert(before[i] == x);
                } else {
                    assert(before[i - 1] == x);
                }
            }
        }
        if k < before.len() {
            assert(before[k as int] == held[k as int]@);
            bytes::lemma_name_order(before[k as int], name@, name@);
        }
        assert forall|i: int, j: int| 0 <= i < j < after.len() implies bytes::name_lt(
            #[trigger] after[i],
            #[trigger] after[j],
        ) by {
            if j < k {
                assert(after[i] == before[i] && after[j] == before[j]);
            } else if j == k {
                assert(after[i] == before[i]);
            } else if i > k {
                assert(after[i] == before[i - 1] && after[j] == before[j - 1]);
            } else if i == k {
                assert(after[j] == before[j - 1]);
                if j - 1 > k {
                    bytes::lemma_name_order(name@, before[k as int], before[j - 1]);
                }
            } else {
                assert(after[i] == before[i] && after[j] == before[j - 1]);
            }
        }
    }
}

impl DirMembers {
    /// The files of a working directory, as the host read them.
    pub fn new(files: Vec<FileMember>) -> (r: DirMembers)
        ensures
            r.files == files,
    {
        DirMembers { files }
    }

    fn find(&self, name: &str) -> (r: Option<usize>)
        ensures
            match r {
                Some(i) => i < self.files@.len() && file_at(self.files@, name@) == Some(i as int),
                None => file_at(self.files@, name@) is None,
            },
    {
        let mut i: usize = 0;
        while i < self.files.len()
            invariant
                i <= self.files@.len(),
                forall|k: int| 0 <= k < i ==> (#[trigger] self.files@[k]).name@ != name@,
            decreases self.files.len() - i,
        {
            if bytes::str_eq(self.files[i].name.as_str(), name) {
                proof {
                    lemma_file_at(self.files@, name@, i as int);
                }
                return Some(i);
            }
            i = i + 1;
        }
        proof {
            lemma_file_at(self.files@, name@, i as int);
        }
        None
    }
}

impl Members for DirMembers {
    open spec fn lookup(&self, name: Seq<char>) -> Option<Seq<u8>> {
        match file_at(self.files@, name) {
            Some(i) => Some(self.files@[i].bytes@),
            None => None,
        }
    }

    fn open(&self, name: &str) -> (r: Option<&[u8]>) {
        match self.find(name) {
            Some(i) => Some(self.files[i].bytes.as_slice()),
            None => None,
        }
    }

    fn names(&self) -> (r: Vec<String>) {
        let mut all: Vec<String> = Vec::new();
        let mut i: usize = 0;
        while i < self.files.len()
            invariant
                i <= self.files@.len(),
                scan::ascending(scan::texts_view(all@)),
                forall|x: Seq<char>| #[trigger]
                    scan::texts_view(all@).contains(x) <==> exists|k: int|
                        0 <= k < i && (#[trigger] self.files@[k]).name@ == x,
            decreases self.files.len() - i,
        {
            let ghost before = scan::texts_view(all@);
            insert_text(&mut all, self.files[i].name.as_str());
            proof {
                let after = scan::texts_view(all@);
                assert forall|x: Seq<char>| #[trigger] after.contains(x) <==> exists|k: int|
                    0 <= k < i + 1 && (#[trigger] self.files@[k]).name@ == x by {
                    if before.contains(x) {
                        let k = choose|k: int|
                            0 <= k < i && (#[trigger] self.files@[k]).name@ == x;
                        assert(self.files@[k].name@ == x);
                    }
                    if x == self.files@[i as int].name@ {
                        assert(self.files@[i as int].name@ == x);
                    }
                }
            }
            i = i + 1;
        }
        proof {
            assert forall|x: Seq<char>| #[trigger]
                scan::texts_view(all@).contains(x) <==> self.lookup(x) is Some by {
                lemma_file_named(self.files@, x);
            }
        }
        all
    }

    fn contains(&self, name: &str) -> (r: bool) {
        self.find(name).is_some()
    }
}

proof fn lemma_member_named(ms: Seq<MemberView>, name: Seq<char>)
    ensures
        match container::position_of(ms, name) {
            Some(k) => 0 <= k < ms.len() && ms[k].name == name,
            None => forall|i: int| 0 <= i < ms.len() ==> (#[trigger] ms[i]).name != name,
        },
{
    container::lemma_position_from(ms, name, 0);
}

impl ContainerMembers {
    /// Capture every member of a container.
    pub fn capture(c: &Container) -> (r: ContainerMembers)
        ensures
            container::members_view(r.extents@) == c@.members,
    {
        let mut extents: Vec<Member> = Vec::new();
        let mut i: usize = 0;
        while i < c.members.len()
            invariant
                i <= c.members@.len(),
                extents@.len() == i,
                forall|k: int| 0 <= k < i ==> (#[trigger] extents@[k])@ == c.members@[k]@,
            decreases c.members.len() - i,
        {
            extents.push(c.members[i].clone());
            i = i + 1;
        }
        assert(container::members_view(extents@) =~= c@.members);
        ContainerMembers { extents }
    }

    fn find(&self, name: &str) -> (r: Option<usize>)
        ensures
            ({
                let ms = container::members_view(self.extents@);
                match r {
                    Some(i) => i < ms.len() && container::position_of(ms, name@) == Some(i as int),
                    None => container::position_of(ms, name@) is None,
                }
            }),
    {
        let ghost ms = container::members_view(self.extents@);
        proof {
            lemma_member_named(ms, name@);
        }
        let mut i: usize = 0;
        while i < self.extents.len()
            invariant
                ms == container::members_view(self.extents@),
                i <= self.extents@.len(),
                container::position_of(ms, name@) == container::position_from(
                    ms,
                    name@,
                    i as int,
                ),
            decreases self.extents.len() - i,
        {
            assert(ms[i as int] == self.extents@[i as int]@);
            if bytes::str_eq(self.extents[i].name.as_str(), name) {
                return Some(i);
            }
            i = i + 1;
        }
        None
    }

    /// The bytes of one member.
    pub fn extent(&self, name: &str) -> (r: Option<&[u8]>)
        ensures
            match r {
                Some(b) => self.lookup(name@) == Some(b@),
                None => self.lookup(name@) is None,
            },
    {
        match self.find(name) {
            Some(i) => {
                assert(container::members_view(self.extents@)[i as int]
                    == self.extents@[i as int]@);
                Some(self.extents[i].bytes.as_slice())
            },
            None => None,
        }
    }
}

impl Members for ContainerMembers {
    open spec fn lookup(&self, name: Seq<char>) -> Option<Seq<u8>> {
        let ms = container::members_view(self.extents@);
        match container::position_of(ms, name) {
            Some(i) => Some(ms[i].bytes),
            None => None,
        }
    }

    fn open(&self, name: &str) -> (r: Option<&[u8]>) {
        self.extent(name)
    }

    fn names(&self) -> (r: Vec<String>) {
        let ghost ms = container::members_view(self.extents@);
        let mut all: Vec<String> = Vec::new();
        let mut i: usize = 0;
        while i < self.extents.len()
            invariant
                ms == container::members_view(self.extents@),
                i <= self.extents@.len(),
                scan::ascending(scan::texts_view(all@)),
                forall|x: Seq<char>| #[trigger]
                    scan::texts_view(all@).contains(x) <==> exists|k: int|
                        0 <= k < i && (#[trigger] ms[k]).name == x,
            decreases self.extents.len() - i,
        {
            let ghost before = scan::texts_view(all@);
            assert(ms[i as int] == self.extents@[i as int]@);
            insert_text(&mut all, self.extents[i].name.as_str());
            proof {
                let after = scan::texts_view(all@);
                assert forall|x: Seq<char>| #[trigger] after.contains(x) <==> exists|k: int|
                    0 <= k < i + 1 && (#[trigger] ms[k]).name == x by {
                    if before.contains(x) {
                        let k = choose|k: int| 0 <= k < i && (#[trigger] ms[k]).name == x;
                        assert(ms[k].name == x);
                    }
                    if x == ms[i as int].name {
                        assert(ms[i as int].name == x);
                    }
                }
            }
            i = i + 1;
        }
        proof {
            assert forall|x: Seq<char>| #[trigger]
                scan::texts_view(all@).contains(x) <==> self.lookup(x) is Some by {
                lemma_member_named(ms, x);
            }
        }
        all
    }

    fn contains(&self, name: &str) -> (r: bool) {
        self.find(name).is_some()
    }
}

impl Layered {
    /// A working directory over a container.
    pub fn new(hot: DirMembers, sealed: ContainerMembers) -> (r: Layered)
        ensures
            r.hot == hot,
            r.sealed == sealed,
    {
        Layered { hot, sealed }
    }

    /// The container's members alone.
    pub fn sealed(&self) -> (r: &ContainerMembers)
        ensures
            *r == self.sealed,
    {
        &self.sealed
    }
}

impl Members for Layered {
    open spec fn lookup(&self, name: Seq<char>) -> Option<Seq<u8>> {
        match self.hot.lookup(name) {
            Some(b) => Some(b),
            None => self.sealed.lookup(name),
        }
    }

    fn open(&self, name: &str) -> (r: Option<&[u8]>) {
        match self.hot.open(name) {
            Some(b) => Some(b),
            None => self.sealed.open(name),
        }
    }

    fn names(&self) -> (r: Vec<String>) {
        let mut all = self.hot.names();
        let more = self.sealed.names();
        let ghost first = scan::texts_view(all@);
        let ghost second = scan::texts_view(more@);
        let mut i: usize = 0;
        while i < more.len()
            invariant
                second == scan::texts_view(more@),
                i <= more@.len(),
                scan::ascending(scan::texts_view(all@)),
                forall|x: Seq<char>| #[trigger]
                    scan::texts_view(all@).contains(x) <==> first.contains(x) || exists|k: int|
                        0 <= k < i && #[trigger] second[k] == x,
            decreases more.len() - i,
        {
            let ghost before = scan::texts_view(all@);
            assert(second[i as int] == more@[i as int]@);
            insert_text(&mut all, more[i].as_str());
            proof {
                let after = scan::texts_view(all@);
                assert forall|x: Seq<char>| #[trigger] after.contains(x) <==> first.contains(x)
                    || exists|k: int| 0 <= k < i + 1 && #[trigger] second[k] == x by {
                    if before.contains(x) && !first.contains(x) {
                        let k = choose|k: int| 0 <= k < i && #[trigger] second[k] == x;
                        assert(second[k] == x);
                    }
                    if x == second[i as int] {
                        assert(second[i as int] == x);
                    }
                }
            }
            i = i + 1;
        }
        proof {
            assert forall|x: Seq<char>| #[trigger]
                scan::texts_view(all@).contains(x) <==> self.lookup(x) is Some by {
                assert(first.contains(x) <==> self.hot.lookup(x) is Some);
                assert(second.contains(x) <==> self.sealed.lookup(x) is Some);
                if second.contains(x) {
                    let k = choose|k: int| 0 <= k < second.len() && second[k] == x;
                    assert(second[k] == x);
                }
            }
        }
        all
    }

    fn contains(&self, name: &str) -> (r: bool) {
        self.hot.contains(name) || self.sealed.contains(name)
    }
}

} // verus!
