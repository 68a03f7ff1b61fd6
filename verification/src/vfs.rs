//! What the host's file operations must keep track of: which were issued, and which new names are
//! not durable yet.
//!
//! A host without a directory synchronization creates a file under a temporary name and gives it
//! its final one, durably, when its directory is synchronized. Until then the final name is
//! pending. A temporary name is never promoted by anyone else: once its process is gone it is
//! debris.

use crate::bytes;
use vstd::prelude::*;

verus! {

/// One mutating operation, bytes included. The two synchronizations are barriers; everything else
/// is volatile until one covers it.
#[derive(Clone, Debug, PartialEq, Eq)]
pub enum Op {
    /// Truncate or create. The name is durable once its directory is synchronized.
    Create { path: String },
    /// A positioned write.
    WriteAt { path: String, off: u64, data: Vec<u8> },
    /// Truncate or extend.
    SetLen { path: String, len: u64 },
    /// Create with contents.
    WriteFile { path: String, data: Vec<u8> },
    SyncFile { path: String },
    SyncDir { path: String },
    Rename { from: String, to: String },
    /// Another name for a durable file; refused where the name is taken.
    Link { from: String, to: String },
    Unlink { path: String },
    /// Deallocate a range in place: the length stays, the range reads as zeros.
    PunchHole { path: String, off: u64, len: u64 },
    Mkdir { path: String },
    RemoveTree { path: String },
}

/// A log of operations, kept while it is armed.
#[derive(Debug)]
pub struct Recorder {
    pub log: Option<Vec<Op>>,
}

impl View for Recorder {
    type V = Option<Seq<Op>>;

    open spec fn view(&self) -> Option<Seq<Op>> {
        match self.log {
            Some(v) => Some(v@),
            None => None,
        }
    }
}

impl Recorder {
    /// A recorder that is not armed.
    pub fn new() -> (r: Recorder)
        ensures
            r@ is None,
    {
        Recorder { log: None }
    }

    /// Start recording. An earlier log is discarded.
    pub fn arm(&mut self)
        ensures
            final(self)@ == Some(Seq::<Op>::empty()),
    {
        self.log = Some(Vec::new());
        assert(self@->0 =~= Seq::<Op>::empty());
    }

    /// Stop recording and take the log.
    pub fn disarm(&mut self) -> (r: Vec<Op>)
        ensures
            final(self)@ is None,
            r@ == match old(self)@ {
                Some(log) => log,
                None => Seq::<Op>::empty(),
            },
    {
        match self.log.take() {
            Some(v) => v,
            None => {
                let v: Vec<Op> = Vec::new();
                assert(v@ =~= Seq::<Op>::empty());
                v
            },
        }
    }

    /// Note an operation; nothing while the recorder is not armed.
    pub fn push(&mut self, op: Op)
        ensures
            final(self)@ == match old(self)@ {
                Some(log) => Some(log.push(op)),
                None => None,
            },
    {
        match self.log.take() {
            Some(mut v) => {
                v.push(op);
                self.log = Some(v);
            },
            None => {},
        }
    }

    /// How many operations were noted.
    pub fn len(&self) -> (r: usize)
        ensures
            r == match self@ {
                Some(log) => log.len(),
                None => 0,
            },
    {
        match &self.log {
            Some(v) => v.len(),
            None => 0,
        }
    }
}

/// The directory that a synchronization of `dir` covers: the empty path, the parent of a bare
/// name, is the current directory.
pub open spec fn synced(dir: Seq<char>) -> Seq<char> {
    if dir.len() == 0 {
        "."@
    } else {
        dir
    }
}

/// The directory that a synchronization of `dir` covers.
pub fn sync_dir<'a>(dir: &'a str) -> (r: &'a str)
    ensures
        r@ == synced(dir@),
{
    if bytes::str_eq(dir, "") {
        proof {
            reveal_strlit("");
        }
        return ".";
    }
    proof {
        reveal_strlit("");
        if dir@.len() == 0 {
            assert(dir@ =~= ""@);
        }
    }
    dir
}

// ---------------------------------------------------------------------------------------------
// Pending names.
// ---------------------------------------------------------------------------------------------
/// A created file that does not have its name yet.
#[derive(Debug, PartialEq, Eq)]
pub struct PendingName {
    pub dir: String,
    pub path: String,
    pub temp: String,
}

/// View of a [`PendingName`].
pub struct PendingView {
    pub dir: Seq<char>,
    pub path: Seq<char>,
    pub temp: Seq<char>,
}

impl View for PendingName {
    type V = PendingView;

    open spec fn view(&self) -> PendingView {
        PendingView { dir: self.dir@, path: self.path@, temp: self.temp@ }
    }
}

/// Views of pending names.
pub open spec fn pending_view(v: Seq<PendingName>) -> Seq<PendingView> {
    Seq::new(v.len(), |i: int| v[i]@)
}

/// The pending names of a process, in the order they were registered.
#[derive(Debug)]
pub struct Pending {
    pub entries: Vec<PendingName>,
}

impl View for Pending {
    type V = Seq<PendingView>;

    open spec fn view(&self) -> Seq<PendingView> {
        pending_view(self.entries@)
    }
}

/// Where a name is registered.
pub open spec fn pending_at(p: Seq<PendingView>, path: Seq<char>) -> Option<int>
    decreases p.len(),
{
    if p.len() == 0 {
        None
    } else if p[0].path == path {
        Some(0)
    } else {
        match pending_at(p.drop_first(), path) {
            Some(i) => Some(i + 1),
            None => None,
        }
    }
}

/// Where a name's bytes are: under its temporary name while it is pending.
pub open spec fn resolved(p: Seq<PendingView>, path: Seq<char>) -> Seq<char> {
    match pending_at(p, path) {
        Some(i) => p[i].temp,
        None => path,
    }
}

/// The names of a directory that are due, among the first `n`.
pub open spec fn due_among(p: Seq<PendingView>, dir: Seq<char>, n: nat) -> Seq<PendingView>
    decreases n,
{
    if n == 0 {
        Seq::empty()
    } else {
        let before = due_among(p, dir, (n - 1) as nat);
        if synced(p[n - 1].dir) == synced(dir) {
            before.push(p[n - 1])
        } else {
            before
        }
    }
}

proof fn lemma_pending_at(p: Seq<PendingView>, path: Seq<char>, k: int)
    requires
        0 <= k <= p.len(),
        forall|i: int| 0 <= i < k ==> (#[trigger] p[i]).path != path,
        k < p.len() ==> p[k].path == path,
    ensures
        pending_at(p, path) == if k < p.len() {
            Some(k)
        } else {
            None
        },
    decreases p.len(),
{
    if k > 0 {
        let rest = p.drop_first();
        assert forall|i: int| 0 <= i < k - 1 implies (#[trigger] rest[i]).path != path by {
            assert(rest[i] == p[i + 1]);
        }
        assert(p[0].path != path);
        lemma_pending_at(rest, path, k - 1);
    }
}

impl Pending {
    /// Nothing is pending: what a process begins with.
    pub fn new() -> (r: Pending)
        ensures
            r@ == Seq::<PendingView>::empty(),
    {
        let r = Pending { entries: Vec::new() };
        assert(r@ =~= Seq::<PendingView>::empty());
        r
    }

    fn find(&self, path: &str) -> (r: Option<usize>)
        ensures
            match r {
                Some(i) => i < self@.len() && pending_at(self@, path@) == Some(i as int),
                None => pending_at(self@, path@) is None,
            },
    {
        let ghost all = self@;
        let mut i: usize = 0;
        while i < self.entries.len()
            invariant
                all == self@,
                i <= self.entries@.len(),
                forall|k: int| 0 <= k < i ==> (#[trigger] all[k]).path != path@,
            decreases self.entries.len() - i,
        {
            assert(all[i as int] == self.entries@[i as int]@);
            if bytes::str_eq(self.entries[i].path.as_str(), path) {
                proof {
                    lemma_pending_at(all, path@, i as int);
                }
                return Some(i);
            }
            i = i + 1;
        }
        proof {
            lemma_pending_at(all, path@, i as int);
        }
        None
    }

    /// Register a created file. A name that is pending keeps its place and its temporary name: its
    /// file was truncated.
    pub fn register(&mut self, dir: &str, path: &str, temp: &str)
        ensures
            final(self)@ == if pending_at(old(self)@, path@) is Some {
                old(self)@
            } else {
                old(self)@.push(PendingView { dir: dir@, path: path@, temp: temp@ })
            },
    {
        if self.find(path).is_none() {
            let ghost before = self@;
            let e = PendingName {
                dir: dir.to_owned(),
                path: path.to_owned(),
                temp: temp.to_owned(),
            };
            let ghost v = e@;
            self.entries.push(e);
            assert(self@ =~= before.push(v));
        }
    }

    /// Where a name's bytes are.
    pub fn resolve(&self, path: &str) -> (r: String)
        ensures
            r@ == resolved(self@, path@),
    {
        match self.find(path) {
            Some(i) => {
                assert(self@[i as int] == self.entries@[i as int]@);
                self.entries[i].temp.clone()
            },
            None => path.to_owned(),
        }
    }

    /// Whether a name exists to this process: it is pending, or the host has it.
    pub fn name_exists(&self, path: &str, on_disk: bool) -> (r: bool)
        ensures
            r == (pending_at(self@, path@) is Some || on_disk),
    {
        self.find(path).is_some() || on_disk
    }

    /// Forget a name whose file was renamed or removed.
    pub fn forget(&mut self, path: &str) -> (r: Option<String>)
        ensures
            match pending_at(old(self)@, path@) {
                Some(i) => r is Some && r->0@ == old(self)@[i].temp && final(self)@ == old(
                    self,
                )@.remove(i),
                None => r is None && final(self)@ == old(self)@,
            },
    {
        match self.find(path) {
            Some(i) => {
                let ghost before = self@;
                assert(before[i as int] == self.entries@[i as int]@);
                let e = self.entries.remove(i);
                assert(self@ =~= before.remove(i as int));
                Some(e.temp)
            },
            None => None,
        }
    }

    /// The names that a synchronization of a directory publishes, in the order they were
    /// registered.
    pub fn due(&self, dir: &str) -> (r: Vec<PendingName>)
        ensures
            pending_view(r@) == due_among(self@, dir@, self@.len()),
    {
        let ghost all = self@;
        let mut out: Vec<PendingName> = Vec::new();
        let mut i: usize = 0;
        assert(pending_view(out@) =~= Seq::<PendingView>::empty());
        while i < self.entries.len()
            invariant
                all == self@,
                i <= self.entries@.len(),
                pending_view(out@) == due_among(all, dir@, i as nat),
            decreases self.entries.len() - i,
        {
            assert(all[i as int] == self.entries@[i as int]@);
            if bytes::str_eq(sync_dir(self.entries[i].dir.as_str()), sync_dir(dir)) {
                let ghost before = out@;
                let e = PendingName {
                    dir: self.entries[i].dir.clone(),
                    path: self.entries[i].path.clone(),
                    temp: self.entries[i].temp.clone(),
                };
                let ghost v = e@;
                out.push(e);
                assert(pending_view(out@) =~= pending_view(before).push(v));
            }
            i = i + 1;
        }
        out
    }
}

} // verus!
