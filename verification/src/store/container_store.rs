//! Writing to a store held as one file.
//!
//! One file at rest, a working directory beside it while a writer holds it:
//!
//! ```text
//! mystore.turndb        the committed store
//! mystore.turndb-hot/   working state while a writer holds it
//! ```
//!
//! Parts and sealed fold segments are immutable and stay in the container. What is copied out is
//! what a session can change: the manifests, the sidecars, and the fold segments from the one that
//! holds the committed tail on.

use crate::bytes;
use crate::container;
use crate::container::{Container, MemberView};
use crate::store::chain;
use crate::store::manifest;
use crate::store::members::{ContainerMembers, FileMember};
use crate::store::names;
use vstd::prelude::*;
use vstd::slice::slice_subrange;
use vstd::utf8::*;

verus! {

/// A prepared working directory, and the sealed history left where it lies. The directory alone is
/// no complete store.
#[derive(Debug)]
pub struct Prepared {
    /// The working directory's name.
    pub hot: Vec<u8>,
    /// The members still inside the container. Nothing where there is no container yet.
    pub sealed: Option<ContainerMembers>,
}

/// What makes a working directory ready.
#[derive(Debug)]
pub enum PrepareStep {
    /// It is there and newer than the container: use it as it is.
    Adopt,
    /// Write these files into a new one.
    Materialize { files: Vec<FileMember> },
    /// Create an empty one.
    Create,
}

/// A container without a manifest names no store to open.
#[derive(Clone, Copy, Debug, PartialEq, Eq, Structural)]
pub struct NoManifest;

/// What folding a working directory back does next.
#[derive(Clone, Copy, Debug, PartialEq, Eq, Structural)]
pub enum SettleStep {
    /// Take what the directory committed into the container.
    Checkpoint,
    /// Remove the directory.
    RemoveHot,
    Done,
    /// A step failed. The directory may still hold what the container lacks.
    Failed,
}

/// The part of a name after its last slash, if it has one.
pub open spec fn after_last_slash(s: Seq<u8>) -> Option<Seq<u8>>
    decreases s.len(),
{
    if s.len() == 0 {
        None
    } else if s.last() == 47 {
        Some(Seq::empty())
    } else {
        match after_last_slash(s.drop_last()) {
            Some(file) => Some(file.push(s.last())),
            None => None,
        }
    }
}

/// Whether a name is that of a fold segment below `first_live`.
pub open spec fn sealed_segment(name: Seq<char>, first_live: u32) -> bool {
    match after_last_slash(encode_utf8(name)) {
        Some(file) => match names::segment_number(
            file,
            encode_utf8("seg-"@),
            encode_utf8(".fold"@),
        ) {
            Some(n) => n < first_live,
            None => false,
        },
        None => false,
    }
}

/// The lowest fold segment a working directory must hold. Below it no truncation can apply. Zero
/// where no manifest reads.
pub open spec fn first_live(ms: Seq<MemberView>) -> u32 {
    match chain::current_of(ms) {
        Some(Ok(m)) => match manifest::tail_of(m) {
            Some(tail) => tail.seg,
            None => 0,
        },
        _ => 0,
    }
}

/// Whether a working directory gets its own copy of a member.
pub open spec fn copied_out(ms: Seq<MemberView>, name: Seq<char>) -> bool {
    !names::part_ends(encode_utf8(name)) && !sealed_segment(name, first_live(ms))
}

/// The members among the first `n` that a working directory gets.
pub open spec fn materialized(ms: Seq<MemberView>, n: nat) -> Seq<(Seq<char>, Seq<u8>)>
    decreases n,
{
    if n == 0 {
        Seq::empty()
    } else {
        let before = materialized(ms, (n - 1) as nat);
        if copied_out(ms, ms[n - 1].name) {
            before.push((ms[n - 1].name, ms[n - 1].bytes))
        } else {
            before
        }
    }
}

/// Views of files.
pub open spec fn files_view(files: Seq<FileMember>) -> Seq<(Seq<char>, Seq<u8>)> {
    Seq::new(files.len(), |i: int| (files[i].name@, files[i].bytes@))
}

proof fn lemma_after_last_slash(s: Seq<u8>, k: int)
    requires
        0 <= k <= s.len(),
        forall|i: int| k <= i < s.len() ==> #[trigger] s[i] != 47,
        k > 0 ==> s[k - 1] == 47,
    ensures
        after_last_slash(s) == if k > 0 {
            Some(s.subrange(k, s.len() as int))
        } else {
            None
        },
    decreases s.len(),
{
    if s.len() > 0 {
        if k == s.len() {
            assert(s.subrange(k, s.len() as int) =~= Seq::<u8>::empty());
        } else {
            let front = s.drop_last();
            lemma_after_last_slash(front, k);
            assert(s.last() != 47) by {
                assert(s[s.len() - 1] != 47);
            }
            if k > 0 {
                assert(front.subrange(k, front.len() as int).push(s.last()) =~= s.subrange(
                    k,
                    s.len() as int,
                ));
            }
        }
    }
}

fn is_sealed_segment(name: &str, first: u32) -> (r: bool)
    ensures
        r == sealed_segment(name@, first),
{
    let b = name.as_bytes();
    let mut k: usize = b.len();
    while k > 0 && b[k - 1] != 47
        invariant
            k <= b@.len(),
            forall|i: int| k <= i < b@.len() ==> #[trigger] b@[i] != 47,
        decreases k,
    {
        k = k - 1;
    }
    proof {
        lemma_after_last_slash(b@, k as int);
    }
    if k == 0 {
        return false;
    }
    match names::parse_seg_name(slice_subrange(b, k, b.len())) {
        Some(n) => n < first,
        None => false,
    }
}

/// The lowest fold segment a working directory must hold.
pub fn first_live_segment(c: &Container) -> (r: u32)
    ensures
        r == first_live(c@.members),
{
    match chain::read_authority(c) {
        Ok(Some((_, m))) => match m.fold_tail() {
            Some(tail) => tail.seg,
            None => 0,
        },
        _ => 0,
    }
}

/// The working directory that belongs to a container.
pub fn hot_path(container: &[u8]) -> (r: Vec<u8>)
    ensures
        r@ == container@ + encode_utf8("-hot"@),
{
    let mut out: Vec<u8> = Vec::new();
    bytes::append_bytes(&mut out, container);
    bytes::append_bytes(&mut out, "-hot".as_bytes());
    assert(out@ =~= container@ + encode_utf8("-hot"@));
    out
}

/// The files of a new working directory.
pub fn materialize(c: &Container) -> (r: Result<Vec<FileMember>, NoManifest>)
    ensures
        match r {
            Ok(files) => container::position_of(c@.members, "MANIFEST"@) is Some && files_view(files@)
                == materialized(c@.members, c@.members.len()),
            Err(_) => container::position_of(c@.members, "MANIFEST"@) is None,
        },
{
    if !c.contains("MANIFEST") {
        return Err(NoManifest);
    }
    let ghost ms = c@.members;
    let first: u32 = first_live_segment(c);
    let mut files: Vec<FileMember> = Vec::new();
    let mut i: usize = 0;
    assert(files_view(files@) =~= Seq::<(Seq<char>, Seq<u8>)>::empty());
    while i < c.members.len()
        invariant
            ms == c@.members,
            first == first_live(ms),
            i <= c.members@.len(),
            files_view(files@) == materialized(ms, i as nat),
        decreases c.members.len() - i,
    {
        assert(ms[i as int] == c.members@[i as int]@);
        let name = c.members[i].name.as_str();
        if !names::is_part(name.as_bytes()) && !is_sealed_segment(name, first) {
            let mut held: Vec<u8> = Vec::new();
            bytes::append_bytes(&mut held, c.members[i].bytes.as_slice());
            assert(held@ =~= c.members@[i as int].bytes@);
            let ghost before = files@;
            let file = FileMember { name: c.members[i].name.clone(), bytes: held };
            let ghost v = (file.name@, file.bytes@);
            files.push(file);
            assert(files_view(files@) =~= files_view(before).push(v));
        }
        i = i + 1;
    }
    Ok(files)
}

/// Decide how a container is made ready to be written. A working directory that outlived its
/// writer is newer than the container, so it is used as it is.
pub fn prepare(container: &[u8], c: Option<&Container>, hot_exists: bool) -> (r: Result<
    (Prepared, PrepareStep),
    NoManifest,
>)
    ensures
        match r {
            Ok((p, step)) => {
                &&& p.hot@ == container@ + encode_utf8("-hot"@)
                &&& match c {
                    Some(held) => p.sealed is Some && container::members_view(p.sealed->0.extents@)
                        == held@.members,
                    None => p.sealed is None,
                }
                &&& match step {
                    PrepareStep::Adopt => hot_exists,
                    PrepareStep::Materialize { files } => !hot_exists && c is Some
                        && container::position_of(c->0@.members, "MANIFEST"@) is Some
                        && files_view(files@) == materialized(
                        c->0@.members,
                        c->0@.members.len(),
                    ),
                    PrepareStep::Create => !hot_exists && c is None,
                }
            },
            Err(_) => !hot_exists && c is Some && container::position_of(
                c->0@.members,
                "MANIFEST"@,
            ) is None,
        },
{
    let hot = hot_path(container);
    let sealed = match c {
        Some(held) => Some(ContainerMembers::capture(held)),
        None => None,
    };
    if hot_exists {
        return Ok((Prepared { hot, sealed }, PrepareStep::Adopt));
    }
    match c {
        Some(held) => match materialize(held) {
            Ok(files) => Ok((Prepared { hot, sealed }, PrepareStep::Materialize { files })),
            Err(e) => Err(e),
        },
        None => Ok((Prepared { hot, sealed }, PrepareStep::Create)),
    }
}

/// What follows a step of folding a working directory back. The directory goes last: where
/// anything before it fails, the working state is still there.
pub fn settle(step: SettleStep, succeeded: bool) -> (r: SettleStep)
    ensures
        r == match step {
            SettleStep::Checkpoint => if succeeded {
                SettleStep::RemoveHot
            } else {
                SettleStep::Failed
            },
            SettleStep::RemoveHot => if succeeded {
                SettleStep::Done
            } else {
                SettleStep::Failed
            },
            SettleStep::Done => SettleStep::Done,
            SettleStep::Failed => SettleStep::Failed,
        },
        r == SettleStep::RemoveHot ==> step == SettleStep::Checkpoint && succeeded,
        r == SettleStep::Done ==> step == SettleStep::Done || (step == SettleStep::RemoveHot
            && succeeded),
        !succeeded && step != SettleStep::Done ==> r == SettleStep::Failed,
{
    match step {
        SettleStep::Checkpoint => if succeeded {
            SettleStep::RemoveHot
        } else {
            SettleStep::Failed
        },
        SettleStep::RemoveHot => if succeeded {
            SettleStep::Done
        } else {
            SettleStep::Failed
        },
        SettleStep::Done => SettleStep::Done,
        SettleStep::Failed => SettleStep::Failed,
    }
}

} // verus!
