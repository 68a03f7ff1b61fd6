//! The checksums that a container's directory records for its members.
//!
//! Giving up a block changes the bytes of its segment and not the checksum recorded for them, so the
//! recorded checksum of such a segment no longer applies: its frames are judged on their own.

use crate::bytes;
use crate::container;
use crate::container::{Container, MemberView};
use crate::fold;
use crate::fold::FoldView;
use crate::hash;
use crate::read_limits::ReadLimits;
use crate::store::artifact;
use crate::store::chain;
use crate::store::manifest::ManifestError;
use crate::store::members;
use crate::store::names;
use crate::store::open;
use crate::store::open::{FoldOpenError, TailRule};
use crate::store::scan;
use crate::text;
use vstd::prelude::*;

verus! {

// ---------------------------------------------------------------------------------------------
// Members whose checksum no longer applies.
// ---------------------------------------------------------------------------------------------
/// Why the punched members of a container are unknown.
#[allow(inconsistent_fields)]
#[derive(Clone, Copy, Debug, PartialEq, Eq, Structural)]
pub enum PunchedError {
    /// The manifest does not parse.
    Manifest { error: ManifestError },
    /// The fold does not open.
    Fold { error: FoldOpenError },
    /// A segment's frames do not reach exactly to its end.
    Frames { seg: u32 },
}

/// Whether a member holds a block among the first `n` that was given up.
pub open spec fn holds_punched(f: FoldView, generation: u32, name: Seq<char>, n: int) -> bool {
    exists|i: int|
        0 <= i < n && i <= u32::MAX && fold::in_ranges(f.punched, i as u32) && name == text::chars(
            names::segment_name(generation, (#[trigger] f.blocks[i]).segment),
        )
}

fn punched_segments(f: &fold::Fold, generation: u32) -> (r: Vec<String>)
    ensures
        scan::ascending(scan::texts_view(r@)),
        forall|x: Seq<char>| #[trigger]
            scan::texts_view(r@).contains(x) <==> holds_punched(
                f@,
                generation,
                x,
                f@.blocks.len() as int,
            ),
{
    let ghost v = f@;
    let mut out: Vec<String> = Vec::new();
    let mut i: usize = 0;
    while i < f.blocks.len() && i <= u32::MAX as usize
        invariant
            v == f@,
            i <= f.blocks@.len(),
            i <= u32::MAX + 1,
            scan::ascending(scan::texts_view(out@)),
            forall|x: Seq<char>| #[trigger]
                scan::texts_view(out@).contains(x) <==> holds_punched(v, generation, x, i as int),
        decreases f.blocks.len() - i,
    {
        assert(v.blocks[i as int] == f.blocks@[i as int]@);
        let ghost before = scan::texts_view(out@);
        let punched = f.is_punched(i as u32);
        if punched {
            let own = names::segment_member(generation, f.blocks[i].segment);
            members::insert_text(&mut out, own.as_str());
        }
        proof {
            let own = text::chars(names::segment_name(generation, v.blocks[i as int].segment));
            assert forall|x: Seq<char>| #[trigger]
                scan::texts_view(out@).contains(x) <==> holds_punched(v, generation, x, i + 1) by {
                assert(before.contains(x) <==> holds_punched(v, generation, x, i as int));
                if punched && x == own {
                    assert(v.blocks[i as int].segment == v.blocks[i as int].segment);
                    assert(holds_punched(v, generation, x, i + 1));
                }
                if holds_punched(v, generation, x, i as int) {
                    let k = choose|k: int|
                        0 <= k < i && k <= u32::MAX && fold::in_ranges(v.punched, k as u32) && x
                            == text::chars(
                            names::segment_name(generation, (#[trigger] v.blocks[k]).segment),
                        );
                    assert(v.blocks[k].segment == v.blocks[k].segment);
                }
            }
        }
        i = i + 1;
    }
    proof {
        assert forall|x: Seq<char>| #[trigger]
            scan::texts_view(out@).contains(x) <==> holds_punched(
                v,
                generation,
                x,
                v.blocks.len() as int,
            ) by {
            if holds_punched(v, generation, x, v.blocks.len() as int) {
                let k = choose|k: int|
                    0 <= k < v.blocks.len() && k <= u32::MAX && fold::in_ranges(
                        v.punched,
                        k as u32,
                    ) && x == text::chars(
                        names::segment_name(generation, (#[trigger] v.blocks[k]).segment),
                    );
                assert(k < i);
                assert(holds_punched(v, generation, x, i as int));
            }
            if holds_punched(v, generation, x, i as int) {
                let k = choose|k: int|
                    0 <= k < i && k <= u32::MAX && fold::in_ranges(v.punched, k as u32) && x
                        == text::chars(
                        names::segment_name(generation, (#[trigger] v.blocks[k]).segment),
                    );
                assert(holds_punched(v, generation, x, v.blocks.len() as int));
            }
        }
    }
    out
}

/// Whether a container's recorded checksum of a member no longer applies.
#[verifier::opaque]
pub open spec fn checksum_void(ms: Seq<MemberView>, limits: ReadLimits, name: Seq<char>) -> bool {
    match chain::authority_of(ms) {
        None => false,
        Some(m) => match open::fold_of(ms, m, m.punched, TailRule::Exact, limits) {
            Err(_) => false,
            Ok(f) => holds_punched(f, m.fold_gen, name, f.blocks.len() as int),
        },
    }
}

/// The first thing that keeps the punched members of a container from being known.
pub open spec fn punched_fault(ms: Seq<MemberView>, limits: ReadLimits) -> Option<PunchedError> {
    match chain::current_of(ms) {
        None => None,
        Some(Err(error)) => Some(PunchedError::Manifest { error }),
        Some(Ok(m)) => if m.punched.len() == 0 {
            None
        } else {
            match open::fold_of(ms, m, m.punched, TailRule::Exact, limits) {
                Err(error) => Some(PunchedError::Fold { error }),
                Ok(f) => match artifact::frames_fault(f, f.segments.len()) {
                    Some(seg) => Some(PunchedError::Frames { seg }),
                    None => None,
                },
            }
        },
    }
}

/// The segments whose recorded checksum no longer applies, because a block in them was given up:
/// exactly those, in order.
pub fn verified_punched_fold_members(c: &Container, limits: ReadLimits) -> (r: Result<
    Vec<String>,
    PunchedError,
>)
    ensures
        match r {
            Ok(found) => {
                &&& punched_fault(c@.members, limits) is None
                &&& scan::ascending(scan::texts_view(found@))
                &&& forall|x: Seq<char>| #[trigger]
                    scan::texts_view(found@).contains(x) <==> checksum_void(c@.members, limits, x)
            },
            Err(e) => punched_fault(c@.members, limits) == Some(e),
        },
{
    reveal(checksum_void);
    let ghost ms = c@.members;
    proof {
        container::lemma_position_from(ms, "MANIFEST"@, 0);
    }
    let at: usize = match c.find("MANIFEST") {
        Some(at) => at,
        None => {
            return Ok(Vec::new());
        },
    };
    assert(ms[at as int] == c.members@[at as int]@);
    let m = match c.members[at].parse_manifest() {
        Ok(m) => m,
        Err(error) => {
            return Err(PunchedError::Manifest { error });
        },
    };
    if m.punched.len() == 0 {
        let none: Vec<String> = Vec::new();
        proof {
            assert forall|x: Seq<char>| #[trigger]
                scan::texts_view(none@).contains(x) <==> checksum_void(ms, limits, x) by {
                assert(scan::texts_view(none@).len() == 0);
                assert(m@.punched.len() == 0);
            }
        }
        return Ok(none);
    }
    match open::open_fold_from_container(c, &m, &limits) {
        Err(error) => Err(PunchedError::Fold { error }),
        Ok(f) => match artifact::scrub(&f) {
            Err(seg) => Err(PunchedError::Frames { seg }),
            Ok(_) => Ok(punched_segments(&f, m.fold_gen)),
        },
    }
}

// ---------------------------------------------------------------------------------------------
// Members against their checksums.
// ---------------------------------------------------------------------------------------------
/// Why the members of a container are not the ones it recorded.
#[allow(inconsistent_fields)]
#[derive(Clone, Copy, Debug, PartialEq, Eq, Structural)]
pub enum MembersError {
    /// Which checksums apply is unknown.
    Punched { error: PunchedError },
    /// A member's bytes fail the checksum recorded for them.
    Checksum { index: usize },
}

/// Whether a member is the one recorded, or its checksum no longer applies.
pub open spec fn member_sound(ms: Seq<MemberView>, limits: ReadLimits, m: MemberView) -> bool {
    checksum_void(ms, limits, m.name) || hash::crc32_of(m.bytes) == m.checksum
}

/// The first of the first `n` members whose bytes fail a checksum that applies.
pub open spec fn checksum_fault(ms: Seq<MemberView>, limits: ReadLimits, n: nat) -> Option<usize>
    decreases n,
{
    if n == 0 {
        None
    } else {
        match checksum_fault(ms, limits, (n - 1) as nat) {
            Some(index) => Some(index),
            None => if member_sound(ms, limits, ms[n - 1]) {
                None
            } else {
                Some((n - 1) as usize)
            },
        }
    }
}

/// What is wrong first with the members of a container against what it recorded.
#[verifier::opaque]
pub open spec fn members_fault(ms: Seq<MemberView>, limits: ReadLimits) -> Option<MembersError> {
    match punched_fault(ms, limits) {
        Some(error) => Some(MembersError::Punched { error }),
        None => match checksum_fault(ms, limits, ms.len()) {
            Some(index) => Some(MembersError::Checksum { index }),
            None => None,
        },
    }
}

/// No member fails exactly where each one is sound.
pub proof fn lemma_checksums_each(ms: Seq<MemberView>, limits: ReadLimits, n: nat)
    requires
        n <= ms.len(),
    ensures
        checksum_fault(ms, limits, n) is None <==> forall|i: int|
            0 <= i < n ==> member_sound(ms, limits, #[trigger] ms[i]),
    decreases n,
{
    if n > 0 {
        lemma_checksums_each(ms, limits, (n - 1) as nat);
        if checksum_fault(ms, limits, n) is None {
            assert forall|i: int| 0 <= i < n implies member_sound(ms, limits, #[trigger] ms[i]) by {
                if i == n - 1 {
                    assert(member_sound(ms, limits, ms[n - 1]));
                }
            }
        }
    }
}

proof fn lemma_checksum_prefix(ms: Seq<MemberView>, limits: ReadLimits, k: nat, n: nat)
    requires
        k <= n,
        checksum_fault(ms, limits, k) is Some,
    ensures
        checksum_fault(ms, limits, n) == checksum_fault(ms, limits, k),
    decreases n,
{
    if k < n {
        lemma_checksum_prefix(ms, limits, k, (n - 1) as nat);
    }
}

fn holds_name(found: &Vec<String>, name: &str) -> (r: bool)
    ensures
        r == scan::texts_view(found@).contains(name@),
{
    let ghost v = scan::texts_view(found@);
    let mut i: usize = 0;
    while i < found.len()
        invariant
            v == scan::texts_view(found@),
            i <= found@.len(),
            forall|k: int| 0 <= k < i ==> #[trigger] v[k] != name@,
        decreases found.len() - i,
    {
        if bytes::str_eq(found[i].as_str(), name) {
            assert(v[i as int] == name@);
            return true;
        }
        i = i + 1;
    }
    false
}

fn find_unsound(c: &Container, void: &Vec<String>, Ghost(limits): Ghost<ReadLimits>) -> (r: Option<
    usize,
>)
    requires
        forall|x: Seq<char>| #[trigger]
            scan::texts_view(void@).contains(x) <==> checksum_void(c@.members, limits, x),
    ensures
        r == checksum_fault(c@.members, limits, c@.members.len()),
{
    let ghost ms = c@.members;
    let mut i: usize = 0;
    while i < c.members.len()
        invariant
            ms == c@.members,
            i <= c.members@.len(),
            checksum_fault(ms, limits, i as nat) is None,
            forall|x: Seq<char>| #[trigger]
                scan::texts_view(void@).contains(x) <==> checksum_void(ms, limits, x),
        decreases c.members.len() - i,
    {
        assert(ms[i as int] == c.members@[i as int]@);
        let held = &c.members[i];
        if !holds_name(void, held.name.as_str()) && hash::crc32(held.bytes.as_slice())
            != held.checksum {
            proof {
                lemma_checksum_prefix(ms, limits, (i + 1) as nat, ms.len());
            }
            return Some(i);
        }
        i = i + 1;
    }
    None
}

/// Hold every member against the checksum recorded for it, where that applies.
pub fn verify_members(c: &Container, limits: ReadLimits) -> (r: Result<(), MembersError>)
    ensures
        match r {
            Ok(()) => members_fault(c@.members, limits) is None,
            Err(e) => members_fault(c@.members, limits) == Some(e),
        },
{
    reveal(members_fault);
    match verified_punched_fold_members(c, limits) {
        Err(error) => Err(MembersError::Punched { error }),
        Ok(void) => match find_unsound(c, &void, Ghost(limits)) {
            Some(index) => Err(MembersError::Checksum { index }),
            None => Ok(()),
        },
    }
}

} // verus!
