//! Arriving at a store's name: open what is there, finish what was interrupted, or create.
//!
//! A space reclaim replaces a store's file while an anchor beside it keeps the old one. Where the
//! name is gone and the anchor is not, the store comes back from the anchor or not at all.

use crate::container::Container;
use crate::read_limits::{ReadAdmissionError, ReadLimits};
use crate::store::artifact;
use crate::store::artifact::{ArtifactError, ArtifactReport};
use crate::store::debris;
use crate::store::debris::SiblingName;
use vstd::prelude::*;

verus! {

/// What a host found at a store's name.
#[derive(Clone, Copy, Debug, PartialEq, Eq, Structural)]
pub struct Found {
    /// There is a directory at the name.
    pub directory: bool,
    /// There is a file at the name.
    pub store: bool,
    /// There is a reclaim's anchor beside it.
    pub anchor: bool,
}

/// What to do at a store's name.
#[derive(Clone, Copy, Debug, PartialEq, Eq, Structural)]
pub enum Arrival {
    Open,
    /// Bring the store back from its reclaim's anchor, and open it.
    Restore,
    Create,
}

/// Why nothing is done at a store's name.
#[allow(inconsistent_fields)]
#[derive(Clone, Copy, Debug, PartialEq, Eq, Structural)]
pub enum ArrivalError {
    /// Another store would take the name for its own protocol state.
    Reserved,
    /// A store is one file.
    Directory,
    /// There are more names beside it than may be listed.
    Listing { error: ReadAdmissionError },
    /// An interrupted protocol may own this many names beside it.
    Refusing { names: usize },
}

/// What to do at a store's name, given the names beside it.
pub open spec fn arrival(
    store: Seq<u8>,
    found: Found,
    listing: Seq<debris::SiblingView>,
    limits: ReadLimits,
) -> Result<Arrival, ArrivalError> {
    if debris::reserved(store) {
        Err(ArrivalError::Reserved)
    } else if found.directory {
        Err(ArrivalError::Directory)
    } else if found.store {
        Ok(Arrival::Open)
    } else if found.anchor {
        Ok(Arrival::Restore)
    } else if listing.len() > limits.max_directory_entries {
        Err(
            ArrivalError::Listing {
                error: ReadAdmissionError::TooManyDirectoryEntries {
                    actual: (limits.max_directory_entries + 1) as u64,
                    allowed: limits.max_directory_entries,
                },
            },
        )
    } else {
        let refusing = debris::refusing_among(store, false, false, listing, listing.len());
        if refusing.len() > 0 {
            Err(ArrivalError::Refusing { names: refusing.len() as usize })
        } else {
            Ok(Arrival::Create)
        }
    }
}

/// Decide what to do at a store's name.
pub fn arrive(store: &[u8], found: Found, listing: &Vec<SiblingName>, limits: ReadLimits) -> (r: Result<
    Arrival,
    ArrivalError,
>)
    ensures
        r == arrival(store@, found, debris::siblings_view(listing@), limits),
{
    if debris::validate_store_path(store).is_err() {
        return Err(ArrivalError::Reserved);
    }
    if found.directory {
        return Err(ArrivalError::Directory);
    }
    if found.store {
        return Ok(Arrival::Open);
    }
    if found.anchor {
        return Ok(Arrival::Restore);
    }
    match debris::names_refusing_creation(store, false, false, listing, limits) {
        Err(error) => Err(ArrivalError::Listing { error }),
        Ok(refusing) => {
            let names: usize = refusing.len();
            assert(debris::names_view(refusing@).len() == names);
            if names > 0 {
                Err(ArrivalError::Refusing { names })
            } else {
                Ok(Arrival::Create)
            }
        },
    }
}

// ---------------------------------------------------------------------------------------------
// Restoring from an anchor.
// ---------------------------------------------------------------------------------------------
/// The steps that bring a store back from its anchor, in order.
#[derive(Clone, Copy, Debug, PartialEq, Eq, Structural)]
pub enum AnchorStep {
    /// Take the anchor's writer lock, and read it whole.
    Lock,
    /// Remove what an earlier attempt staged.
    Clear,
    /// Copy the anchor to a candidate, and make it durable.
    Copy,
    /// Take the candidate's writer lock, and read it whole.
    Check,
    /// Give the candidate the store's name, unless something took it.
    Place,
    /// Remove the anchor.
    RemoveAnchor,
    Done,
    /// A step failed. Whatever it was, the store is there or the anchor is.
    Failed,
}

/// What follows a step.
pub open spec fn anchor_after(step: AnchorStep, succeeded: bool) -> AnchorStep {
    if !succeeded {
        AnchorStep::Failed
    } else {
        match step {
            AnchorStep::Lock => AnchorStep::Clear,
            AnchorStep::Clear => AnchorStep::Copy,
            AnchorStep::Copy => AnchorStep::Check,
            AnchorStep::Check => AnchorStep::Place,
            AnchorStep::Place => AnchorStep::RemoveAnchor,
            AnchorStep::RemoveAnchor => AnchorStep::Done,
            AnchorStep::Done => AnchorStep::Done,
            AnchorStep::Failed => AnchorStep::Failed,
        }
    }
}

/// What follows a step of restoring a store from its anchor.
pub fn restore_store_from_reclaim_anchor(step: AnchorStep, succeeded: bool) -> (r: AnchorStep)
    ensures
        r == anchor_after(step, succeeded),
{
    if !succeeded {
        return AnchorStep::Failed;
    }
    match step {
        AnchorStep::Lock => AnchorStep::Clear,
        AnchorStep::Clear => AnchorStep::Copy,
        AnchorStep::Copy => AnchorStep::Check,
        AnchorStep::Check => AnchorStep::Place,
        AnchorStep::Place => AnchorStep::RemoveAnchor,
        AnchorStep::RemoveAnchor => AnchorStep::Done,
        AnchorStep::Done => AnchorStep::Done,
        AnchorStep::Failed => AnchorStep::Failed,
    }
}

/// Whether an anchor, or a candidate copied from it, may become the store: it verifies whole.
pub fn admit_anchor(c: &Container, limits: ReadLimits) -> (r: Result<ArtifactReport, ArtifactError>)
    ensures
        r == artifact::artifact(c@, limits),
{
    artifact::verify_container_artifact(c, limits)
}

/// Where a run of outcomes leads from the first step.
pub open spec fn anchor_reached(outcomes: Seq<bool>) -> AnchorStep
    decreases outcomes.len(),
{
    if outcomes.len() == 0 {
        AnchorStep::Lock
    } else {
        anchor_after(anchor_reached(outcomes.drop_last()), outcomes.last())
    }
}

/// How far a step is from the first.
spec fn anchor_rank(step: AnchorStep) -> nat {
    match step {
        AnchorStep::Lock => 0,
        AnchorStep::Clear => 1,
        AnchorStep::Copy => 2,
        AnchorStep::Check => 3,
        AnchorStep::Place => 4,
        AnchorStep::RemoveAnchor => 5,
        _ => 6,
    }
}

/// The anchor is removed only where every step before it succeeded: the copy was made, verified
/// and given the store's name.
pub proof fn lemma_anchor_removed_last(outcomes: Seq<bool>)
    requires
        anchor_reached(outcomes) == AnchorStep::RemoveAnchor,
    ensures
        outcomes.len() == 5,
        forall|i: int| 0 <= i < outcomes.len() ==> #[trigger] outcomes[i],
{
    lemma_anchor_run(outcomes);
}

proof fn lemma_anchor_run(outcomes: Seq<bool>)
    ensures
        anchor_reached(outcomes) != AnchorStep::Failed && anchor_reached(outcomes)
            != AnchorStep::Done ==> outcomes.len() == anchor_rank(anchor_reached(outcomes))
            && forall|i: int| 0 <= i < outcomes.len() ==> #[trigger] outcomes[i],
    decreases outcomes.len(),
{
    if outcomes.len() > 0 {
        let before = outcomes.drop_last();
        lemma_anchor_run(before);
        if anchor_reached(outcomes) != AnchorStep::Failed && anchor_reached(outcomes)
            != AnchorStep::Done {
            assert(outcomes.last());
            assert forall|i: int| 0 <= i < outcomes.len() implies #[trigger] outcomes[i] by {
                if i < before.len() {
                    assert(before[i]);
                }
            }
        }
    }
}

/// A new store is never created where a store, its anchor, or anything an interrupted protocol may
/// own is in the way.
pub proof fn lemma_creation_is_fresh(
    store: Seq<u8>,
    found: Found,
    listing: Seq<debris::SiblingView>,
    limits: ReadLimits,
    i: int,
)
    requires
        arrival(store, found, listing, limits) == Ok::<Arrival, ArrivalError>(Arrival::Create),
        0 <= i < listing.len(),
    ensures
        !found.store,
        !found.anchor,
        !debris::refuses_creation(store, false, false, listing[i]),
{
    lemma_refusing_each(store, listing, listing.len(), i);
}

proof fn lemma_refusing_each(store: Seq<u8>, listing: Seq<debris::SiblingView>, n: nat, i: int)
    requires
        0 <= i < n,
        debris::refusing_among(store, false, false, listing, n).len() == 0,
    ensures
        !debris::refuses_creation(store, false, false, listing[i]),
    decreases n,
{
    lemma_inserted_len(
        debris::refusing_among(store, false, false, listing, (n - 1) as nat),
        listing[n - 1].name,
    );
    if i < n - 1 {
        lemma_refusing_each(store, listing, (n - 1) as nat, i);
    }
}

proof fn lemma_inserted_len(names: Seq<Seq<u8>>, e: Seq<u8>)
    ensures
        debris::name_inserted(names, e).len() == names.len() + 1,
    decreases names.len(),
{
    if names.len() > 0 {
        lemma_inserted_len(names.drop_last(), e);
    }
}

} // verus!
