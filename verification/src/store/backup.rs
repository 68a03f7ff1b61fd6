//! Backup and restore: one container with exactly what its selected revision needs.
//!
//! A backup carries the manifest, the parts it names and the members of its fold generation. It
//! carries no retained revision and no log. What is to be installed, here or by a restore, is
//! verified whole first.

use crate::container;
use crate::container::{Container, ContainerView, Member, MemberView};
use crate::read_limits::ReadLimits;
use crate::store::artifact;
use crate::store::artifact::ArtifactError;
use crate::store::debris;
use crate::store::engine::{Store, StoreView};
use crate::store::manifest::{Manifest, ManifestView};
use crate::store::namespace;
use crate::store::open;
use crate::store::open::FoldRole;
use crate::store::publish;
use vstd::prelude::*;

verus! {

/// What a backup holds.
#[derive(Clone, Copy, Debug, PartialEq, Eq, Structural)]
pub struct BackupStats {
    pub members: usize,
    pub bytes: u64,
    /// The revision it was taken of; zero stands for the origin.
    pub commit: u64,
}

/// What a restore installs.
#[derive(Clone, Copy, Debug, PartialEq, Eq, Structural)]
pub struct RestoreStats {
    pub members: usize,
    pub bytes: u64,
    /// The revision restored; zero stands for the origin.
    pub commit: u64,
}

/// Why there is no backup.
#[allow(inconsistent_fields)]
#[derive(Clone, Copy, Debug, PartialEq, Eq, Structural)]
pub enum BackupError {
    /// An earlier failure left unowned content behind.
    RequiresReopen,
    /// Something has the backup's name.
    DestinationExists,
    /// Accepted mutations are not published yet.
    Pending,
    /// The container lost its manifest.
    ManifestLost,
    /// The container lost a part that the manifest names.
    PartLost { index: usize },
    /// The staged copy does not verify.
    Artifact { error: ArtifactError },
}

/// Why a restore is refused.
#[derive(Clone, Copy, Debug, PartialEq, Eq, Structural)]
pub enum RestoreError {
    /// The backup has a name that a store's protocol reserves.
    ReservedSource,
    /// The destination has a name that a store's protocol reserves.
    ReservedDestination,
    /// The restore was cancelled before it installed anything.
    Cancelled,
    /// Something has the destination's name.
    DestinationExists,
    /// The staged copy does not verify.
    Artifact { error: ArtifactError },
}

// ---------------------------------------------------------------------------------------------
// What a backup carries.
// ---------------------------------------------------------------------------------------------
/// Whether a backup of a revision carries a member.
pub open spec fn carried(m: ManifestView, name: Seq<char>) -> bool {
    &&& m.commit != 0
    &&& {
        ||| name == "MANIFEST"@
        ||| namespace::names_part(m, name)
        ||| open::role_of(name, m.fold_gen) != FoldRole::Other
    }
}

/// What a backup carries of the first `n` members.
pub open spec fn carried_among(ms: Seq<MemberView>, m: ManifestView, n: nat) -> Seq<MemberView>
    decreases n,
{
    if n == 0 {
        Seq::empty()
    } else {
        let before = carried_among(ms, m, (n - 1) as nat);
        if carried(m, ms[n - 1].name) {
            before.push(container::recorded(ms[n - 1]))
        } else {
            before
        }
    }
}

/// The backup of a revision. That of the origin was never committed to.
pub open spec fn copied(c: ContainerView, m: ManifestView) -> ContainerView {
    ContainerView {
        seq: if m.commit == 0 {
            0
        } else {
            1
        },
        members: carried_among(c.members, m, c.members.len()),
    }
}

/// The first of the first `n` parts that a container lost.
pub open spec fn part_lost(ms: Seq<MemberView>, m: ManifestView, n: nat) -> Option<BackupError>
    decreases n,
{
    if n == 0 {
        None
    } else {
        match part_lost(ms, m, (n - 1) as nat) {
            Some(e) => Some(e),
            None => if container::position_of(ms, m.parts[n - 1].member) is None {
                Some(BackupError::PartLost { index: (n - 1) as usize })
            } else {
                None
            },
        }
    }
}

/// What a container lost of a revision.
pub open spec fn lost(ms: Seq<MemberView>, m: ManifestView) -> Option<BackupError> {
    if m.commit == 0 {
        None
    } else if container::position_of(ms, "MANIFEST"@) is None {
        Some(BackupError::ManifestLost)
    } else {
        part_lost(ms, m, m.parts.len())
    }
}

proof fn lemma_part_lost_prefix(ms: Seq<MemberView>, m: ManifestView, k: nat, n: nat)
    requires
        k <= n,
        part_lost(ms, m, k) is Some,
    ensures
        part_lost(ms, m, n) == part_lost(ms, m, k),
    decreases n,
{
    if k < n {
        lemma_part_lost_prefix(ms, m, k, (n - 1) as nat);
    }
}

fn find_lost(c: &Container, m: &Manifest) -> (r: Option<BackupError>)
    ensures
        r == lost(c@.members, m@),
{
    if m.commit == 0 {
        return None;
    }
    if !c.contains("MANIFEST") {
        return Some(BackupError::ManifestLost);
    }
    let ghost ms = c@.members;
    let mut i: usize = 0;
    while i < m.parts.len()
        invariant
            ms == c@.members,
            m@.commit != 0,
            container::position_of(ms, "MANIFEST"@) is Some,
            i <= m.parts@.len(),
            part_lost(ms, m@, i as nat) is None,
        decreases m.parts.len() - i,
    {
        assert(m@.parts[i as int] == m.parts@[i as int]@);
        if !c.contains(m.parts[i].member.as_str()) {
            proof {
                lemma_part_lost_prefix(ms, m@, (i + 1) as nat, m@.parts.len());
            }
            return Some(BackupError::PartLost { index: i });
        }
        i = i + 1;
    }
    None
}

fn is_carried(m: &Manifest, name: &str) -> (r: bool)
    ensures
        r == carried(m@, name@),
{
    if m.commit == 0 {
        return false;
    }
    if crate::bytes::str_eq(name, "MANIFEST") || namespace::manifest_names(m, name) {
        return true;
    }
    match open::fold_role(name, m.fold_gen) {
        FoldRole::Other => false,
        _ => true,
    }
}

/// Copy what a backup of a revision carries into a fresh container.
pub fn copy_carried(c: &Container, m: &Manifest) -> (r: Result<Container, BackupError>)
    ensures
        match r {
            Ok(copy) => lost(c@.members, m@) is None && copy@ == copied(c@, m@),
            Err(e) => lost(c@.members, m@) == Some(e),
        },
{
    if let Some(e) = find_lost(c, m) {
        return Err(e);
    }
    let ghost ms = c@.members;
    let mut out: Vec<Member> = Vec::new();
    let mut i: usize = 0;
    assert(container::members_view(out@) =~= Seq::<MemberView>::empty());
    while i < c.members.len()
        invariant
            ms == c@.members,
            i <= c.members@.len(),
            container::members_view(out@) == carried_among(ms, m@, i as nat),
        decreases c.members.len() - i,
    {
        assert(ms[i as int] == c.members@[i as int]@);
        if is_carried(m, c.members[i].name.as_str()) {
            let ghost before = out@;
            let mut copy = c.members[i].clone();
            copy.record();
            let ghost v = copy@;
            out.push(copy);
            assert(container::members_view(out@) =~= container::members_view(before).push(v));
        }
        i = i + 1;
    }
    let seq: u64 = if m.commit == 0 {
        0
    } else {
        1
    };
    Ok(Container { seq, members: out })
}

/// What a backup reports.
pub open spec fn backup_stats(copy: ContainerView, m: ManifestView) -> BackupStats {
    BackupStats {
        members: copy.members.len() as usize,
        bytes: crate::store::audit::fit64(
            artifact::members_bytes(copy.members, copy.members.len()),
        ),
        commit: m.commit,
    }
}

/// What taking a backup of a revision gives.
pub open spec fn backup_fault(c: ContainerView, m: ManifestView, limits: ReadLimits) -> Option<
    BackupError,
> {
    match lost(c.members, m) {
        Some(e) => Some(e),
        None => match artifact::artifact(copied(c, m), limits) {
            Err(error) => Some(BackupError::Artifact { error }),
            Ok(_) => None,
        },
    }
}

/// Take a backup of a revision: copy what it carries, and verify the copy whole. The copy is what
/// the host installs under a name that nothing has.
pub fn backup_container_copy(c: &Container, m: &Manifest, limits: ReadLimits) -> (r: Result<
    (Container, BackupStats),
    BackupError,
>)
    ensures
        match r {
            Ok((copy, stats)) => {
                &&& backup_fault(c@, m@, limits) is None
                &&& copy@ == copied(c@, m@)
                &&& stats == backup_stats(copy@, m@)
            },
            Err(e) => backup_fault(c@, m@, limits) == Some(e),
        },
{
    let copy = match copy_carried(c, m) {
        Ok(copy) => copy,
        Err(e) => {
            return Err(e);
        },
    };
    if let Err(error) = artifact::verify_container_artifact(&copy, limits) {
        return Err(BackupError::Artifact { error });
    }
    let stats = BackupStats {
        members: copy.members.len(),
        bytes: artifact::count_bytes(&copy),
        commit: m.commit,
    };
    Ok((copy, stats))
}

// ---------------------------------------------------------------------------------------------
// Restore.
// ---------------------------------------------------------------------------------------------
/// What the two checkpoints of a restore find: whether it was cancelled by then.
#[derive(Clone, Copy, Debug, PartialEq, Eq, Structural)]
pub struct RestoreControl {
    /// Before anything is staged.
    pub at_start: bool,
    /// After the staged copy was verified, right before it is installed.
    pub at_installation: bool,
}

/// The checkpoints of a restore that nothing cancels.
pub open spec fn uncancelled() -> RestoreControl {
    RestoreControl { at_start: false, at_installation: false }
}

/// What is held under a name.
pub open spec fn held_view(held: Option<Container>) -> Option<ContainerView> {
    match held {
        Some(c) => Some(c@),
        None => None,
    }
}

/// A restore that was staged: a verified copy that has no name yet.
#[derive(Debug, PartialEq, Eq)]
pub struct StagedRestore {
    pub container: Container,
    pub stats: RestoreStats,
}

/// Why a restore stages nothing, or what the staged copy holds.
pub open spec fn restorable(
    src: Seq<u8>,
    dst: Seq<u8>,
    source: ContainerView,
    occupied: bool,
    cancelled: bool,
    limits: ReadLimits,
) -> Result<RestoreStats, RestoreError> {
    if debris::reserved(src) {
        Err(RestoreError::ReservedSource)
    } else if debris::reserved(dst) {
        Err(RestoreError::ReservedDestination)
    } else if cancelled {
        Err(RestoreError::Cancelled)
    } else if occupied {
        Err(RestoreError::DestinationExists)
    } else {
        match artifact::artifact(source, limits) {
            Err(error) => Err(RestoreError::Artifact { error }),
            Ok(report) => Ok(
                RestoreStats {
                    members: report.members,
                    bytes: report.bytes,
                    commit: report.commit,
                },
            ),
        }
    }
}

/// What restoring a backup gives, where `held` is what the destination's name holds before.
pub open spec fn restored(
    src: Seq<u8>,
    dst: Seq<u8>,
    source: ContainerView,
    held: Option<ContainerView>,
    limits: ReadLimits,
    control: RestoreControl,
) -> Result<RestoreStats, RestoreError> {
    match restorable(src, dst, source, held is Some, control.at_start, limits) {
        Err(e) => Err(e),
        Ok(stats) => if control.at_installation {
            Err(RestoreError::Cancelled)
        } else {
            Ok(stats)
        },
    }
}

/// Stage a restore: copy the backup, and verify the copy whole. Nothing has the destination's name
/// yet.
pub fn stage_restore(
    src: &[u8],
    dst: &[u8],
    source: &Container,
    occupied: bool,
    limits: ReadLimits,
    cancelled: bool,
) -> (r: Result<StagedRestore, RestoreError>)
    ensures
        restorable(src@, dst@, source@, occupied, cancelled, limits) == (match r {
            Ok(staged) => Ok::<RestoreStats, RestoreError>(staged.stats),
            Err(e) => Err(e),
        }),
        r matches Ok(staged) ==> staged.container@ == source@,
{
    if debris::validate_store_path(src).is_err() {
        return Err(RestoreError::ReservedSource);
    }
    if debris::validate_store_path(dst).is_err() {
        return Err(RestoreError::ReservedDestination);
    }
    if cancelled {
        return Err(RestoreError::Cancelled);
    }
    if occupied {
        return Err(RestoreError::DestinationExists);
    }
    let container = publish::clone_container(source);
    match artifact::verify_container_artifact(&container, limits) {
        Err(error) => Err(RestoreError::Artifact { error }),
        Ok(report) => Ok(
            StagedRestore {
                container,
                stats: RestoreStats {
                    members: report.members,
                    bytes: report.bytes,
                    commit: report.commit,
                },
            },
        ),
    }
}

/// Install a staged restore under the destination's name. A name that something took meanwhile is
/// left alone, and a restore that is not installed leaves nothing behind.
pub fn install_restore(
    staged: StagedRestore,
    destination: &mut Option<Container>,
    cancelled: bool,
) -> (r: Result<RestoreStats, RestoreError>)
    ensures
        r == (if cancelled {
            Err(RestoreError::Cancelled)
        } else if *old(destination) is Some {
            Err(RestoreError::DestinationExists)
        } else {
            Ok(staged.stats)
        }),
        r is Ok ==> held_view(*final(destination)) == Some(staged.container@),
        r is Err ==> *final(destination) == *old(destination),
{
    if cancelled {
        return Err(RestoreError::Cancelled);
    }
    if destination.is_some() {
        return Err(RestoreError::DestinationExists);
    }
    *destination = Some(staged.container);
    Ok(staged.stats)
}

/// Restore a backup under a name that nothing has, with explicit limits and checkpoints: the
/// destination holds what the backup holds, or, where the restore is refused, what it held before.
pub fn restore_file_with_control_and_limits(
    src: &[u8],
    dst: &[u8],
    source: &Container,
    destination: &mut Option<Container>,
    limits: ReadLimits,
    control: RestoreControl,
) -> (r: Result<RestoreStats, RestoreError>)
    ensures
        r == restored(src@, dst@, source@, held_view(*old(destination)), limits, control),
        r is Ok ==> *old(destination) is None && held_view(*final(destination)) == Some(source@),
        r is Err ==> *final(destination) == *old(destination),
{
    match stage_restore(src, dst, source, destination.is_some(), limits, control.at_start) {
        Err(e) => Err(e),
        Ok(staged) => install_restore(staged, destination, control.at_installation),
    }
}

/// [`restore_file_with_control_and_limits`] at the default limits.
pub fn restore_file_with_control(
    src: &[u8],
    dst: &[u8],
    source: &Container,
    destination: &mut Option<Container>,
    control: RestoreControl,
) -> (r: Result<RestoreStats, RestoreError>)
    ensures
        r == restored(
            src@,
            dst@,
            source@,
            held_view(*old(destination)),
            open::default_limits(),
            control,
        ),
        r is Ok ==> *old(destination) is None && held_view(*final(destination)) == Some(source@),
        r is Err ==> *final(destination) == *old(destination),
{
    restore_file_with_control_and_limits(
        src,
        dst,
        source,
        destination,
        ReadLimits::default(),
        control,
    )
}

/// [`restore_file_with_control_and_limits`] that nothing cancels.
pub fn restore_file_with_limits(
    src: &[u8],
    dst: &[u8],
    source: &Container,
    destination: &mut Option<Container>,
    limits: ReadLimits,
) -> (r: Result<RestoreStats, RestoreError>)
    ensures
        r == restored(src@, dst@, source@, held_view(*old(destination)), limits, uncancelled()),
        r is Ok ==> *old(destination) is None && held_view(*final(destination)) == Some(source@),
        r is Err ==> *final(destination) == *old(destination),
{
    let control = RestoreControl { at_start: false, at_installation: false };
    restore_file_with_control_and_limits(src, dst, source, destination, limits, control)
}

/// Restore a backup under a name that nothing has. Only a backup that verifies whole is restored;
/// the destination then holds exactly what the backup holds.
pub fn restore_file(
    src: &[u8],
    dst: &[u8],
    source: &Container,
    destination: &mut Option<Container>,
) -> (r: Result<RestoreStats, RestoreError>)
    ensures
        r == restored(
            src@,
            dst@,
            source@,
            held_view(*old(destination)),
            open::default_limits(),
            uncancelled(),
        ),
        r is Ok ==> *old(destination) is None && held_view(*final(destination)) == Some(source@),
        r is Err ==> *final(destination) == *old(destination),
{
    restore_file_with_limits(src, dst, source, destination, ReadLimits::default())
}

// ---------------------------------------------------------------------------------------------
// A store's backup.
// ---------------------------------------------------------------------------------------------
/// What backing up a store gives.
pub open spec fn store_backup_fault(s: StoreView, c: ContainerView, occupied: bool) -> Option<
    BackupError,
> {
    if s.requires_reopen {
        Some(BackupError::RequiresReopen)
    } else if occupied {
        Some(BackupError::DestinationExists)
    } else if s.mem.len() > 0 {
        Some(BackupError::Pending)
    } else {
        backup_fault(c, s.manifest, s.read_limits)
    }
}

impl Store {
    /// Back up the published state of this store, for a name that nothing has. Everything accepted
    /// was published before.
    pub fn backup(&self, c: &Container, occupied: bool) -> (r: Result<
        (Container, BackupStats),
        BackupError,
    >)
        ensures
            match r {
                Ok((copy, stats)) => {
                    &&& store_backup_fault(self@, c@, occupied) is None
                    &&& copy@ == copied(c@, self@.manifest)
                    &&& stats == backup_stats(copy@, self@.manifest)
                },
                Err(e) => store_backup_fault(self@, c@, occupied) == Some(e),
            },
    {
        if self.requires_reopen {
            return Err(BackupError::RequiresReopen);
        }
        if occupied {
            return Err(BackupError::DestinationExists);
        }
        if self.mem.len() > 0 {
            return Err(BackupError::Pending);
        }
        backup_container_copy(c, &self.manifest, self.read_limits)
    }
}

} // verus!
