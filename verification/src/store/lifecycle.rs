//! A writer's life beside its log: acknowledging, verifying and closing.
//!
//! The host owns the files. Each function here says what it has to do next, and what the store is
//! once it has done so.

use crate::bytes;
use crate::container::{Container, ContainerView};
use crate::fold::Fold;
use crate::read_limits::ReadLimits;
use crate::store::artifact;
use crate::store::artifact::{ArtifactError, StoreVerification};
use crate::store::chain;
use crate::store::debris;
use crate::store::engine;
use crate::store::engine::{Store, StoreView};
use crate::store::manifest::Manifest;
use crate::store::names;
use crate::store::open;
use crate::text;
use vstd::prelude::*;
use vstd::utf8::*;

verus! {

/// An earlier failure left unowned content behind; only a reopen restores a coherent state.
#[derive(Clone, Copy, Debug, PartialEq, Eq, Structural)]
pub struct RequiresReopen;

/// What closing a store still needs.
#[derive(Clone, Copy, Debug, PartialEq, Eq, Structural)]
pub enum CloseStep {
    /// Publish what was accepted.
    Publish,
    /// Make the container's state durable.
    Acknowledge,
    /// Cut the log, whose frames are all published.
    CutLog,
    /// Remove the log, which has no frames, and make that durable.
    RemoveLog,
}

/// What acknowledging what was accepted still needs.
#[derive(Clone, Copy, Debug, PartialEq, Eq)]
pub enum SyncStep<'a> {
    /// Make the container's state durable first: what was accepted since depends on it.
    Acknowledge,
    /// Write these bytes at this place of the log, and make them durable.
    Write { at: u64, unwritten: &'a [u8] },
}

/// What closing a store needs first.
pub open spec fn close_step(s: StoreView) -> CloseStep {
    if s.mem.len() > 0 {
        CloseStep::Publish
    } else if s.unsynced {
        CloseStep::Acknowledge
    } else if s.wal.frames() > 0 {
        CloseStep::CutLog
    } else {
        CloseStep::RemoveLog
    }
}

/// What cutting the log leaves: everything but the log as it was, and nothing in the log.
pub open spec fn log_cut_outcome(s: StoreView, t: StoreView) -> bool {
    &&& t == StoreView { wal: t.wal, ..s }
    &&& t.wal.frames() == 0
    &&& t.wal.written() == 0
    &&& t.wal.buffered() == Seq::<u8>::empty()
    &&& t.wal.limits() == s.wal.limits()
}

/// The verification of a store's published state.
pub open spec fn verified(c: ContainerView, limits: ReadLimits) -> Result<
    StoreVerification,
    ArtifactError,
> {
    match chain::chain_fault(c, true) {
        Some(error) => Err(ArtifactError::Chain { error }),
        None => match open::current_view(c, limits) {
            Err(error) => Err(ArtifactError::Open { error }),
            Ok(s) => match artifact::retained_authority_fault(c, limits) {
                Some(e) => Err(e),
                None => artifact::committed(s.parts, s.fold, chain::chain_report(c, true)),
            },
        },
    }
}

impl Store {
    /// What closing this store needs next. Publishing and cutting bring it closer; once the log is
    /// removed, one file holds the store.
    pub fn close(&self) -> (r: Result<CloseStep, RequiresReopen>)
        ensures
            r == (if self@.requires_reopen {
                Err::<CloseStep, RequiresReopen>(RequiresReopen)
            } else {
                Ok(close_step(self@))
            }),
    {
        if self.requires_reopen {
            return Err(RequiresReopen);
        }
        if self.mem.len() > 0 {
            return Ok(CloseStep::Publish);
        }
        if self.unsynced {
            return Ok(CloseStep::Acknowledge);
        }
        if self.wal.frame_count() != 0 {
            return Ok(CloseStep::CutLog);
        }
        Ok(CloseStep::RemoveLog)
    }

    /// The container's state was made durable.
    pub fn acknowledged(&mut self)
        requires
            engine::store_ok(old(self)@),
        ensures
            engine::store_ok(final(self)@),
            final(self)@ == (StoreView { unsynced: false, ..old(self)@ }),
    {
        self.unsynced = false;
    }

    /// The log was cut: everything in it is published, and the container's state is durable.
    pub fn log_cut(&mut self)
        requires
            engine::store_ok(old(self)@),
            close_step(old(self)@) == CloseStep::CutLog,
        ensures
            engine::store_ok(final(self)@),
            log_cut_outcome(old(self)@, final(self)@),
            close_step(final(self)@) == CloseStep::RemoveLog,
    {
        self.wal.truncate();
    }

    /// What the host does next so that everything accepted so far survives. A frame can depend on
    /// the manifest revision the writer is at, so the container's state comes before the log.
    pub fn sync(&self) -> (r: Result<SyncStep<'_>, RequiresReopen>)
        ensures
            match r {
                Err(_) => self@.requires_reopen,
                Ok(SyncStep::Acknowledge) => !self@.requires_reopen && self@.unsynced,
                Ok(SyncStep::Write { at, unwritten }) => {
                    &&& !self@.requires_reopen
                    &&& !self@.unsynced
                    &&& at == self@.wal.written()
                    &&& unwritten@ == self@.wal.buffered()
                },
            },
    {
        if self.requires_reopen {
            return Err(RequiresReopen);
        }
        if self.unsynced {
            return Ok(SyncStep::Acknowledge);
        }
        let (at, unwritten) = self.wal.unflushed();
        Ok(SyncStep::Write { at, unwritten })
    }

    /// What [`Store::sync`] asked to write is durable.
    pub fn synced(&mut self)
        requires
            engine::store_ok(old(self)@),
            !old(self)@.unsynced,
        ensures
            engine::store_ok(final(self)@),
            final(self)@ == (StoreView { wal: final(self)@.wal, ..old(self)@ }),
            final(self)@.wal.written() == old(self)@.wal.written() + old(
                self,
            )@.wal.buffered().len(),
            final(self)@.wal.buffered() == Seq::<u8>::empty(),
            final(self)@.wal.frames() == old(self)@.wal.frames(),
            final(self)@.wal.limits() == old(self)@.wal.limits(),
    {
        self.wal.flushed();
    }

    /// Verify the published state: the retained chain, every part, every dictionary and every live
    /// value. What was accepted and not published is not in it.
    pub fn verify(&self, c: &Container) -> (r: Result<StoreVerification, ArtifactError>)
        ensures
            r == verified(c@, self@.read_limits),
    {
        let report = match chain::verify_chain_file(c) {
            Ok(report) => report,
            Err(error) => {
                return Err(ArtifactError::Chain { error });
            },
        };
        let selected = match open::open_read_container_source(c, self.read_limits) {
            Ok(s) => s,
            Err(error) => {
                return Err(ArtifactError::Open { error });
            },
        };
        match chain::read_authority(c) {
            Ok(Some((_, current))) => {
                if let Err(e) = artifact::verify_retained_piece_dictionaries(
                    c,
                    &current,
                    self.read_limits,
                ) {
                    return Err(e);
                }
            },
            _ => {},
        }
        artifact::verify_committed_store(&selected.parts, &selected.fold, report)
    }

    /// Bytes in the log, written out or not.
    pub fn wal_bytes(&self) -> (r: u64)
        requires
            engine::store_base(self@),
        ensures
            r == self@.wal.written() + self@.wal.buffered().len(),
    {
        self.wal.bytes()
    }

    /// How many pieces the deduplication window holds.
    pub fn dedup_window_len(&self) -> (r: usize)
        ensures
            r == self@.writer.window.len(),
    {
        self.writer.window.len()
    }

    /// The selected authority. Revision zero stands for the origin.
    pub fn manifest(&self) -> (r: &Manifest)
        ensures
            r@ == self@.manifest,
    {
        &self.manifest
    }

    /// The fold, with what was staged since the last publication.
    pub fn fold(&self) -> (r: &Fold)
        ensures
            r@ == self@.writer.fold,
    {
        &self.writer.fold
    }
}

// ---------------------------------------------------------------------------------------------
// Staging names.
// ---------------------------------------------------------------------------------------------
/// A name followed by a marker, a process and a serial number.
pub open spec fn staging_name(name: Seq<u8>, marker: Seq<u8>, process: u32, serial: u64) -> Seq<u8> {
    name + marker + text::decimal(process as nat) + seq![45u8] + text::decimal(serial as nat)
}

proof fn lemma_staging_name(name: Seq<u8>, marker: Seq<u8>, process: u32, serial: u64)
    ensures
        debris::instance_of(name, staging_name(name, marker, process, serial), marker),
{
    let p = text::decimal(process as nat);
    let s = text::decimal(serial as nat);
    let all = staging_name(name, marker, process, serial);
    let rest = marker + p + seq![45u8] + s;
    let tail = p + seq![45u8] + s;
    names::lemma_decimal_value(process as nat);
    names::lemma_decimal_value(serial as nat);
    text::lemma_decimal_digits(process as nat);
    text::lemma_decimal_digits(serial as nat);
    assert(all.subrange(0, name.len() as int) =~= name);
    assert(all.subrange(name.len() as int, all.len() as int) =~= rest);
    assert(rest.subrange(0, marker.len() as int) =~= marker);
    assert(rest.subrange(marker.len() as int, rest.len() as int) =~= tail);
    let d = p.len() as int;
    assert(tail.take(d) =~= p);
    assert(tail.skip(d + 1) =~= s);
    assert(debris::splits_at(tail, d));
}

/// A name to stage a file under. Whoever finds it later recognizes what it was staged for.
pub fn staging_path(name: &[u8], marker: &str, process: u32, serial: u64) -> (r: Vec<u8>)
    ensures
        r@ == staging_name(name@, encode_utf8(marker@), process, serial),
        debris::instance_of(name@, r@, encode_utf8(marker@)),
{
    let mut out: Vec<u8> = Vec::new();
    bytes::append_bytes(&mut out, name);
    bytes::append_bytes(&mut out, marker.as_bytes());
    let p = text::decimal_bytes(process as u64);
    bytes::append_bytes(&mut out, p.as_slice());
    out.push(45);
    let s = text::decimal_bytes(serial);
    bytes::append_bytes(&mut out, s.as_slice());
    proof {
        lemma_staging_name(name@, encode_utf8(marker@), process, serial);
        assert(out@ =~= staging_name(name@, encode_utf8(marker@), process, serial));
    }
    out
}

/// Where a backup is staged.
pub fn backup_staging_path(out: &[u8], process: u32, serial: u64) -> (r: Vec<u8>)
    ensures
        r@ == staging_name(out@, encode_utf8(".backing-up-"@), process, serial),
        out@.len() > 0 ==> debris::reserved(r@),
{
    let r = staging_path(out, ".backing-up-", process, serial);
    proof {
        if out@.len() > 0 {
            debris::lemma_protocol_names_reserved(out@, r@);
        }
    }
    r
}

/// Where a restore is staged.
pub fn restore_staging_path(dst: &[u8], process: u32, serial: u64) -> (r: Vec<u8>)
    ensures
        r@ == staging_name(dst@, encode_utf8(".restoring-"@), process, serial),
        dst@.len() > 0 ==> debris::reserved(r@),
{
    let r = staging_path(dst, ".restoring-", process, serial);
    proof {
        if dst@.len() > 0 {
            debris::lemma_protocol_names_reserved(dst@, r@);
        }
    }
    r
}

/// Where a file is created whose name is published later.
pub fn temp_name_for(path: &[u8], process: u32, serial: u64) -> (r: Vec<u8>)
    ensures
        r@ == staging_name(path@, encode_utf8(".publish-"@), process, serial),
        path@.len() > 0 ==> debris::reserved(r@),
{
    let r = staging_path(path, ".publish-", process, serial);
    proof {
        if path@.len() > 0 {
            debris::lemma_protocol_names_reserved(path@, r@);
        }
    }
    r
}

} // verus!
