//! Whole lives of stores: written, published, crashed, merged, refolded, erased, punched, backed up.

use turndb::container::{Container, Member};
use turndb::fold::{Block, Fold, FoldError, Loc};
use turndb::part::{Part, ReadError, Row};
use turndb::read_limits::{ReadAdmissionError, ReadLimits};
use turndb::store::admission::{IdentifierKind, Span, WriteAdmissionError, WriteLimits};
use turndb::store::arrival::admit_anchor;
use turndb::store::artifact::{self, ArtifactError, CandidateError};
use turndb::store::backup::{
    backup_container_copy, install_restore, restore_file, restore_file_with_control,
    restore_file_with_limits, stage_restore, BackupError, RestoreControl, RestoreError,
};
use turndb::store::carve::Batch;
use turndb::store::chain::{self, ChainError};
use turndb::store::checksum::{verified_punched_fold_members, MembersError, PunchedError};
use turndb::store::compact::{CompactionBudget, CompactionError};
use turndb::store::container_store::{prepare, settle, NoManifest, PrepareStep, SettleStep};
use turndb::store::engine::{Store, StoreError};
use turndb::store::erase::ErasureStep;
use turndb::store::footprint::{FootprintError, MemberLayout, SectionRange};
use turndb::store::lifecycle::{CloseStep, RequiresReopen, SyncStep};
use turndb::store::liveness::live_fold_pieces;
use turndb::store::manifest::{
    DecodedManifest, FoldTail, Manifest, ManifestError, MAX_MANIFEST_BYTES,
};
use turndb::store::names::{segment_member, sidecar_member};
use turndb::store::open::{
    open_fold_from_container, open_read_container, open_read_container_at,
    open_read_container_source, open_read_container_with_limits, open_read_file,
    open_read_file_with_limits, FoldOpenError, OpenError,
};
use turndb::store::promote::{
    adopt_promotion, promote_manifest_file, promote_manifest_file_with_limits_and_control,
    ManifestPromotionError, ManifestPromotionOptions, ManifestPromotionReport,
};
use turndb::store::commit::CommitOutcome;
use turndb::store::publish::{EncodedPart, FlushStep, PartPlan, PublishError};
use turndb::store::punch::LivenessError;
use turndb::store::read::{record_exists, visibility};
use turndb::store::recover::{OpenStoreError, ReplayError, StoreOptions};
use turndb::store::refold::{RefoldError, RefoldStats};
use turndb::store::scan::RowScan;
use turndb::store::source::{VerifyError, VerifyUnit};
use turndb::store::source_run::{verify_source, SourceVerifier};
use turndb::store::space::HostFigures;
use turndb::types::{AttrValue, Content, ContentHash, ContentOp, PieceHash, Record, BODY_CONTENT};

const NAME: &[u8] = b"main.turndb";
const HEADER: usize = 48;
const TARGET: u32 = 64;

/// A host with its file in memory: one container, one log, one writer.
struct Host {
    c: Container,
    log: Vec<u8>,
    s: Store,
}

fn empty() -> Container {
    Container { seq: 0, members: Vec::new() }
}

fn copy(c: &Container) -> Container {
    Container { seq: c.seq, members: c.members.iter().map(Member::clone).collect() }
}

/// Lay blocks out in segments of at most `per` blocks each, and say where the fold ends.
fn lay_out(c: &mut Container, generation: u32, blocks: &[Block], per: usize) -> FoldTail {
    let mut seg = 0u32;
    let mut at = 0usize;
    loop {
        let stop = (at + per).min(blocks.len());
        let mut bytes = vec![seg as u8; HEADER];
        let mut decoded = Vec::new();
        for b in &blocks[at..stop] {
            bytes.extend_from_slice(&(b.bytes.len() as u32).to_le_bytes());
            bytes.extend_from_slice(&b.bytes);
            decoded.push(Block { segment: seg, end: bytes.len() as u64, bytes: b.bytes.clone() });
        }
        let off = bytes.len() as u32;
        c.put(Member {
            name: segment_member(generation, seg),
            checksum: crc32fast::hash(&bytes),
            bytes,
            manifest: None,
            part: None,
            blocks: Some(decoded),
        });
        at = stop;
        if at >= blocks.len() {
            return FoldTail { seg, off };
        }
        seg += 1;
    }
}

fn json(m: &Manifest) -> Vec<u8> {
    format!("{m:?}").into_bytes()
}

fn encoded(plan: &PartPlan) -> EncodedPart {
    let bytes = format!("{:?}{:?}{}", plan.rows, plan.pieces, plan.member).into_bytes();
    EncodedPart { section_bytes: bytes.len() as u64, bytes, sections: 3 }
}

impl Host {
    fn create() -> Host {
        Host::reopen(empty(), Vec::new())
    }

    fn reopen(c: Container, mut log: Vec<u8>) -> Host {
        let (s, cut) = Store::open_file(NAME, &c, &log, TARGET).expect("a coherent store opens");
        if cut {
            let state = turndb::store::wal::Wal::replay_state_with_limits(
                &log,
                &ReadLimits::default(),
            )
            .unwrap();
            log.truncate(state.valid_bytes as usize);
        }
        Host { c, log, s }
    }

    /// What a crash right after a synchronization leaves.
    fn crash(mut self) -> Host {
        self.sync();
        Host::reopen(self.c, self.log)
    }

    fn sync(&mut self) {
        loop {
            match self.s.sync().unwrap() {
                SyncStep::Acknowledge => {}
                SyncStep::Write { at, unwritten } => {
                    assert_eq!(at as usize, self.log.len());
                    self.log.extend_from_slice(unwritten);
                    break;
                }
            }
            self.s.acknowledged();
        }
        self.s.synced();
    }

    fn put(&mut self, id: &str, body: &[u8]) {
        self.s.put(id, &[Span::Piece(body)], Vec::new()).unwrap();
    }

    fn get(&self, id: &str) -> Option<Vec<u8>> {
        self.s.reconstruct(id).unwrap()
    }

    fn fold(&mut self) -> FoldTail {
        let blocks: Vec<Block> = self.s.writer.fold.blocks.iter().map(Block::clone).collect();
        lay_out(&mut self.c, self.s.manifest.fold_gen, &blocks, 3)
    }

    /// Publish a plan whose flip ends in a given way.
    fn publish_as(&mut self, plan: PartPlan, outcome: CommitOutcome) -> Result<(), PublishError> {
        let blocks: Vec<Block> = self.s.writer.fold.blocks.iter().map(Block::clone).collect();
        let mut laid = copy(&self.c);
        let tail = lay_out(&mut laid, self.s.manifest.fold_gen, &blocks, 3);
        let e = encoded(&plan);
        let m = self.s.prepare(&laid, &plan, &e.bytes, tail)?;
        let text = json(&m);
        let (next, staged) = self.s.stage(&laid, plan, e, m, &text)?;
        if outcome != CommitOutcome::NotSelected {
            self.c = next;
            self.c.seq += 1;
        }
        let named = self.s.adopt(staged, outcome)?;
        assert!(self.c.find(&named.member).is_some());
        Ok(())
    }

    fn publish(&mut self, plan: PartPlan) -> Result<(), PublishError> {
        self.publish_as(plan, CommitOutcome::Committed)
    }

    fn plan(&mut self) -> PartPlan {
        match self.s.plan_flush().unwrap() {
            FlushStep::Publish { plan } => plan,
            _ => panic!("something is staged"),
        }
    }

    /// Do what a flush does once nothing is staged.
    fn settle(&mut self) {
        loop {
            match self.s.plan_flush().unwrap() {
                FlushStep::Publish { .. } => panic!("nothing is staged"),
                FlushStep::Acknowledge => self.s.acknowledged(),
                FlushStep::CutLog => {
                    self.log.clear();
                    self.s.log_cut();
                }
                FlushStep::Settled => break,
            }
        }
    }

    fn flush(&mut self) {
        self.sync();
        if let FlushStep::Publish { plan } = self.s.plan_flush().unwrap() {
            self.publish(plan).unwrap();
        }
        self.settle();
    }

    fn merge(&mut self, lo: usize, len: usize) -> bool {
        match self.s.plan_merge(lo, len).unwrap() {
            Some(plan) => {
                self.publish(plan).unwrap();
                true
            }
            None => false,
        }
    }

    fn refold_as(&mut self, outcome: CommitOutcome) -> Option<Result<RefoldStats, PublishError>> {
        let plan = self.s.plan_refold().unwrap()?;
        let blocks: Vec<Block> = plan.writer.fold.blocks.iter().map(Block::clone).collect();
        let mut laid = copy(&self.c);
        let tail = lay_out(&mut laid, plan.generation, &blocks, 3);
        let parts: Vec<EncodedPart> = plan.parts.iter().map(encoded).collect();
        let m = self.s.prepare_refold(&laid, &plan, &parts, tail).unwrap();
        let text = json(&m);
        let before: u64 = self.s.writer.fold.blocks.iter().map(|b| b.bytes.len() as u64).sum();
        let after: u64 = blocks.iter().map(|b| b.bytes.len() as u64).sum();
        let (next, staged) = self.s.stage_refold(&laid, plan, parts, m, &text).unwrap();
        if outcome != CommitOutcome::NotSelected {
            self.c = next;
            self.c.seq += 1;
        }
        Some(self.s.refold(staged, outcome, before, after))
    }

    fn refold(&mut self) -> Option<RefoldStats> {
        self.refold_as(CommitOutcome::Committed).map(|r| r.unwrap())
    }

    fn promote(
        &mut self,
        options: ManifestPromotionOptions,
    ) -> Result<ManifestPromotionReport, ManifestPromotionError> {
        let staged = promote_manifest_file(NAME, &self.c, options)?;
        adopt_promotion(&mut self.c, staged, CommitOutcome::Committed)
    }

    fn ids(&self) -> Vec<String> {
        self.s.scan_ids(None, None, 100, false).unwrap()
    }

    fn check(&self) {
        let limits = ReadLimits::default();
        assert_eq!(chain::verify_chain_file(&self.c).map(|_| ()), Ok(()));
        assert!(artifact::verify_container_artifact(&self.c, limits).is_ok());
        let r = open_read_container_source(&self.c, limits).unwrap();
        assert_eq!(r.parts, self.s.parts);
        assert_eq!(r.manifest, self.s.manifest);
    }
}

#[test]
fn a_read_gives_back_what_was_put() {
    let mut h = Host::create();
    h.s.put(
        "trace:1#input",
        &[Span::Lit(b"["), Span::Piece(b"hello"), Span::Lit(b","), Span::Piece(b"hello"), Span::Lit(b"]")],
        vec![("k".into(), AttrValue::Int(1)), ("k".into(), AttrValue::Null)],
    )
    .unwrap();
    assert_eq!(h.get("trace:1#input"), Some(b"[hello,hello]".to_vec()));
    let record = h.s.get("trace:1#input").unwrap();
    assert_eq!(
        record.attrs,
        vec![("k".to_string(), AttrValue::Int(1)), ("k".to_string(), AttrValue::Null)]
    );
    assert_eq!(record.contents[0].identity, Some(ContentHash::of(b"[hello,hello]")));
    assert_eq!(h.get("absent"), None);
    // One piece is stored once however often it is used.
    assert_eq!(h.s.dedup_window_len(), 1);
    h.flush();
    assert_eq!(h.get("trace:1#input"), Some(b"[hello,hello]".to_vec()));
    assert_eq!(h.s.dedup_window_len(), 0);
    h.check();
}

#[test]
fn a_later_put_or_deletion_decides_what_shows() {
    let mut h = Host::create();
    h.put("a", b"one");
    h.put("b", b"two");
    h.flush();
    h.put("a", b"three");
    assert_eq!(h.get("a"), Some(b"three".to_vec()));
    h.s.delete("b").unwrap();
    assert_eq!(h.get("b"), None);
    assert_eq!(h.ids(), ["a"]);
    h.flush();
    assert_eq!(h.get("a"), Some(b"three".to_vec()));
    assert_eq!(h.get("b"), None);
    assert_eq!(h.s.part_count(), 2);
    h.check();
}

#[test]
fn a_crash_keeps_everything_acknowledged() {
    let mut h = Host::create();
    h.put("a", b"committed");
    h.flush();
    h.put("b", b"accepted");
    h.s.delete("a").unwrap();
    let mem = h.s.memtable_len();
    let h = h.crash();
    assert_eq!(h.s.memtable_len(), mem);
    assert_eq!(h.get("b"), Some(b"accepted".to_vec()));
    assert_eq!(h.get("a"), None);
    // Without the synchronization the accepted rows are gone, and the published ones are not.
    let h = Host::reopen(h.c, Vec::new());
    assert_eq!(h.get("a"), Some(b"committed".to_vec()));
    assert_eq!(h.get("b"), None);
}

#[test]
fn a_batch_is_applied_whole_and_survives_whole() {
    let mut h = Host::create();
    h.put("gone", b"x");
    let mut batch = Batch::new();
    batch.put("a", &[Span::Piece(b"first")], Vec::new());
    batch.put("a", &[Span::Piece(b"second")], Vec::new());
    batch.delete("gone");
    h.s.apply(&batch).unwrap();
    assert_eq!(h.get("a"), Some(b"second".to_vec()));
    assert_eq!(h.get("gone"), None);
    h.sync();
    let whole = h.log.clone();
    for cut in 0..whole.len() {
        let r = Host::reopen(empty(), whole[..cut].to_vec());
        assert_eq!(r.get("a"), None, "no prefix of a batch shows");
    }
    let r = Host::reopen(empty(), whole);
    assert_eq!(r.get("a"), Some(b"second".to_vec()));
    assert_eq!(r.get("gone"), None);
}

#[test]
fn a_frame_that_was_published_is_not_pending_again() {
    let mut h = Host::create();
    h.put("a", b"one");
    h.sync();
    let log = h.log.clone();
    h.flush();
    // The log was published and never cut: its frames are integrity input and nothing more.
    let r = Host::reopen(h.c, log);
    assert_eq!(r.s.memtable_len(), 0);
    assert_eq!(r.get("a"), Some(b"one".to_vec()));
    assert_eq!(r.s.close(), Ok(CloseStep::CutLog));
}

#[test]
fn closing_publishes_cuts_and_removes() {
    let mut h = Host::create();
    h.put("a", b"one");
    assert_eq!(h.s.close(), Ok(CloseStep::Publish));
    h.sync();
    let log = h.log.clone();
    h.flush();
    assert_eq!(h.s.close(), Ok(CloseStep::RemoveLog));
    let mut r = Host::reopen(h.c, log);
    assert_eq!(r.s.close(), Ok(CloseStep::CutLog));
    r.s.log_cut();
    assert_eq!(r.s.close(), Ok(CloseStep::RemoveLog));
    assert_eq!(r.s.wal_bytes(), 0);
}

#[test]
fn merging_changes_nothing_that_is_shown() {
    let mut h = Host::create();
    for (id, body) in [("a", b"1"), ("b", b"2"), ("a", b"3"), ("c", b"4")] {
        h.put(id, body);
        h.flush();
    }
    h.s.delete("b").unwrap();
    h.flush();
    assert_eq!(h.s.part_count(), 5);
    let fold: Vec<Vec<u8>> = h.s.fold().blocks.iter().map(|b| b.bytes.clone()).collect();
    assert!(h.merge(1, 2));
    assert_eq!(h.s.part_count(), 4);
    assert!(h.merge(0, 4));
    assert_eq!(h.s.part_count(), 1);
    assert_eq!(h.ids(), ["a", "c"]);
    assert_eq!(h.get("a"), Some(b"3".to_vec()));
    assert_eq!(h.get("b"), None);
    // A total merge drops tombstones, and no merge touches content.
    assert_eq!(h.s.parts()[0].rows.len(), 2);
    assert_eq!(h.s.parts()[0].seq_lo, 1);
    assert_eq!(h.s.parts()[0].seq_hi, 5);
    let after: Vec<Vec<u8>> = h.s.fold().blocks.iter().map(|b| b.bytes.clone()).collect();
    assert_eq!(after, fold);
    h.check();
    let r = Host::reopen(h.c, h.log);
    assert_eq!(r.get("c"), Some(b"4".to_vec()));
}

#[test]
fn the_retained_window_holds_four_revisions_and_their_parts() {
    let mut h = Host::create();
    for n in 0..7u8 {
        h.put(&format!("id:{n}"), &[n; 5]);
        h.flush();
        h.check();
    }
    assert_eq!(chain::retained_commits_file(&h.c), Ok(vec![4, 5, 6, 7]));
    let old = open_read_container_at(NAME, &h.c, 5).unwrap();
    assert_eq!(old.part_count(), 5);
    assert!(old.get("id:5").is_none());
    assert_eq!(old.reconstruct("id:4").unwrap(), Some(vec![4; 5]));
    assert!(open_read_container_at(NAME, &h.c, 3).is_err());
}

#[test]
fn a_refold_drops_what_nothing_shows() {
    let mut h = Host::create();
    h.put("keep", b"kept content");
    h.put("dead", b"content of a deleted record");
    h.flush();
    h.s.delete("dead").unwrap();
    h.flush();
    let before: usize = h.s.fold().blocks.iter().map(|b| b.bytes.len()).sum();
    let stats = h.refold().unwrap();
    let after: usize = h.s.fold().blocks.iter().map(|b| b.bytes.len()).sum();
    assert!(after < before);
    assert_eq!(stats.records_kept, 1);
    assert_eq!(stats.records_dropped, 2);
    assert_eq!(h.s.ids().len(), stats.records_kept);
    assert_eq!(stats.tombstones_dropped, 1);
    assert_eq!((stats.pieces_kept, stats.pieces_dropped), (1, 1));
    assert_eq!(stats.bytes_reclaimed(), (before - after) as u64);
    assert_eq!(h.s.manifest().fold_gen, 1);
    assert_eq!(h.get("keep"), Some(b"kept content".to_vec()));
    assert_eq!(h.get("dead"), None);
    // The history is still the whole one, though a part of it went.
    let parts = h.s.parts();
    assert_eq!((parts[0].seq_lo, parts[parts.len() - 1].seq_hi), (1, 2));
    assert_eq!(chain::retained_commits_file(&h.c).unwrap().len(), 1);
    h.check();
    assert!(Host::create().refold().is_none());
    let mut dirty = Host::create();
    dirty.put("a", b"x");
    assert!(matches!(dirty.s.plan_refold(), Err(RefoldError::UnflushedMemtable)));
}

#[test]
fn an_erased_record_is_nowhere() {
    let mut h = Host::create();
    h.put("a", b"secret");
    h.put("b", b"other");
    h.flush();
    h.put("a", b"secret again");
    h.flush();
    let ids = ["a".to_string(), "a".to_string(), "never".to_string()];
    let plan = h.s.erase_ids(&ids).unwrap();
    assert_eq!((plan.requested, plan.tombstoned, plan.absent), (3, 1, 2));
    let mut step = plan.first_step();
    let mut seen = Vec::new();
    let mut refolded = None;
    while step != ErasureStep::Done {
        seen.push(step);
        match step {
            ErasureStep::Apply => h.s.apply(&plan.batch).unwrap(),
            ErasureStep::Sync => h.sync(),
            ErasureStep::Flush => h.flush(),
            ErasureStep::MergeAll => {
                let n = h.s.part_count();
                assert!(h.merge(0, n));
            }
            ErasureStep::Refold => refolded = h.refold(),
            ErasureStep::Done => {}
        }
        step = h.s.next_erasure_step(step);
    }
    assert_eq!(
        seen,
        [
            ErasureStep::Apply,
            ErasureStep::Sync,
            ErasureStep::Flush,
            ErasureStep::MergeAll,
            ErasureStep::Refold
        ]
    );
    let stats = h.s.erased(&plan, refolded);
    assert_eq!((stats.requested, stats.tombstoned, stats.absent), (3, 1, 2));
    assert_eq!(stats.remaining, 1);
    assert_eq!(stats.refold, refolded);
    assert_eq!(refolded.unwrap().records_kept, 1);
    assert_eq!(chain::retained_commits_file(&h.c), Ok(vec![h.s.manifest().commit]));
    assert_eq!(h.get("a"), None);
    assert_eq!(h.get("b"), Some(b"other".to_vec()));
    assert!(h.s.parts().iter().all(|p| p.rows.iter().all(|r| r.id != "a")));
    assert!(h.s.fold().blocks.iter().all(|b| !b.bytes.windows(6).any(|w| w == b"secret")));
    let nothing = h.s.erase_ids(&["gone".to_string()]).unwrap();
    assert_eq!(nothing.first_step(), ErasureStep::Done);
    let stats = h.s.erased(&nothing, None);
    assert_eq!((stats.tombstoned, stats.absent, stats.remaining), (0, 1, 1));
    assert_eq!(stats.refold, None);
    h.check();
}

/// A store of three segments, in which one block of the first has no record any more.
fn punched() -> Host {
    let mut h = Host::create();
    h.put("dead", &[1; 60]);
    h.flush();
    for n in 0..8u8 {
        h.put(&format!("live:{n}"), &[10 + n; 60]);
    }
    h.flush();
    h.s.delete("dead").unwrap();
    h.flush();
    let n = h.s.part_count();
    assert!(h.merge(0, n));
    let plan = h.s.plan_punch().unwrap();
    assert_eq!(plan.dead, [0]);
    assert!(plan.declare);
    let tail = h.fold();
    let m = h.s.prepare_punch(&h.c, &plan, tail).unwrap();
    let text = json(&m);
    let next = h.s.stage_punch(&h.c, &m, &text).unwrap();
    h.c = next;
    h.c.seq += 1;
    h.s.adopt_punch(m, CommitOutcome::Committed).unwrap();
    let segments: Vec<u32> = (0..9).map(|b| b / 3).collect();
    let (targets, stats) = h.s.punch_unreferenced(&plan.dead, &segments, 2);
    assert_eq!(targets, [0]);
    assert_eq!((stats.blocks_examined, stats.blocks_punched), (1, 1));
    h
}

#[test]
fn punched_crc_exemption_names_only_segments_that_contain_declared_blocks() {
    let h = punched();
    let segments: Vec<&str> = h
        .c
        .members
        .iter()
        .map(|m| m.name.as_str())
        .filter(|name| name.ends_with(".fold"))
        .collect();
    assert_eq!(segments.len(), 3);
    let ignored = verified_punched_fold_members(&h.c, ReadLimits::default()).unwrap();
    assert!(!ignored.is_empty(), "at least one segment contains a punched block");
    assert!(
        ignored.iter().all(|name| segments.contains(&name.as_str()))
            && ignored.len() < segments.len(),
        "unaffected segments must retain their outer checksum"
    );
    assert_eq!(ignored, [segment_member(0, 0)]);
    let whole = Host::create();
    assert!(verified_punched_fold_members(&whole.c, ReadLimits::default()).unwrap().is_empty());
}

#[test]
fn giving_up_dead_blocks_keeps_every_value() {
    let h = punched();
    for n in 0..8u8 {
        assert_eq!(h.get(&format!("live:{n}")), Some(vec![10 + n; 60]));
    }
    assert_eq!(h.s.manifest().punched, [(0, 0)]);
    assert!(matches!(
        h.s.fold().read_verified(Loc { block_id: 0, in_off: 0, raw: 60 }, &PieceHash::of(&[1; 60])),
        Err(FoldError::Erased { block_id: 0 })
    ));
    h.check();
    let stored = vec![64u64; 9];
    let l = h.s.content_liveness(&stored).unwrap();
    assert_eq!((l.live_pieces, l.live_logical_bytes), (8, 480));
    assert_eq!(l.live_blocks.blocks, 8);
    // What was given up before is taken up again by the next run.
    assert_eq!(h.s.plan_punch().unwrap().dead, [0]);
    assert!(!h.s.plan_punch().unwrap().declare);
    let mut dirty = Host::create();
    dirty.put("a", b"x");
    assert!(matches!(
        dirty.s.content_liveness(&[0; 1]),
        Err(LivenessError::UnflushedMemtable)
    ));
}

#[test]
fn a_backup_verifies_and_reads_the_same() {
    let mut h = Host::create();
    for n in 0..6u8 {
        h.put(&format!("id:{n}"), &[n; 40]);
        h.flush();
    }
    assert_eq!(h.merge(0, 3), true);
    h.put("pending", b"x");
    assert_eq!(h.s.backup(&h.c, false).map(|_| ()).err(), Some(BackupError::Pending));
    h.flush();
    let (copy, stats) = h.s.backup(&h.c, false).unwrap();
    assert_eq!(stats.commit, h.s.manifest().commit);
    assert_eq!(stats.members, copy.members.len());
    assert!(copy.members.len() < h.c.members.len());
    assert!(copy.members.iter().all(|m| !m.name.starts_with("MANIFEST.")));
    let limits = ReadLimits::default();
    let (a, b) = (
        open_read_container_source(&h.c, limits).unwrap(),
        open_read_container_source(&copy, limits).unwrap(),
    );
    assert_eq!(a.parts, b.parts);
    assert_eq!(a.fold, b.fold);
    assert_eq!(a.manifest, b.manifest);
    let report = artifact::verify_container_artifact(&copy, limits).unwrap();
    assert_eq!(report.commit, stats.commit);
    assert_eq!(report.bytes, stats.bytes);
    assert_eq!(report.store.chain.retained_manifests, 0);
    assert_eq!(report.store.records, 7);

    assert_eq!(
        h.s.backup(&h.c, true).map(|_| ()).err(),
        Some(BackupError::DestinationExists)
    );

    let mut placed = None;
    let restored = restore_file(b"snap.turndb", b"again.turndb", &copy, &mut placed).unwrap();
    assert_eq!((restored.members, restored.bytes), (stats.members, stats.bytes));
    assert_eq!(restored.commit, stats.commit);
    assert_eq!(placed.as_ref(), Some(&copy));
    // What has the name stays.
    let mut taken = Some(empty());
    assert_eq!(
        restore_file(b"snap.turndb", b"again.turndb", &copy, &mut taken),
        Err(RestoreError::DestinationExists)
    );
    assert_eq!(taken, Some(empty()));
    let mut none = None;
    assert_eq!(
        restore_file(b"snap.turndb.restoring-1-1", b"again.turndb", &copy, &mut none),
        Err(RestoreError::ReservedSource)
    );
    assert_eq!(
        restore_file(b"snap.turndb", b"again.turndb-wal", &copy, &mut none),
        Err(RestoreError::ReservedDestination)
    );
    let narrow = ReadLimits { max_directory_entries: 1, ..limits };
    assert!(matches!(
        restore_file_with_limits(b"a", b"b", &copy, &mut none, narrow),
        Err(RestoreError::Artifact { error: ArtifactError::Directory { .. } })
    ));
    // A member that fails its recorded checksum makes no store, and neither does a cancelled one.
    let mut damaged = Container {
        seq: copy.seq,
        members: copy.members.iter().map(Member::clone).collect(),
    };
    damaged.members[1].checksum ^= 1;
    let refused = ArtifactError::Members { error: MembersError::Checksum { index: 1 } };
    assert_eq!(
        restore_file(b"a", b"b", &damaged, &mut none),
        Err(RestoreError::Artifact { error: refused })
    );
    assert_eq!(admit_anchor(&damaged, limits), Err(refused));
    for (at_start, at_installation) in [(true, false), (false, true), (true, true)] {
        let control = RestoreControl { at_start, at_installation };
        assert_eq!(
            restore_file_with_control(b"a", b"b", &copy, &mut none, control),
            Err(RestoreError::Cancelled)
        );
    }
    assert_eq!(none, None);
    // A name that is taken while the copy is verified is left alone.
    let staged = stage_restore(b"a", b"b", &copy, false, limits, false).unwrap();
    assert_eq!(
        install_restore(staged, &mut taken, false),
        Err(RestoreError::DestinationExists)
    );
    // A writer goes on from a restored copy.
    let mut r = Host::reopen(copy, Vec::new());
    r.put("more", b"more");
    r.flush();
    r.check();
    assert_eq!(r.get("id:3"), Some(vec![3; 40]));
}

#[test]
fn a_backup_of_a_damaged_store_is_refused() {
    let mut h = Host::create();
    h.put("a", b"one");
    h.flush();
    let mut lost = Container { seq: h.c.seq, members: Vec::new() };
    for m in h.c.members.iter().filter(|m| !m.name.ends_with(".part")) {
        lost.put(m.clone());
    }
    let m = h.s.manifest();
    let limits = ReadLimits::default();
    assert_eq!(
        backup_container_copy(&lost, m, limits).map(|_| ()).err(),
        Some(BackupError::PartLost { index: 0 })
    );
    assert_eq!(
        backup_container_copy(&empty(), m, limits).map(|_| ()).err(),
        Some(BackupError::ManifestLost)
    );
    let origin = Host::create();
    let (copy, stats) = origin.s.backup(&origin.c, false).unwrap();
    assert!(copy.committed_is_empty_birth());
    assert_eq!((stats.members, stats.bytes, stats.commit), (0, 0, 0));
    let at = h.c.find("part-00000001.part").unwrap();
    h.c.members[at].bytes.push(0);
    assert!(matches!(
        h.s.backup(&h.c, false).map(|_| ()).err(),
        Some(BackupError::Artifact { error: ArtifactError::Chain { .. } })
    ));
}

#[test]
fn units_together_report_what_a_whole_verification_reports() {
    let mut h = punched();
    for n in 0..3u8 {
        h.put(&format!("late:{n}"), &[200 + n; 30]);
        h.flush();
    }
    let limits = ReadLimits::default();
    let whole = artifact::verify_container_artifact(&h.c, limits).unwrap();
    let copy = |c: &Container| Container {
        seq: c.seq,
        members: c.members.iter().map(Member::clone).collect(),
    };
    let report = verify_source(copy(&h.c), limits).unwrap();
    assert_eq!(report.members, whole.members);
    assert_eq!(report.member_bytes, whole.bytes);
    assert_eq!(report.commit, whole.commit);
    assert_eq!(report.store.chain, whole.store.chain);
    assert_eq!(report.store.records, whole.store.records);
    assert_eq!(report.store.content_values, whole.store.content_values);
    assert_eq!(report.store.content_bytes, whole.store.content_bytes);
    assert_eq!(report.store.part_sections, whole.store.part_sections);

    // Units run in any order that keeps windows in sequence, and again for nothing.
    let mut v = SourceVerifier::open(copy(&h.c), limits).unwrap();
    let total = v.units().len();
    assert_eq!(v.progress(), (0, total));
    assert!(matches!(v.report(), Err(VerifyError::Incomplete { done: 0, .. })));
    for i in (0..total).rev() {
        v.run(i).unwrap();
        v.run(i).unwrap();
    }
    assert_eq!(v.run(total), Err(VerifyError::NoUnit));
    assert_eq!(v.report().unwrap(), report);
    assert_eq!(v.commit(), whole.commit);
    assert!(v.units().iter().any(|u| u.kind() == "foldFrames"));

    // A segment whose block was given up has no checksum unit; any other damaged member fails.
    assert!(!v.units().iter().any(
        |u| matches!(u, VerifyUnit::MemberChecksum { member, .. } if *member == segment_member(0, 0))
    ));
    let exempt = h.c.find(&segment_member(0, 0)).unwrap();
    for i in 0..h.c.members.len() {
        let mut wrong = copy(&h.c);
        wrong.members[i].checksum ^= 1;
        let by_units = verify_source(copy(&wrong), limits);
        let at_once = artifact::verify_container_artifact(&wrong, limits);
        if i == exempt {
            assert_eq!(by_units, Ok(report));
            assert_eq!(at_once, Ok(whole));
        } else {
            assert_eq!(by_units, Err(VerifyError::Checksum));
            assert_eq!(
                at_once,
                Err(ArtifactError::Members { error: MembersError::Checksum { index: i } })
            );
        }
    }
    let mut damaged = copy(&h.c);
    let at = damaged.find("MANIFEST").unwrap();
    damaged.members[at].bytes[0] ^= 1;
    assert!(matches!(
        verify_source(damaged, limits),
        Err(VerifyError::Open { error: OpenError::Manifest { .. } })
    ));
}

#[test]
fn a_unit_says_which_bytes_of_the_file_it_reads() {
    let h = punched();
    let limits = ReadLimits::default();
    // Members lie one after the other from offset 1000, each in two extents a byte apart.
    let mut layout = Vec::new();
    let mut at = 1000u64;
    for m in &h.c.members {
        let len = m.bytes.len() as u64;
        let half = len / 2;
        layout.push(MemberLayout {
            extents: vec![(at, half), (at + half + 1, len - half)],
            sections: vec![
                SectionRange { name: "ids".into(), off: 0, stored: 4 },
                SectionRange { name: "pdict.0".into(), off: 4, stored: 6 },
                SectionRange { name: "con.body".into(), off: 10, stored: 2 },
            ],
        });
        at += len + 1;
    }
    let v = SourceVerifier::open(h.c, limits).unwrap();
    let mut pieces = 0u64;
    for (i, u) in v.units().iter().enumerate() {
        let ranges = v.footprint(&layout, i).unwrap();
        assert!(ranges.windows(2).all(|w| w[0].0 + w[0].1 < w[1].0), "apart and in order");
        match u {
            VerifyUnit::MemberChecksum { member, start, stop } => {
                let k = v.container.find(member).unwrap();
                let read: u64 = ranges.iter().map(|r| r.1).sum();
                assert_eq!(read, stop - start);
                assert_eq!(ranges[0].0, layout[k].extents[0].0);
            }
            VerifyUnit::PartSection { member, section } => {
                let k = v.container.find(member).unwrap();
                let s = &layout[k].sections[*section];
                assert_eq!(ranges, [(layout[k].extents[0].0 + s.off, s.stored)]);
            }
            VerifyUnit::PartPieces { .. } => {
                // The dictionary section, and the frames of the blocks that were not given up.
                let read: u64 = ranges.iter().map(|r| r.1).sum();
                assert!(read >= 6);
                pieces = read.max(pieces);
            }
            _ => {}
        }
    }
    assert_eq!(pieces, 6 + 8 * 64);
    assert_eq!(v.footprint(&layout, v.units().len()), Err(FootprintError::NoUnit));
    let bare: Vec<MemberLayout> = layout
        .iter()
        .map(|l| MemberLayout { extents: l.extents.clone(), sections: Vec::new() })
        .collect();
    let section = v
        .units()
        .iter()
        .position(|u| matches!(u, VerifyUnit::PartSection { .. }))
        .unwrap();
    assert_eq!(v.footprint(&bare, section), Err(FootprintError::NoSection));
}

#[test]
fn recovery_is_never_an_accidental_rollback() {
    let mut h = Host::create();
    for n in 0..3u8 {
        h.put(&format!("id:{n}"), &[n; 20]);
        h.flush();
    }
    let strict = ManifestPromotionOptions { max_rollback_commits: 0 };
    assert!(matches!(
        h.promote(strict),
        Err(ManifestPromotionError::Healthy)
    ));
    // The current manifest is damaged: the newest retained revision takes its place.
    let at = h.c.find("MANIFEST").unwrap();
    h.c.members[at].bytes[0] ^= 1;
    assert!(open_read_container_source(&h.c, ReadLimits::default()).is_err());
    let report = h.promote(strict).unwrap();
    assert_eq!((report.commit, report.rollback_commits), (3, 0));
    let mut h = Host::reopen(h.c, Vec::new());
    assert_eq!(h.get("id:2"), Some(vec![2; 20]));

    // The newest retained revision is damaged too: going further back has to be allowed.
    for name in ["MANIFEST", "MANIFEST.00000003"] {
        let at = h.c.find(name).unwrap();
        h.c.members[at].bytes[0] ^= 1;
    }
    assert!(matches!(
        h.promote(strict),
        Err(ManifestPromotionError::RollbackLimit { needed: 1, allowed: 0 })
    ));
    let loose = ManifestPromotionOptions { max_rollback_commits: 1 };
    let report = h.promote(loose).unwrap();
    assert_eq!((report.commit, report.rollback_commits), (2, 1));
    let h = Host::reopen(h.c, Vec::new());
    assert_eq!(h.get("id:1"), Some(vec![1; 20]));
    assert_eq!(h.get("id:2"), None);
    h.check();
}

#[test]
fn a_read_ceiling_is_no_damage_to_work_around() {
    let mut h = Host::create();
    for n in 0..3u8 {
        h.put(&format!("id:{n}"), &[n; 20]);
        h.flush();
    }
    let at = h.c.find("MANIFEST").unwrap();
    h.c.members[at].bytes[0] ^= 1;
    let far = ManifestPromotionOptions { max_rollback_commits: 9 };
    // Revision one has one block and would be admitted; the newest one decides nevertheless.
    let one = ReadLimits { max_fold_blocks: 1, ..ReadLimits::default() };
    let before = h.c.members.len();
    assert_eq!(
        promote_manifest_file_with_limits_and_control(NAME, &h.c, far, one).err(),
        Some(ManifestPromotionError::Admission {
            error: CandidateError::Fold {
                error: FoldOpenError::TooManyBlocks { actual: 3, allowed: 1 }
            }
        })
    );
    assert_eq!(h.c.members.len(), before);
    let staged =
        promote_manifest_file_with_limits_and_control(NAME, &h.c, far, ReadLimits::default());
    assert_eq!(staged.unwrap().report.commit, 3);
}

#[test]
fn a_broken_chain_is_refused() {
    let mut h = Host::create();
    for n in 0..3u8 {
        h.put(&format!("id:{n}"), &[n; 20]);
        h.flush();
    }
    let without = |gone: &str| Container {
        seq: h.c.seq,
        members: h.c.members.iter().filter(|m| m.name != gone).map(Member::clone).collect(),
    };
    assert_eq!(
        chain::verify_chain_file(&without("MANIFEST.00000002")).err(),
        Some(ChainError::Gap { commit: 3 })
    );
    assert!(matches!(
        chain::verify_chain_file(&without("part-00000001.part")).err(),
        Some(ChainError::Part { commit: 1, index: 0, .. })
    ));
    assert!(matches!(
        chain::verify_chain_file(&without("MANIFEST")).err(),
        Some(ChainError::Namespace { .. })
    ));
    assert!(matches!(
        Store::open_file(NAME, &without("MANIFEST.00000002"), &[], TARGET).err(),
        Some(OpenStoreError::Chain(ChainError::Gap { commit: 3 }))
    ));
    let mut stray = without("none");
    stray.put(Member {
        name: "stray".into(),
        bytes: Vec::new(),
        checksum: 0,
        manifest: None,
        part: None,
        blocks: None,
    });
    assert!(matches!(
        chain::verify_chain_file(&stray).err(),
        Some(ChainError::Namespace { .. })
    ));
}

#[test]
fn a_log_of_another_store_is_refused() {
    let mut h = Host::create();
    h.put("a", b"one");
    h.flush();
    h.put("b", b"two");
    h.sync();
    let log = h.log.clone();
    h.flush();
    h.put("c", b"three");
    h.flush();
    assert!(matches!(
        Store::open_file(NAME, &h.c, &log, TARGET).err(),
        Some(OpenStoreError::Replay(ReplayError::Sequence { found: 2, published: 3 }))
    ));
}

#[test]
fn writes_are_admitted_before_anything_is_folded() {
    let limits = WriteLimits {
        max_record_bytes: 300,
        max_batch_bytes: 1000,
        max_batch_records: 2,
        max_identifier_bytes: 8,
    };
    let (mut s, _) = Store::open_file_with_limits(NAME, &empty(), &[], TARGET, limits).unwrap();
    assert!(matches!(
        s.put("an-id-that-is-too-long", &[], Vec::new()),
        Err(StoreError::Write(_))
    ));
    assert!(matches!(s.put("big", &[Span::Piece(&[7; 400])], Vec::new()), Err(StoreError::Write(_))));
    assert!(matches!(s.put("", &[], Vec::new()), Err(StoreError::Write(_))));
    let mut batch = Batch::new();
    for id in ["a", "b", "c"] {
        batch.put(id, &[Span::Piece(b"x")], Vec::new());
    }
    assert!(matches!(s.apply(&batch), Err(StoreError::Write(_))));
    assert_eq!(s.fold().blocks.len(), 0);
    assert_eq!(s.wal_bytes(), 0);
    assert_eq!(s.memtable_len(), 0);
    s.put("a", &[Span::Piece(b"x")], Vec::new()).unwrap();
    assert_eq!(s.memtable_len(), 1);
}

#[test]
fn a_failed_publication_closes_the_writer() {
    let mut h = Host::create();
    h.put("a", b"one");
    h.sync();
    let plan = h.plan();
    let e = encoded(&plan);
    // A fold that ends inside a segment header is no revision.
    let tail = FoldTail { seg: 0, off: 1 };
    assert!(matches!(
        h.s.prepare(&h.c, &plan, &e.bytes, tail),
        Err(PublishError::Manifest { .. })
    ));
    assert!(matches!(h.s.put("b", &[], Vec::new()), Err(StoreError::RequiresReopen)));
    assert_eq!(h.s.close(), Err(RequiresReopen));
    assert!(h.s.sync().is_err());
    assert_eq!(h.s.backup(&h.c, false).map(|_| ()).err(), Some(BackupError::RequiresReopen));
    let r = Host::reopen(h.c, h.log);
    assert_eq!(r.get("a"), Some(b"one".to_vec()));
}

#[test]
fn scans_resolve_each_id_once_and_in_order() {
    let mut h = Host::create();
    for n in 0..10u8 {
        h.put(&format!("id:{n}"), &[n]);
        if n % 3 == 0 {
            h.flush();
        }
    }
    h.s.delete("id:4").unwrap();
    h.put("id:2", b"new");
    assert_eq!(h.s.scan_ids(Some("id:2"), Some("id:6"), 9, false).unwrap(), ["id:2", "id:3", "id:5"]);
    assert_eq!(h.s.scan_ids(Some("id:2"), Some("id:6"), 2, true).unwrap(), ["id:5", "id:3"]);
    assert!(h.s.scan_ids(Some("b"), Some("a"), 1, false).is_err());
    let page = h
        .s
        .scan(RowScan {
            from: None,
            to: None,
            limit: 3,
            reverse: false,
            max_resolution_entries: 100,
            allow_oversized_group: false,
        })
        .unwrap();
    assert_eq!(page.rows.len(), 3);
    assert!(page.has_more);
    assert_eq!(page.resolved_through.as_deref(), Some("id:2"));
    assert_eq!(page.superseded_rows, 1);
    let mut all = h.ids();
    all.sort();
    assert_eq!(all, h.ids());
    assert_eq!(all.len(), 9);
}

#[test]
fn compaction_stays_within_its_budget() {
    let mut h = Host::create();
    for n in 0..4u8 {
        h.put(&format!("id:{n}"), &[n; 10]);
        h.flush();
    }
    let all = CompactionBudget { max_input_parts: 10, max_input_rows: 100, max_input_bytes: 1 << 20 };
    let plan = h.s.plan_compaction(&h.c, all).unwrap().unwrap();
    assert_eq!((plan.start_part, plan.input_parts, plan.input_rows), (0, 4, 4));
    let two = CompactionBudget { max_input_parts: 2, ..all };
    let plan = h.s.plan_compaction(&h.c, two).unwrap().unwrap();
    assert_eq!(plan.input_parts, 2);
    assert!(!plan.drops_tombstones);
    let one = CompactionBudget { max_input_parts: 1, ..all };
    assert!(h.s.plan_compaction(&h.c, one).is_err());
    assert!(one.validate().is_err());
    assert!(CompactionBudget { max_input_rows: 0, ..all }.validate().is_err());
    let bounded = h.s.compact_bounded(&h.c, two).unwrap().unwrap();
    h.publish(bounded.merge).unwrap();
    assert_eq!(h.s.part_count(), 3);
    assert_eq!(h.ids().len(), 4);
    h.check();
}

#[test]
fn space_is_accounted_for_once() {
    let mut h = Host::create();
    for n in 0..3u8 {
        h.put(&format!("id:{n}"), &[n; 10]);
        h.flush();
    }
    let n = h.s.part_count();
    assert!(h.merge(0, n));
    let usage = h.s.space_usage(&h.c, Some(7), 5, Some(1 << 30)).unwrap();
    let bytes = |a: &turndb::store::space::SpaceAmount| a.logical_bytes;
    assert_eq!(
        bytes(&usage.total),
        bytes(&usage.live) + bytes(&usage.retained_only) + bytes(&usage.unclassified)
    );
    assert_eq!(
        usage.total.members,
        usage.live.members + usage.retained_only.members + usage.unclassified.members
    );
    let members: u64 = h.c.members.iter().map(|m| m.bytes.len() as u64).sum();
    assert!(bytes(&usage.total) >= members);
    assert!(bytes(&usage.retained_only) > 0, "superseded parts are only retained revisions'");
    assert_eq!(usage.filesystem_available_bytes, Some(1 << 30));
}

#[test]
fn content_is_written_once() {
    let mut h = Host::create();
    h.put("turn:1", b"the same message");
    let blocks: Vec<Vec<u8>> = h.s.fold().blocks.iter().map(|b| b.bytes.clone()).collect();
    h.put("turn:2", b"the same message");
    h.flush();
    h.put("turn:3", b"the same message");
    h.flush();
    let n = h.s.part_count();
    assert!(h.merge(0, n));
    h.put("turn:4", b"the same message");
    let after: Vec<Vec<u8>> = h.s.fold().blocks.iter().map(|b| b.bytes.clone()).collect();
    assert_eq!(after, blocks);
    for k in 1..5 {
        assert_eq!(h.get(&format!("turn:{k}")), Some(b"the same message".to_vec()));
    }
}

#[test]
fn compaction_is_due_when_parts_pile_up() {
    let mut h = Host::create();
    for n in 0..7u8 {
        h.put(&format!("id:{n}"), &[n; 10]);
        h.flush();
    }
    assert!(h.s.auto_compact().unwrap().is_none());
    assert!(h.s.maybe_compact(8, 3).unwrap().is_none());
    let oldest = h.s.maybe_compact(7, 3).unwrap().unwrap();
    assert_eq!((oldest.start, oldest.replaces), (0, 3));
    let all = h.s.maybe_compact(2, 100).unwrap().unwrap();
    assert_eq!((all.start, all.replaces), (0, 7));
    h.put("id:7", b"the eighth part");
    h.flush();
    let total = h.s.auto_compact().unwrap().unwrap();
    assert_eq!((total.start, total.replaces), (0, 8));
    h.publish(total).unwrap();
    assert_eq!(h.s.part_count(), 1);
    assert_eq!(h.ids().len(), 8);
    h.check();
}

#[test]
fn estimates_say_what_they_would_read_and_write() {
    let mut h = Host::create();
    for n in 0..3u8 {
        for k in 0..=n {
            h.put(&format!("id:{n}:{k}"), &[n; 10]);
        }
        h.flush();
    }
    let sizes: Vec<u64> = h
        .s
        .manifest()
        .parts
        .iter()
        .map(|p| h.c.members[h.c.find(&p.member).unwrap()].bytes.len() as u64)
        .collect();
    let total: u64 = sizes.iter().sum();
    let d = h.s.part_distribution(&h.c).unwrap();
    assert_eq!((d.parts, d.total_rows, d.total_bytes), (3, 6, total));
    assert_eq!((d.min_rows, d.p50_rows, d.p95_rows, d.max_rows), (1, 2, 3, 3));
    assert_eq!(d.max_bytes, *sizes.iter().max().unwrap());

    let budget =
        CompactionBudget { max_input_parts: 3, max_input_rows: 100, max_input_bytes: 1 << 20 };
    let e = h.s.estimate_compaction_space(&h.c, budget, Some(9)).unwrap().unwrap();
    assert_eq!((e.plan.start_part, e.plan.input_parts, e.plan.input_rows), (0, 3, 6));
    assert_eq!(e.input_sections, 9);
    assert_eq!(e.input_raw_section_bytes, total);
    assert_eq!(e.estimated_stage_bytes, total + 6 * 64 + 9 * 256 + (1 << 20));
    assert_eq!(e.retained_input_bytes_after_commit, total);
    assert_eq!(e.filesystem_available_bytes, Some(9));
    assert!(!e.estimate_is_hard_bound);

    let r = h.s.estimate_refold_space(&h.c, 1000, None, 0, None).unwrap().unwrap();
    assert_eq!(r.estimated_stage_bytes, 1000 + total + 6 * 64 + 9 * 256 + (1 << 20));
    assert_eq!((r.source_part_bytes, r.source_part_sections), (total, 9));
    h.put("pending", b"x");
    assert!(h.s.estimate_refold_space(&h.c, 1000, None, 0, None).is_err());
    assert!(Host::create().s.estimate_refold_space(&empty(), 0, None, 0, None).unwrap().is_none());
}

#[test]
fn health_counts_without_decoding() {
    let mut h = punched();
    h.put("pending", b"x");
    let host = HostFigures {
        fold_disk_bytes: 1,
        fold_segments: 2,
        fold_cache_hits: 3,
        fold_cache_misses: 4,
        fold_cache_bytes: 5,
        fold_cache_budget: 6,
        fold_segment_max_bytes: 7,
        fold_compression_level: -8,
        fold_compression_threads: 9,
        part_cache_bytes: 10,
        part_cache_budget: 11,
    };
    let health = h.s.health(&host);
    assert_eq!(health.commit, h.s.manifest().commit);
    assert_eq!(health.memtable_entries, 1);
    assert_eq!(health.wal_frames, 1);
    assert_eq!(health.wal_bytes, h.s.wal_bytes());
    assert_eq!(health.punched_blocks, 1);
    assert_eq!(health.retained_commits, 4);
    assert_eq!(health.fold_block_target_bytes, TARGET);
    assert_eq!(health.dedup_window_entries, 1);
    assert_eq!((health.fold_segments, health.fold_compression_level), (2, -8));
    assert_eq!(health.parts, h.s.part_count());
    let rows: u64 = h.s.parts().iter().map(|p| p.rows.len() as u64).sum();
    assert_eq!(health.part_rows, rows);
}

#[test]
fn the_newest_row_of_an_id_decides() {
    let mut h = Host::create();
    for (id, body) in [("a", b"1"), ("b", b"2"), ("a", b"3")] {
        h.put(id, body);
        h.flush();
    }
    h.s.delete("b").unwrap();
    h.flush();
    assert!(record_exists(h.s.parts(), "a"));
    assert!(!record_exists(h.s.parts(), "b"));
    assert!(!record_exists(h.s.parts(), "c"));
    assert!(h.s.is_countable());
    let v = visibility(h.s.parts());
    assert_eq!(v.rows, vec![vec![], vec![], vec![0usize], vec![]]);
    assert_eq!((v.superseded, v.tombstones), (2, 1));
    for opened in [
        open_read_file(NAME, &h.c),
        open_read_container(NAME, &h.c),
        open_read_file_with_limits(NAME, &h.c, ReadLimits::default()),
        open_read_container_with_limits(NAME, &h.c, ReadLimits::default()),
    ] {
        let r = opened.unwrap();
        assert_eq!(r.reconstruct("a"), Ok(Some(b"3".to_vec())));
        assert_eq!(r.reconstruct("b"), Ok(None));
        assert!(r.is_countable());
        assert_eq!(r.ids(), ["a"]);
        assert_eq!(r.get("a").unwrap().body_len(), 1);
    }
}

#[test]
fn a_working_directory_gets_what_a_session_can_change() {
    let mut h = Host::create();
    for n in 0..5u8 {
        h.put(&format!("id:{n}"), &[n; 60]);
    }
    h.flush();
    assert_eq!(h.s.manifest().fold_seg, 1);
    let (p, step) = prepare(b"s.turndb", Some(&h.c), false).unwrap();
    assert_eq!(p.hot, b"s.turndb-hot");
    assert_eq!(p.sealed.unwrap().extents.len(), h.c.members.len());
    match step {
        PrepareStep::Materialize { files } => {
            let names: Vec<&str> = files.iter().map(|f| f.name.as_str()).collect();
            assert_eq!(names, ["MANIFEST", "MANIFEST.00000001", &segment_member(0, 1)]);
            for f in &files {
                assert_eq!(f.bytes, h.c.members[h.c.find(&f.name).unwrap()].bytes);
            }
        }
        _ => panic!("there is no working directory yet"),
    }
    assert!(matches!(prepare(b"s", Some(&h.c), true).unwrap().1, PrepareStep::Adopt));
    assert!(matches!(prepare(b"s", None, false).unwrap().1, PrepareStep::Create));
    assert_eq!(prepare(b"s", Some(&empty()), false).err(), Some(NoManifest));

    // The directory goes last, and only where everything before it succeeded.
    assert_eq!(settle(SettleStep::Checkpoint, true), SettleStep::RemoveHot);
    assert_eq!(settle(SettleStep::RemoveHot, true), SettleStep::Done);
    assert_eq!(settle(SettleStep::Checkpoint, false), SettleStep::Failed);
    assert_eq!(settle(SettleStep::RemoveHot, false), SettleStep::Failed);
    assert_eq!(settle(SettleStep::Done, false), SettleStep::Done);
    assert_eq!(settle(SettleStep::Failed, true), SettleStep::Failed);
}

#[test]
fn refusals_say_what_was_refused() {
    let said = |e: WriteAdmissionError| e.message();
    assert_eq!(
        said(WriteAdmissionError::InvalidLimits("max_batch_bytes must be greater than zero")),
        "invalid write limits: max_batch_bytes must be greater than zero"
    );
    assert_eq!(
        said(WriteAdmissionError::EmptyIdentifier { kind: IdentifierKind::RecordId, item: Some(3) }),
        "record id in batch item 3 must not be empty"
    );
    assert_eq!(
        said(WriteAdmissionError::IdentifierTooLong {
            kind: IdentifierKind::AttributeName,
            item: None,
            actual: 4097,
            allowed: 4096,
        }),
        "attribute name is 4097 UTF-8 bytes, exceeding the configured limit of 4096"
    );
    assert_eq!(
        said(WriteAdmissionError::DuplicateContentName { item: Some(0), name: "a\"b\n".into() }),
        "duplicate content name \"a\\\"b\\n\" in batch item 0"
    );
    assert_eq!(
        said(WriteAdmissionError::RecordTooLarge { item: Some(10), actual: 65, allowed: 64 }),
        "record in batch item 10 has a worst-case WAL frame of 65 bytes, exceeding the configured limit of 64"
    );
    assert_eq!(
        said(WriteAdmissionError::BatchTooLarge { actual: u64::MAX, allowed: 1 }),
        "atomic batch has a worst-case WAL representation of 18446744073709551615 bytes, exceeding the configured limit of 1"
    );
    assert_eq!(
        said(WriteAdmissionError::TooManyBatchRecords { actual: 3, allowed: 2 }),
        "atomic batch has 3 records, exceeding the configured limit of 2"
    );
    assert_eq!(IdentifierKind::ContentName.name(), "content name");

    let budget = CompactionBudget { max_input_parts: 1, max_input_rows: 7, max_input_bytes: 8 };
    let invalid = budget.validate().err().unwrap();
    assert_eq!(
        invalid.message(),
        "invalid compaction budget: max_input_parts must be at least 2"
    );
    let small = CompactionError::BudgetTooSmall {
        start_part: 2,
        input_rows: 100,
        input_bytes: 2048,
        budget,
    };
    assert_eq!(
        small.message(),
        "no adjacent part pair fits the compaction budget; the smallest-byte pair starts at part 2 and needs 100 rows / 2048 bytes, limits are 7 rows / 8 bytes"
    );
}

/// A part of one record whose body is one piece.
fn part_of(id: &str, seq: u64, hash: PieceHash, len: usize, loc: Loc) -> Part {
    let record = Record::new(
        id,
        vec![Content::identified(
            BODY_CONTENT,
            vec![ContentOp::Piece { hash, len: len as u32 }],
            ContentHash(hash.0),
        )],
        Vec::new(),
    )
    .unwrap();
    Part {
        seq_lo: seq,
        seq_hi: seq,
        rows: vec![Row { id: id.into(), record: Some(record) }],
        pieces: vec![(hash, loc)],
        sections: 1,
        section_bytes: 1,
    }
}

fn twice(bytes: &[u8], punched: Vec<(u32, u32)>) -> Fold {
    let block = |end| Block { segment: 0, end, bytes: bytes.to_vec() };
    Fold { blocks: vec![block(100), block(200)], segments: vec![(0, 200)], punched }
}

#[test]
fn content_reachability_preserves_every_owning_location_for_one_piece_identity() {
    let bytes = b"one identity stored at two locations";
    let hash = PieceHash::of(bytes);
    let fold = twice(bytes, Vec::new());
    let loc0 = Loc { block_id: 0, in_off: 0, raw: bytes.len() as u32 };
    let loc1 = Loc { block_id: 1, in_off: 0, raw: bytes.len() as u32 };
    let parts = vec![
        part_of("row-at-block-zero", 1, hash, bytes.len(), loc0),
        part_of("unrelated-row-at-block-one", 2, hash, bytes.len(), loc1),
    ];
    let live = live_fold_pieces(&parts, &fold).unwrap();
    assert_eq!(live.len(), 2, "identity-keyed reachability would collapse one location");
    assert!(live.contains(&loc0));
    assert!(live.contains(&loc1));
    let mut blocks: Vec<u32> = live.iter().map(|loc| loc.block_id).collect();
    blocks.sort();
    assert_eq!(
        blocks,
        [0, 1],
        "content punch must retain both blocks named by their owning live rows"
    );
}

#[test]
fn manifest_promotion_validates_piece_locations_through_each_rows_owning_part() {
    let bytes = b"same identity at two physical locations";
    let hash = PieceHash::of(bytes);
    let loc0 = Loc { block_id: 0, in_off: 0, raw: bytes.len() as u32 };
    let loc1 = Loc { block_id: 1, in_off: 0, raw: bytes.len() as u32 };
    let parts = vec![
        part_of("owned-by-punched", 1, hash, bytes.len(), loc0),
        part_of("unrelated-readable", 2, hash, bytes.len(), loc1),
    ];
    let fold = twice(bytes, vec![(0, 0)]);
    assert!(matches!(
        live_fold_pieces(&parts, &fold),
        Err(ReadError::Fold { error: FoldError::Erased { block_id: 0 } })
    ));
    assert!(matches!(
        turndb::store::audit::verify_visible_content(&parts, &fold, false),
        Err(_)
    ));
    assert!(turndb::store::audit::verify_visible_content(&parts, &twice(bytes, Vec::new()), false)
        .is_ok());
}

#[test]
fn container_fold_sidecars_obey_explicit_read_limits_without_advisory_fallback() {
    let mut h = Host::create();
    for n in 0..12u8 {
        h.put(&format!("id:{n:04}"), &[n; 60]);
    }
    h.flush();
    let sidecar = vec![9u8; 40];
    h.c.put(Member {
        name: sidecar_member(0, 0),
        bytes: sidecar.clone(),
        checksum: crc32fast::hash(&sidecar),
        manifest: None,
        part: None,
        blocks: None,
    });
    let m = h.s.manifest();
    let len = sidecar.len() as u64;
    let strict = ReadLimits { max_stored_frame_bytes: len - 1, ..ReadLimits::default() };
    assert!(matches!(
        open_fold_from_container(&h.c, m, &strict),
        Err(FoldOpenError::Sidecar {
            error: ReadAdmissionError::StoredFrameTooLarge { actual: 40, allowed: 39 }
        })
    ));
    let nearest = ReadLimits { max_stored_frame_bytes: len, ..ReadLimits::default() };
    assert!(
        open_fold_from_container(&h.c, m, &nearest).is_ok(),
        "the inclusive sidecar ceiling must admit the exact current fold"
    );
}

#[test]
fn folds_that_do_not_end_where_they_should_are_refused() {
    let mut h = Host::create();
    for n in 0..5u8 {
        h.put(&format!("id:{n}"), &[n; 60]);
    }
    h.flush();
    let limits = ReadLimits::default();
    let m = h.s.manifest().clone();
    let longer = Manifest { fold_off: m.fold_off + 1, ..m.clone() };
    assert!(matches!(
        open_fold_from_container(&h.c, &longer, &limits),
        Err(FoldOpenError::TailLength { seg: 1, .. })
    ));
    let shorter = Manifest { fold_seg: 0, ..m.clone() };
    assert!(matches!(
        open_fold_from_container(&h.c, &shorter, &limits),
        Err(FoldOpenError::TailLength { .. }) | Err(FoldOpenError::SegmentBeyondTail { .. })
    ));
    let beyond = Manifest { fold_seg: 2, ..m.clone() };
    assert!(matches!(
        open_fold_from_container(&h.c, &beyond, &limits),
        Err(FoldOpenError::TailAbsent { seg: 2 })
    ));
    let few = ReadLimits { max_fold_blocks: 4, ..limits };
    assert!(matches!(
        open_fold_from_container(&h.c, &m, &few),
        Err(FoldOpenError::TooManyBlocks { actual: 5, allowed: 4 })
    ));
}

#[test]
fn decoded_manifests_travel_with_their_bytes() {
    let mut h = Host::create();
    h.put("a", b"one");
    h.flush();
    let at = h.c.find("MANIFEST").unwrap();
    let held: &Option<DecodedManifest> = &h.c.members[at].manifest;
    assert_eq!(held.as_ref().unwrap().manifest, *h.s.manifest());
    assert_eq!(h.c.members[at].parse_manifest().unwrap(), *h.s.manifest());
}

#[test]
fn a_flip_that_selects_nothing_publishes_nothing() {
    let mut h = Host::create();
    h.put("a", b"one");
    h.sync();
    let (log, before) = (h.log.clone(), copy(&h.c));
    let plan = h.plan();
    assert!(matches!(
        h.publish_as(plan, CommitOutcome::NotSelected),
        Err(PublishError::NotSelected)
    ));
    assert_eq!((h.s.memtable_len(), h.s.part_count(), h.s.manifest().commit), (1, 0, 0));
    assert_eq!(h.s.close(), Ok(CloseStep::Publish));
    assert_eq!((&h.log, &h.c), (&log, &before));
    // The same rows can be published again.
    h.flush();
    assert_eq!((h.s.memtable_len(), h.s.part_count(), h.s.manifest().commit), (0, 1, 1));
    assert!(h.log.is_empty());
    h.check();
}

#[test]
fn an_unsynchronized_flip_keeps_the_log_until_the_container_is_durable() {
    let mut h = Host::create();
    h.put("a", b"one");
    h.sync();
    let old = copy(&h.c);
    let plan = h.plan();
    assert!(matches!(
        h.publish_as(plan, CommitOutcome::SelectedUnsynced),
        Err(PublishError::Unsynchronized)
    ));
    assert_eq!((h.s.memtable_len(), h.s.part_count()), (0, 1));
    assert_eq!(h.get("a"), Some(b"one".to_vec()));
    // Whichever state a crash leaves, the log beside it gives back what was acknowledged.
    for c in [old, copy(&h.c)] {
        let r = Host::reopen(c, h.log.clone());
        assert_eq!(r.get("a"), Some(b"one".to_vec()));
    }
    // Nothing is acknowledged, cut or removed before the container is durable.
    assert_eq!(h.s.sync(), Ok(SyncStep::Acknowledge));
    assert_eq!(h.s.close(), Ok(CloseStep::Acknowledge));
    assert!(matches!(h.s.plan_flush(), Ok(FlushStep::Acknowledge)));
    h.s.acknowledged();
    assert_eq!(h.s.close(), Ok(CloseStep::CutLog));
    assert!(matches!(h.s.plan_flush(), Ok(FlushStep::CutLog)));
    h.settle();
    assert_eq!(h.s.close(), Ok(CloseStep::RemoveLog));
    assert!(matches!(h.s.sync(), Ok(SyncStep::Write { at: 0, unwritten: [] })));
    h.check();
}

#[test]
fn a_refold_that_is_not_selected_changes_nothing() {
    let mut h = Host::create();
    h.put("a", b"one");
    h.flush();
    h.put("a", b"two");
    h.flush();
    assert!(matches!(
        h.refold_as(CommitOutcome::NotSelected),
        Some(Err(PublishError::NotSelected))
    ));
    assert_eq!((h.s.manifest().fold_gen, h.s.manifest().commit), (0, 2));
    assert_eq!(h.get("a"), Some(b"two".to_vec()));
    h.check();
    assert!(matches!(
        h.refold_as(CommitOutcome::SelectedUnsynced),
        Some(Err(PublishError::Unsynchronized))
    ));
    assert_eq!((h.s.manifest().fold_gen, h.s.manifest().commit), (1, 3));
    assert_eq!(h.s.sync(), Ok(SyncStep::Acknowledge));
    assert_eq!(h.get("a"), Some(b"two".to_vec()));
    h.check();
}

#[test]
fn a_declaration_that_is_not_selected_gives_nothing_up() {
    let mut h = Host::create();
    h.put("dead", &[1; 60]);
    h.put("live", &[2; 60]);
    h.flush();
    h.s.delete("dead").unwrap();
    h.flush();
    let n = h.s.part_count();
    assert!(h.merge(0, n));
    let plan = h.s.plan_punch().unwrap();
    assert_eq!(plan.dead, [0]);
    let tail = h.fold();
    let m = h.s.prepare_punch(&h.c, &plan, tail).unwrap();
    let text = json(&m);
    let next = h.s.stage_punch(&h.c, &m, &text).unwrap();
    assert!(matches!(
        h.s.adopt_punch(m.clone(), CommitOutcome::NotSelected),
        Err(PublishError::NotSelected)
    ));
    assert!(h.s.manifest().punched.is_empty());
    h.c = next;
    assert!(matches!(
        h.s.adopt_punch(m, CommitOutcome::SelectedUnsynced),
        Err(PublishError::Unsynchronized)
    ));
    assert_eq!(h.s.manifest().punched, [(0, 0)]);
    assert_eq!(h.s.close(), Ok(CloseStep::Acknowledge));
    h.s.acknowledged();
    let (targets, _) = h.s.punch_unreferenced(&plan.dead, &[0, 0], 1);
    assert_eq!(targets, [0]);
    assert_eq!(h.get("live"), Some(vec![2; 60]));
}

#[test]
fn a_promotion_takes_the_outcome_of_its_flip() {
    let mut h = Host::create();
    h.put("a", b"one");
    h.flush();
    let at = h.c.find("MANIFEST").unwrap();
    h.c.members[at].bytes[0] ^= 1;
    let damaged = copy(&h.c);
    let strict = ManifestPromotionOptions { max_rollback_commits: 0 };
    let staged = promote_manifest_file(NAME, &h.c, strict).unwrap();
    assert_eq!(h.c, damaged);
    assert_eq!(
        adopt_promotion(&mut h.c, staged, CommitOutcome::NotSelected),
        Err(ManifestPromotionError::NotSelected)
    );
    assert_eq!(h.c, damaged);
    let staged = promote_manifest_file(NAME, &h.c, strict).unwrap();
    assert_eq!(
        adopt_promotion(&mut h.c, staged, CommitOutcome::SelectedUnsynced),
        Err(ManifestPromotionError::Unsynchronized)
    );
    assert!(open_read_container_source(&h.c, ReadLimits::default()).is_ok());
    assert_eq!(h.c.seq, damaged.seq + 1);
}

#[test]
fn a_reserved_name_is_refused_from_the_name_alone() {
    let mut h = Host::create();
    h.put("a", b"one");
    h.flush();
    let limits = ReadLimits::default();
    for name in [&b"s-wal"[..], b"s-tmp", b"s.reclaiming", b"s.reclaimed", b"s.reclaim-candidate"] {
        for opened in [
            open_read_file(name, &h.c),
            open_read_container(name, &h.c),
            open_read_file_with_limits(name, &h.c, limits),
            open_read_container_with_limits(name, &h.c, limits),
            open_read_container_at(name, &h.c, 1),
        ] {
            assert_eq!(opened.err(), Some(OpenError::Reserved));
        }
        assert!(matches!(
            Store::open_file(name, &h.c, &[], TARGET).err(),
            Some(OpenStoreError::Reserved)
        ));
        let strict = ManifestPromotionOptions { max_rollback_commits: 0 };
        assert_eq!(
            promote_manifest_file(name, &h.c, strict).err(),
            Some(ManifestPromotionError::Reserved)
        );
    }
}

#[test]
fn every_segment_has_a_last_window_to_its_end() {
    let mut h = Host::create();
    h.put("a", &[7; 60]);
    h.put("b", &[8; 60]);
    h.sync();
    // The last segment has a header and no frame.
    let blocks: Vec<Block> = h.s.writer.fold.blocks.iter().map(Block::clone).collect();
    let mut laid = copy(&h.c);
    lay_out(&mut laid, 0, &blocks, 3);
    laid.put(Member {
        name: segment_member(0, 1),
        bytes: vec![1; HEADER],
        checksum: crc32fast::hash(&[1; HEADER]),
        manifest: None,
        part: None,
        blocks: Some(Vec::new()),
    });
    let plan = h.plan();
    let e = encoded(&plan);
    let tail = FoldTail { seg: 1, off: HEADER as u32 };
    let m = h.s.prepare(&laid, &plan, &e.bytes, tail).unwrap();
    let text = json(&m);
    let (next, staged) = h.s.stage(&laid, plan, e, m, &text).unwrap();
    h.s.adopt(staged, CommitOutcome::Committed).unwrap();
    h.c = next;
    let limits = ReadLimits::default();
    let v = SourceVerifier::open(copy(&h.c), limits).unwrap();
    let frames: Vec<(u32, u64, u64)> = v
        .units()
        .iter()
        .filter_map(|u| match u {
            VerifyUnit::FoldFrames { seg, start, stop } => Some((*seg, *start, *stop)),
            _ => None,
        })
        .collect();
    assert_eq!(frames, [(0, 48, 48 + 2 * 64), (1, 48, 48)]);
    let by_units = verify_source(copy(&h.c), limits).unwrap();
    let whole = artifact::verify_container_artifact(&h.c, limits).unwrap();
    assert_eq!(by_units.store, whole.store);
    assert_eq!((whole.store.fold.segments, whole.store.fold.blocks, whole.store.fold.bytes), (2, 2, 120));

    // Bytes behind the last frame of a segment are no frame.
    let at = h.c.find(&segment_member(0, 0)).unwrap();
    h.c.members[at].bytes.push(0);
    assert_eq!(
        artifact::verify_container_artifact(&h.c, limits),
        Err(ArtifactError::Members { error: MembersError::Checksum { index: at } })
    );
    assert_eq!(verify_source(copy(&h.c), limits), Err(VerifyError::Checksum));
    h.c.members[at].checksum = crc32fast::hash(&h.c.members[at].bytes);
    assert_eq!(
        artifact::verify_container_artifact(&h.c, limits),
        Err(ArtifactError::Frames { seg: 0 })
    );
    assert_eq!(
        verify_source(copy(&h.c), limits),
        Err(VerifyError::Frames { seg: 0 })
    );

    // Frames that overlap, or lie outside their segment, do not decode.
    h.c.members[at].bytes.pop();
    h.c.members[at].blocks.as_mut().unwrap()[1].end = 48 + 64;
    assert_eq!(
        open_read_container_source(&h.c, limits).err(),
        Some(OpenError::Fold { error: FoldOpenError::Undecodable { seg: 0 } })
    );
}

#[test]
fn a_refold_counts_every_physical_row() {
    let mut h = Host::create();
    for (id, body) in [("a", b"1"), ("b", b"2"), ("a", b"3"), ("c", b"4")] {
        h.put(id, body);
        h.flush();
    }
    h.s.delete("b").unwrap();
    h.flush();
    let rows: usize = h.s.parts().iter().map(|p| p.rows.len()).sum();
    let shown = h.s.ids().len();
    let stats = h.refold().unwrap();
    assert_eq!((stats.records_kept, shown, rows), (2, 2, 5));
    assert_eq!(stats.records_kept + stats.records_dropped, rows);
    assert_eq!(stats.tombstones_dropped, 1);
}

#[test]
fn what_was_put_is_read_by_whoever_opens_the_container() {
    let mut h = Host::create();
    h.put("a", b"kept");
    h.flush();
    let r = open_read_file(NAME, &h.c).unwrap();
    assert_eq!(r.reconstruct_content("a", BODY_CONTENT), Ok(Some(b"kept".to_vec())));
    assert_eq!(r.reconstruct_content("a", "another"), Ok(None));
    assert_eq!(r.reconstruct_content("absent", BODY_CONTENT), Ok(None));
}

#[test]
fn a_manifest_member_that_is_too_long_is_not_read() {
    let mut h = Host::create();
    for n in 0..3u8 {
        h.put(&format!("id:{n}"), &[n; 20]);
        h.flush();
    }
    let bytes = MAX_MANIFEST_BYTES + 1;
    let long = |c: &Container, name: &str| {
        let mut c = copy(c);
        let at = c.find(name).unwrap();
        c.members[at].bytes.resize(bytes as usize, b' ');
        c
    };
    let current = long(&h.c, "MANIFEST");
    let too_long = ManifestError::MemberTooLarge { bytes };
    assert_eq!(
        open_read_container_source(&current, ReadLimits::default()).err(),
        Some(OpenError::Manifest { error: too_long })
    );
    let options = ManifestPromotionOptions { max_rollback_commits: 9 };
    let promoted = |c: &Container| promote_manifest_file(NAME, c, options).map(|_| ()).err();
    assert_eq!(promoted(&current), Some(ManifestPromotionError::TooLarge { bytes }));
    // A retained one stops a promotion, where a damaged one would be passed over.
    let mut retained = long(&h.c, "MANIFEST.00000003");
    assert!(matches!(
        chain::verify_chain_file(&retained).err(),
        Some(ChainError::Namespace { .. })
    ));
    assert_eq!(promoted(&retained), Some(ManifestPromotionError::TooLarge { bytes }));
    let at = retained.find("MANIFEST.00000003").unwrap();
    retained.members[at].bytes.truncate(MAX_MANIFEST_BYTES as usize);
    assert_eq!(retained.members[at].parse_manifest(), Err(ManifestError::NoTrailer));
    assert_eq!(promoted(&retained), None);
}

#[test]
fn a_scan_lists_the_ids_of_its_range_from_either_end() {
    let mut h = Host::create();
    for id in ["d", "a", "f", "b"] {
        h.put(id, id.as_bytes());
    }
    h.flush();
    h.put("e", b"e");
    h.put("c", b"c");
    h.s.delete("b").unwrap();
    let all = h.s.ids();
    assert_eq!(all, ["a", "c", "d", "e", "f"]);
    assert_eq!(h.s.scan_ids(None, None, all.len() + 1, false).unwrap(), all);
    for (from, to) in [(None, None), (Some("b"), None), (None, Some("e")), (Some("c"), Some("e"))] {
        let mut kept: Vec<String> = all
            .iter()
            .filter(|id| from.map_or(true, |f| id.as_str() >= f))
            .filter(|id| to.map_or(true, |t| id.as_str() < t))
            .cloned()
            .collect();
        for reverse in [false, true] {
            for limit in 0..7 {
                let want: Vec<String> = kept.iter().take(limit).cloned().collect();
                assert_eq!(h.s.scan_ids(from, to, limit, reverse).unwrap(), want);
            }
            kept.reverse();
        }
    }
    h.flush();
    let r = open_read_container_source(&h.c, ReadLimits::default()).unwrap();
    assert_eq!(r.ids(), all);
    assert_eq!(r.scan_ids(None, None, all.len() + 1, false).unwrap(), all);
    assert_eq!(r.scan_ids(Some("b"), Some("f"), 2, true).unwrap(), ["e", "d"]);
}

#[test]
fn time_travel_does_not_cross_a_refold() {
    let mut h = Host::create();
    for n in 0..3u8 {
        h.put("a", &[n; 20]);
        h.flush();
    }
    assert_eq!(chain::retained_commits_file(&h.c).unwrap(), [1, 2, 3]);
    assert!(open_read_container_at(NAME, &h.c, 2).is_ok());
    assert!(open_read_container_at(NAME, &h.c, 9).is_err());
    h.refold().unwrap();
    assert_eq!(chain::retained_commits_file(&h.c).unwrap(), [4]);
    for commit in [0, 1, 2, 3, 5] {
        assert_eq!(
            open_read_container_at(NAME, &h.c, commit).err(),
            Some(OpenError::Retained { error: ChainError::Lost { commit } })
        );
    }
    assert!(open_read_container_at(NAME, &h.c, 4).is_ok());
    // A current manifest that decodes otherwise than the retained one of the same bytes diverges.
    let at = h.c.find("MANIFEST").unwrap();
    h.c.members[at].manifest.as_mut().unwrap().manifest.punched.push((0, 0));
    assert_eq!(
        chain::verify_chain_file(&h.c),
        Err(ChainError::Diverges { commit: 4 })
    );
}

#[test]
fn a_crash_keeps_every_value_that_was_made_durable() {
    let mut h = Host::create();
    h.put("published", b"a piece that parts hold");
    h.flush();
    // New, known to the parts, known to the window, introduced by a record that is gone, and part
    // of a batch.
    h.s.put(
        "mixed",
        &[
            Span::Lit(b"<"),
            Span::Piece(b"a new piece"),
            Span::Piece(b"a piece that parts hold"),
            Span::Piece(b"a new piece"),
            Span::Lit(b">"),
        ],
        Vec::new(),
    )
    .unwrap();
    h.put("again", b"a new piece");
    h.put("gone", b"introduced here");
    h.put("heir", b"introduced here");
    h.s.delete("gone").unwrap();
    let mut batch = Batch::new();
    batch.put("first", &[Span::Piece(b"of a batch")], Vec::new());
    batch.put("second", &[Span::Piece(b"of a batch"), Span::Piece(b"a new piece")], Vec::new());
    h.s.apply(&batch).unwrap();
    let ids = h.ids();
    let values: Vec<Option<Vec<u8>>> = ids.iter().map(|id| h.get(id)).collect();
    let mut h = h.crash();
    assert_eq!(h.ids(), ids);
    assert_eq!(ids.iter().map(|id| h.get(id)).collect::<Vec<_>>(), values);
    assert_eq!(
        h.get("mixed"),
        Some(b"<a new piecea piece that parts holda new piece>".to_vec())
    );
    assert_eq!(h.get("heir"), Some(b"introduced here".to_vec()));
    // The recovered writer goes on: a merge, another crash, and a flush change nothing.
    h.put("late", b"a new piece");
    let mut h = h.crash();
    assert_eq!(h.get("late"), Some(b"a new piece".to_vec()));
    assert_eq!(ids.iter().map(|id| h.get(id)).collect::<Vec<_>>(), values);
    h.flush();
    assert_eq!(ids.iter().map(|id| h.get(id)).collect::<Vec<_>>(), values);
    h.check();
}

#[test]
fn a_punched_store_is_scrubbed_when_its_verification_opens() {
    let mut h = punched();
    let limits = ReadLimits::default();
    assert!(SourceVerifier::open(copy(&h.c), limits).is_ok());
    let at = h.c.find(&segment_member(0, 1)).unwrap();
    h.c.members[at].bytes.push(0);
    assert_eq!(
        SourceVerifier::open(copy(&h.c), limits).err(),
        Some(VerifyError::Punched { error: PunchedError::Frames { seg: 1 } })
    );
    assert_eq!(
        artifact::verify_container_artifact(&h.c, limits),
        Err(ArtifactError::Members {
            error: MembersError::Punched { error: PunchedError::Frames { seg: 1 } }
        })
    );
}

#[test]
fn a_merge_refuses_an_entry_outside_a_block_that_was_given_up() {
    let mut h = punched();
    h.put("late", b"late");
    h.flush();
    let n = h.s.part_count();
    assert!(h.s.plan_merge(0, n).unwrap().is_some());
    let hash = PieceHash::of(b"elsewhere");
    h.s.parts[0].pieces.push((hash, Loc { block_id: 0, in_off: 60, raw: 1 }));
    assert_eq!(
        h.s.plan_merge(0, n).map(|_| ()).err(),
        Some(PublishError::Locate { error: FoldError::OutsideBlock { block_id: 0 } })
    );
    h.s.parts[0].pieces.pop();
    h.s.parts[0].pieces.push((hash, Loc { block_id: 0, in_off: 0, raw: 60 }));
    assert!(h.s.plan_merge(0, n).unwrap().is_some());
}

#[test]
fn whatever_is_accepted_is_read_again_under_the_same_limits() {
    let mut accepted = 0;
    for limit in 17..260u64 {
        let options = StoreOptions {
            read_limits: ReadLimits {
                max_stored_frame_bytes: limit,
                max_decoded_frame_bytes: limit,
                ..ReadLimits::default()
            },
            ..StoreOptions::new(TARGET)
        };
        let c = empty();
        let (mut s, _) = Store::open_file_with_options(NAME, &c, &[], &options).unwrap();
        let spans = [Span::Lit(b"ab"), Span::Piece(b"one piece"), Span::Piece(b"another")];
        let attrs = vec![("k".to_string(), AttrValue::Str("v".into()))];
        if s.put("an id", &spans, attrs).is_err() {
            continue;
        }
        let mut batch = Batch::new();
        batch.delete("nothing");
        batch.put("b", &[Span::Piece(b"one piece")], Vec::new());
        s.apply(&batch).unwrap();
        accepted += 1;
        let SyncStep::Write { unwritten, .. } = s.sync().unwrap() else {
            panic!("a container that nothing was committed to is durable")
        };
        let log = unwritten.to_vec();
        let (t, cut) = Store::open_file_with_options(NAME, &c, &log, &options).unwrap();
        assert!(!cut);
        assert_eq!(t.reconstruct("an id").unwrap(), Some(b"abone pieceanother".to_vec()));
        assert_eq!(t.reconstruct("b").unwrap(), Some(b"one piece".to_vec()));
    }
    assert!(accepted > 0 && accepted < 243);
}
