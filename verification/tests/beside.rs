//! What lies beside a store: debris, names, and what to do on arrival.

use turndb::read_limits::{ReadAdmissionError, ReadLimits};
use turndb::store::arrival::{
    arrive, restore_store_from_reclaim_anchor, AnchorStep, Arrival, ArrivalError, Found,
};
use turndb::store::debris::{
    debris_report, debris_report_with_limits, names_refusing_creation, validate_store_path,
    DebrisKind, SiblingName,
};
use turndb::store::lifecycle::{
    backup_staging_path, restore_staging_path, staging_path, temp_name_for,
};
use turndb::vfs::{Op, Pending, Recorder};

fn file(name: &[u8]) -> SiblingName {
    SiblingName { name: name.to_vec(), is_file: true, is_dir: false }
}

fn dir(name: &[u8]) -> SiblingName {
    SiblingName { name: name.to_vec(), is_file: false, is_dir: true }
}

#[test]
fn only_current_exact_staging_names_are_recognized() {
    let store = b"s.turndb";
    let near_misses: [&[u8]; 4] = [
        b"s.turndb.backing-up-user.backing-up-12-3",
        b"s.turndb.backing-up--12-3",
        b"s.turndb.backing-up-12-3-extra",
        b"s.turndb.restoring-4294967296-1",
    ];
    let mut listing = vec![
        file(store),
        file(b"s.turndb.creating-12-2"),
        file(b"s.turndb.backing-up-12-0"),
        file(b"s.turndb.restoring-12-1"),
    ];
    for name in near_misses {
        listing.push(file(name));
    }
    let report = debris_report(store, true, &listing).unwrap();
    assert_eq!(report.entries.len(), 3);
    assert_eq!(
        report.entries.iter().filter(|entry| entry.kind == DebrisKind::CreationStaging).count(),
        1
    );
    assert_eq!(
        report.entries.iter().filter(|entry| entry.kind == DebrisKind::ArtifactStaging).count(),
        2
    );
    for name in near_misses {
        assert!(
            report.entries.iter().all(|entry| entry.name != name),
            "near-miss protocol name must not be removed: {name:?}"
        );
    }
}

#[test]
fn current_protocol_names_are_recognized_without_utf8_path_assumptions() {
    let base = b"s-\xff.turndb".to_vec();
    let mut staging = base.clone();
    staging.extend_from_slice(b".restoring-12-3");
    let report = debris_report(&base, true, &vec![file(&base), file(&staging)]).unwrap();
    assert_eq!(report.entries.len(), 1);
    assert_eq!(report.entries[0].name, staging);
    assert_eq!(report.entries[0].kind, DebrisKind::ArtifactStaging);
    let mut reserved = base;
    reserved.extend_from_slice(b".backing-up-12-4");
    assert!(validate_store_path(&reserved).is_err());
}

#[test]
fn every_protocol_name_is_recognized_and_reserved() {
    let store = b"s";
    let kinds = [
        (file(b"s.reclaiming"), Some(DebrisKind::ReclaimStaging)),
        (file(b"s.reclaim-candidate"), Some(DebrisKind::ReclaimCandidate)),
        (file(b"s.reclaim-candidate.tmp"), Some(DebrisKind::ReclaimCandidate)),
        (file(b"s.reclaimed"), Some(DebrisKind::ReclaimAnchor)),
        (file(b"s.publish-1-2"), Some(DebrisKind::PendingPublish)),
        (file(b"s-wal.publish-1-2"), Some(DebrisKind::PendingPublish)),
        (dir(b"s-tmp"), Some(DebrisKind::MergeScratch)),
        (file(b"s-wal"), None),
        (file(b"other"), None),
    ];
    for (entry, kind) in kinds {
        let name = entry.name.clone();
        let report = debris_report(store, true, &vec![entry]).unwrap();
        assert_eq!(report.entries.first().map(|e| e.kind), kind, "{name:?}");
        if kind.is_some() {
            assert!(validate_store_path(&name).is_err());
        }
    }
    assert!(validate_store_path(b"s-wal").is_err());
    assert!(validate_store_path(b"mystore.turndb").is_ok());
    // Without the store its anchor is no debris: it is the store.
    assert!(debris_report(store, false, &vec![file(b"s.reclaimed")]).unwrap().entries.is_empty());
    let narrow = ReadLimits { max_directory_entries: 1, ..ReadLimits::default() };
    assert_eq!(
        debris_report_with_limits(store, true, &vec![file(b"a"), file(b"b")], narrow).err(),
        Some(ReadAdmissionError::TooManyDirectoryEntries { actual: 2, allowed: 1 })
    );
}

#[test]
fn staging_names_are_recognized_for_what_they_stage() {
    let out = b"snap.turndb";
    for name in [
        backup_staging_path(out, 12, 0),
        restore_staging_path(out, u32::MAX, u64::MAX),
        staging_path(out, ".creating-", 1, 2),
        temp_name_for(out, 7, 8),
    ] {
        let report = debris_report(out, true, &vec![file(&name)]).unwrap();
        assert_eq!(report.entries.len(), 1);
        assert!(validate_store_path(&name).is_err());
    }
    assert_eq!(backup_staging_path(out, 12, 0), b"snap.turndb.backing-up-12-0");
    assert_eq!(temp_name_for(b"p", 7, 8), b"p.publish-7-8");
}

#[test]
fn a_store_is_created_only_where_nothing_is_in_the_way() {
    let limits = ReadLimits::default();
    let nothing = Found { directory: false, store: false, anchor: false };
    let clean = vec![file(b"other"), file(b"s.creating-1-1")];
    assert_eq!(arrive(b"s", nothing, &clean, limits), Ok(Arrival::Create));
    let dirty = vec![file(b"s.publish-1-1"), file(b"s-wal")];
    assert_eq!(
        arrive(b"s", nothing, &dirty, limits),
        Err(ArrivalError::Refusing { names: 2 })
    );
    assert_eq!(
        names_refusing_creation(b"s", false, false, &dirty, limits).unwrap(),
        vec![b"s-wal".to_vec(), b"s.publish-1-1".to_vec()]
    );
    let anchor = Found { anchor: true, ..nothing };
    assert_eq!(arrive(b"s", anchor, &dirty, limits), Ok(Arrival::Restore));
    let present = Found { store: true, ..anchor };
    assert_eq!(arrive(b"s", present, &dirty, limits), Ok(Arrival::Open));
    let directory = Found { directory: true, ..nothing };
    assert_eq!(arrive(b"s", directory, &clean, limits), Err(ArrivalError::Directory));
    assert_eq!(arrive(b"s-wal", nothing, &clean, limits), Err(ArrivalError::Reserved));
    let narrow = ReadLimits { max_directory_entries: 1, ..limits };
    assert!(matches!(
        arrive(b"s", nothing, &clean, narrow),
        Err(ArrivalError::Listing { .. })
    ));
}

#[test]
fn an_anchor_goes_last() {
    let mut step = AnchorStep::Lock;
    let mut seen = vec![step];
    while step != AnchorStep::Done {
        assert_eq!(restore_store_from_reclaim_anchor(step, false), AnchorStep::Failed);
        step = restore_store_from_reclaim_anchor(step, true);
        seen.push(step);
    }
    assert_eq!(
        seen,
        [
            AnchorStep::Lock,
            AnchorStep::Clear,
            AnchorStep::Copy,
            AnchorStep::Check,
            AnchorStep::Place,
            AnchorStep::RemoveAnchor,
            AnchorStep::Done
        ]
    );
    assert_eq!(
        restore_store_from_reclaim_anchor(AnchorStep::Failed, true),
        AnchorStep::Failed
    );
}

#[test]
fn publishing_follows_registration_order_not_lexical_order() {
    let mut pending = Pending::new();
    pending.register("dir", "dir/b.part", "dir/b.part.publish-1-0");
    pending.register("dir", "dir/a.part", "dir/a.part.publish-1-1");
    pending.register("other", "other/c.part", "other/c.part.publish-1-2");
    pending.register("dir", "dir/b.part", "dir/b.part.publish-1-3");
    let due: Vec<String> = pending.due("dir").iter().map(|p| p.path.clone()).collect();
    assert_eq!(due, ["dir/b.part", "dir/a.part"]);
    // A name already pending keeps its one temporary name.
    assert_eq!(pending.resolve("dir/b.part"), "dir/b.part.publish-1-0");
    pending.forget("dir/b.part");
    let due: Vec<String> = pending.due("dir").iter().map(|p| p.path.clone()).collect();
    assert_eq!(due, ["dir/a.part"]);
    assert_eq!(pending.resolve("dir/b.part"), "dir/b.part");
}

#[test]
fn a_recorder_records_while_it_is_armed() {
    let mut r = Recorder::new();
    r.push(Op::SyncDir { path: "a".into() });
    assert_eq!(r.len(), 0);
    r.arm();
    r.push(Op::SyncDir { path: "b".into() });
    assert_eq!(r.len(), 1);
    let taken = r.disarm();
    assert_eq!(taken.len(), 1);
    assert_eq!(r.len(), 0);
}
