//! Backups and their restoration, names of files, and commits.

use rustc_hash::{FxHashMap, FxHashSet};
use std::borrow::Cow;
use stoolap_mvcc::backup::{cold_rows_for_backup, manifest_text, Publication, PublishStep};
use stoolap_mvcc::backup_run::{
    backup_files, check_backup, commit_wait, BackupError, BackupEvent, BackupPhase, BackupRun,
    CommitWait,
};
use stoolap_mvcc::commit::{CommitEvent, CommitPhase, CommitRun};
use stoolap_mvcc::engine::IsolationLevel;
use stoolap_mvcc::names::{
    ddl_file_name, find_snapshots_newest_first, graph_file_is_stale, manifest_file_name,
    names_in_excess, parse_volume_id, select_names, snapshot_file_name, snapshot_timestamp,
    snapshots_to_keep, sorted_names, volume_file_name, Retention,
};
use stoolap_mvcc::pending::{
    has_pending_dml_changes, logged_version, needs_recheck, reads_volumes, snapshot_sequence,
    tables_to_commit, validate_pending_against_cold, Conflict, PendingKey, PendingRow,
    TouchedTable, TransactionTables,
};
use stoolap_mvcc::recovery::WalOperation;
use stoolap_mvcc::restore::{
    check_restore, choose_snapshot, choose_snapshots, definition_source, definitions_file,
    definitions_timestamp, latest_manifest, manifest_tables, table_is_restored, tables_in_list,
    DefinitionSource, RestoreError, RestoreProgress, SnapshotCandidate, TableChoice, TableFiles,
};
use stoolap_mvcc::restore_run::{RestoreEvent, RestoreOutcome, RestorePhase, RestoreRun};
use stoolap_mvcc::text::{decimal_text, hex_text, to_lowercase_cow};

fn strings(names: &[&str]) -> Vec<String> {
    names.iter().map(|n| n.to_string()).collect()
}

#[test]
fn volume_names_come_back() {
    assert_eq!(volume_file_name(0x65f1a2b3c4d5e), "vol_00065f1a2b3c4d5e.vol");
    assert_eq!(parse_volume_id("vol_00065f1a2b3c4d5e.vol"), Some(0x65f1a2b3c4d5e));
    assert_eq!(parse_volume_id(&volume_file_name(u64::MAX)), Some(u64::MAX));
    assert_eq!(parse_volume_id("vol_xyz.vol"), None);
    assert_eq!(parse_volume_id("volume"), None);
    assert_eq!(hex_text(255, 4), "00ff");
    assert_eq!(decimal_text(0), "0");
    assert_eq!(decimal_text(1234567890), "1234567890");
}

#[test]
fn a_name_in_lower_case_is_lent() {
    assert!(matches!(to_lowercase_cow("ÀBc"), Cow::Owned(name) if name == "àbc"));
    assert!(matches!(to_lowercase_cow("É"), Cow::Owned(name) if name == "é"));
    assert!(matches!(to_lowercase_cow("ABC"), Cow::Owned(name) if name == "abc"));
    assert!(matches!(to_lowercase_cow("àbc_1"), Cow::Borrowed("àbc_1")));
    assert!(matches!(to_lowercase_cow(""), Cow::Borrowed("")));
}

#[test]
fn snapshot_names_come_back() {
    assert_eq!(snapshot_file_name("1"), "snapshot-1.bin");
    assert_eq!(snapshot_timestamp("snapshot-20260314-001020.947.bin"), Some("20260314-001020.947".to_string()));
    assert_eq!(snapshot_timestamp("snapshot-1.vol"), None);
    assert_eq!(ddl_file_name("1"), "ddl-1.bin");
    assert_eq!(manifest_file_name("1"), "manifest-1.json");
    let names = strings(&["snapshot-1.bin", "x", "snapshot-3.bin", "snapshot-2.bin", "snapshot-2.vol"]);
    assert_eq!(
        find_snapshots_newest_first(&names),
        strings(&["snapshot-3.bin", "snapshot-2.bin", "snapshot-1.bin"])
    );
    assert_eq!(select_names(&names, "snapshot-2", ""), strings(&["snapshot-2.bin", "snapshot-2.vol"]));
    assert_eq!(sorted_names(strings(&["b", "a"])), strings(&["a", "b"]));
}

#[test]
fn old_files_are_in_excess() {
    let names = strings(&["ddl-3.bin", "ddl-1.bin", "ddl.bin", "ddl-2.bin"]);
    assert_eq!(names_in_excess(&names, "ddl-", ".bin", 1), strings(&["ddl-1.bin", "ddl-2.bin"]));
    assert!(names_in_excess(&names, "ddl-", ".bin", 3).is_empty());
    assert_eq!(snapshots_to_keep(0), 1);
    assert_eq!(snapshots_to_keep(5), 5);
}

#[test]
fn damaged_snapshots_take_no_place() {
    let mut retention = Retention::new(2);
    let mut kept = Vec::new();
    for intact in [true, false, true, true] {
        let check = retention.needs_check();
        kept.push((check, retention.decide(check && intact)));
    }
    assert_eq!(kept, vec![(true, true), (true, false), (true, true), (false, false)]);
    assert!(graph_file_is_stale("hnsw_v.bin", &strings(&["1"])));
    assert!(graph_file_is_stale("hnsw_v-2.bin", &strings(&["1"])));
    assert!(!graph_file_is_stale("hnsw_v-1.bin", &strings(&["1"])));
    assert!(!graph_file_is_stale("snapshot-2.bin", &strings(&["1"])));
}

#[test]
fn the_list_of_tables_is_read_back() {
    let text = manifest_text("1", &strings(&["a\\b", "q\"t", "c"]));
    assert_eq!(manifest_tables(&text), Some(strings(&["a\\b", "q\"t", "c"])));
    assert_eq!(manifest_tables("{\"tables\":[\"a\",1,\"b\"]}"), Some(strings(&["a", "b"])));
    assert_eq!(manifest_tables("{\"tables\":[]}"), None);
    assert_eq!(manifest_tables("not json"), None);
    assert_eq!(tables_in_list(Some(vec![None])), None);
    assert_eq!(tables_in_list(Some(vec![None, Some("a".to_string())])), Some(strings(&["a"])));
    assert_eq!(tables_in_list(None), None);
}

#[test]
fn rows_in_memory_cover_those_in_volumes() {
    let ts: FxHashMap<i64, u64> = [(4, 1)].into_iter().collect();
    assert_eq!(cold_rows_for_backup(&[2], &[&[1, 2], &[1, 3, 4]], &ts), vec![(1, 0, 0), (3, 1, 1)]);
}

#[test]
fn a_set_of_snapshots_is_published_whole_or_not() {
    let mut p = Publication::new(3);
    let mut steps = Vec::new();
    loop {
        let step = p.step();
        steps.push(step);
        match step {
            PublishStep::Rename { position } => p.report(position < 2),
            PublishStep::Undo { .. } | PublishStep::RemoveTemporary { .. } => p.report(true),
            PublishStep::Published | PublishStep::Failed => break,
        }
    }
    assert_eq!(
        steps,
        vec![
            PublishStep::Rename { position: 0 },
            PublishStep::Rename { position: 1 },
            PublishStep::Rename { position: 2 },
            PublishStep::Undo { position: 1 },
            PublishStep::Undo { position: 0 },
            PublishStep::RemoveTemporary { position: 0 },
            PublishStep::RemoveTemporary { position: 1 },
            PublishStep::RemoveTemporary { position: 2 },
            PublishStep::Failed,
        ]
    );
    let mut whole = Publication::new(1);
    whole.report(true);
    assert_eq!(whole.step(), PublishStep::Published);
    assert_eq!(Publication::abandoned(1).step(), PublishStep::RemoveTemporary { position: 0 });
}

#[test]
fn a_backup_is_made_of_an_open_persistent_database() {
    assert_eq!(check_backup(false, true), Err(BackupError::NotOpen));
    assert_eq!(check_backup(true, false), Ok(false));
    assert_eq!(check_backup(true, true), Ok(true));
    assert_eq!(
        BackupRun::new(false, true, 3).phase,
        BackupPhase::Finished { result: Err(BackupError::NotOpen) }
    );
    assert_eq!(BackupRun::new(true, false, 3).phase, BackupPhase::Finished { result: Ok(false) });
    assert_eq!(commit_wait(7, 7, 99, 10), CommitWait::Proceed);
    assert_eq!(commit_wait(6, 7, 9, 10), CommitWait::Wait);
    assert_eq!(commit_wait(6, 7, 10, 10), CommitWait::GiveUp);
}

#[test]
fn every_table_gets_one_file_under_one_time_stamp() {
    let files = backup_files(&strings(&["a", "b"]), "20260102-030405.678");
    assert_eq!(files.len(), 2);
    for (file, table) in files.iter().zip(["a", "b"]) {
        assert_eq!(file.table, table);
        assert_eq!(file.file, "snapshot-20260102-030405.678.bin");
        assert_eq!(file.temporary, "snapshot-20260102-030405.678.bin.tmp");
    }
}

#[test]
fn a_backup_succeeds_whole_or_fails() {
    let mut run = BackupRun::new(true, true, 2);
    let mut phases = vec![run.phase];
    for _ in 0..6 {
        run.step(BackupEvent::Done);
        phases.push(run.phase);
    }
    assert_eq!(
        phases,
        vec![
            BackupPhase::Waiting,
            BackupPhase::Writing { table: 0 },
            BackupPhase::Writing { table: 1 },
            BackupPhase::Publishing { written: 2, whole: true },
            BackupPhase::Describing,
            BackupPhase::Retaining,
            BackupPhase::Finished { result: Ok(true) },
        ]
    );
    let mut late = BackupRun::new(true, true, 2);
    late.step(BackupEvent::Failed);
    assert_eq!(late.phase, BackupPhase::Finished { result: Err(BackupError::TimedOut) });
    let mut broken = BackupRun::new(true, true, 2);
    broken.step(BackupEvent::Done);
    broken.step(BackupEvent::Done);
    broken.step(BackupEvent::Failed);
    assert_eq!(broken.phase, BackupPhase::Publishing { written: 1, whole: false });
    broken.step(BackupEvent::Done);
    assert_eq!(broken.phase, BackupPhase::Finished { result: Err(BackupError::Failed) });
}

#[test]
fn a_restore_is_refused_for_each_of_its_reasons() {
    assert!(matches!(check_restore(false, true, true, 0), Err(RestoreError::EngineNotOpen)));
    assert!(matches!(check_restore(true, false, true, 0), Err(RestoreError::NotPersistent)));
    assert!(matches!(check_restore(true, true, false, 0), Err(RestoreError::NoSnapshotDirectory)));
    assert!(matches!(
        check_restore(true, true, true, 2),
        Err(RestoreError::ActiveTransactions { remaining: 2 })
    ));
    assert!(check_restore(true, true, true, 0).is_ok());
}

#[test]
fn the_latest_set_of_snapshots_is_chosen() {
    assert_eq!(
        latest_manifest(&strings(&["manifest-1.json", "manifest-3.json", "manifest-2.json", "manifest-9.bin"])),
        Some("manifest-3.json".to_string())
    );
    assert_eq!(latest_manifest(&[]), None);
    let file = |name: &str, intact| SnapshotCandidate { name: name.to_string(), intact };
    let taken = |files: &[SnapshotCandidate], timestamp: Option<&str>| match choose_snapshot(files, timestamp) {
        TableChoice::Snapshot(name) => Some(name),
        TableChoice::Nothing => None,
        TableChoice::Invalid => Some("invalid".to_string()),
    };
    let files = [file("snapshot-1.bin", true), file("snapshot-2.bin", true), file("x", true)];
    assert_eq!(taken(&files, None), Some("snapshot-2.bin".to_string()));
    assert_eq!(taken(&files, Some("1")), Some("snapshot-1.bin".to_string()));
    assert_eq!(taken(&files, Some("3")), None);
    // A damaged file is passed over for an older one, unless its time stamp is asked for
    let damaged = [file("snapshot-1.bin", true), file("snapshot-2.bin", false)];
    assert_eq!(taken(&damaged, None), Some("snapshot-1.bin".to_string()));
    assert_eq!(taken(&damaged, Some("2")), Some("invalid".to_string()));
    assert_eq!(taken(&damaged[1..], None), Some("invalid".to_string()));
    let directories = [
        TableFiles {
            table: "A".to_string(),
            files: vec![
                file("snapshot-1.bin", true),
                file("snapshot-2.bin", true),
                file("snapshot-3.bin", false),
            ],
        },
        TableFiles { table: "dropped".to_string(), files: vec![file("snapshot-1.bin", true)] },
        TableFiles { table: "b".to_string(), files: vec![file("snapshot-1.bin", true)] },
    ];
    let listed = Some(strings(&["a", "B"]));
    assert!(table_is_restored("A", &listed));
    assert!(!table_is_restored("dropped", &listed));
    let chosen = choose_snapshots(&directories, &listed, None).unwrap();
    assert_eq!(chosen.iter().map(|c| c.directory).collect::<Vec<_>>(), vec![0, 2]);
    assert_eq!(chosen[0].file, "snapshot-2.bin");
    assert_eq!(definitions_timestamp(&chosen, None), Some("1".to_string()));
    assert_eq!(definitions_timestamp(&chosen, Some("7")), Some("7".to_string()));
    let chosen = choose_snapshots(&directories, &listed, Some("1")).unwrap();
    assert_eq!(chosen.len(), 3);
    assert!(matches!(
        choose_snapshots(&directories, &listed, Some("9")),
        Err(RestoreError::NoMatchingSnapshots)
    ));
    assert!(matches!(
        choose_snapshots(&directories, &listed, Some("3")),
        Err(RestoreError::InvalidSnapshot { directory: 0 })
    ));
    assert_eq!(definitions_file(&Some("1".to_string())), "ddl-1.bin");
    assert_eq!(definitions_file(&None), "ddl.bin");
    assert!(matches!(definition_source(true, true, Some("1")), Ok(DefinitionSource::File)));
    assert!(matches!(definition_source(true, false, Some("1")), Ok(DefinitionSource::Memory)));
    assert!(matches!(definition_source(false, false, None), Ok(DefinitionSource::Memory)));
    match definition_source(false, false, Some("1")) {
        Err(RestoreError::MissingDefinitions(t)) => assert_eq!(t, "1"),
        other => panic!("{:?}", other),
    }
}

fn restore(events: &[RestoreEvent]) -> RestoreRun {
    let mut run = RestoreRun::new();
    for event in events {
        run.step(*event);
    }
    run
}

#[test]
fn a_restore_validates_everything_before_it_clears() {
    let run = restore(&[RestoreEvent::Done, RestoreEvent::Chosen { count: 2 }]);
    assert_eq!(run.phase, RestorePhase::Defining);
    let run = restore(&[RestoreEvent::Done, RestoreEvent::Invalid { directory: 1 }]);
    assert_eq!(
        run.phase,
        RestorePhase::Accepting { outcome: RestoreOutcome::InvalidSnapshot { directory: 1 } }
    );
    let run = restore(&[RestoreEvent::Done, RestoreEvent::Chosen { count: 2 }, RestoreEvent::Done]);
    assert_eq!(run.phase, RestorePhase::Clearing);
    let mut run = restore(&[
        RestoreEvent::Done,
        RestoreEvent::Chosen { count: 2 },
        RestoreEvent::Done,
        RestoreEvent::Done,
        RestoreEvent::Loaded { hot_rows: 5, cold_rows: 0 },
        RestoreEvent::Loaded { hot_rows: 0, cold_rows: 7 },
    ]);
    assert_eq!(run.phase, RestorePhase::Redefining);
    assert_eq!(run.progress.message(), "Restored 2 tables (12 rows) from snapshot");
    for _ in 0..5 {
        run.step(RestoreEvent::Done);
    }
    assert_eq!(run.phase, RestorePhase::Accepting { outcome: RestoreOutcome::Restored });
    run.step(RestoreEvent::Done);
    assert_eq!(run.phase, RestorePhase::Finished { outcome: RestoreOutcome::Restored });
}

#[test]
fn a_restore_that_fails_midway_keeps_what_it_loaded() {
    let begin = [
        RestoreEvent::Done,
        RestoreEvent::Chosen { count: 2 },
        RestoreEvent::Done,
        RestoreEvent::Done,
    ];
    let mut run = restore(&begin);
    run.step(RestoreEvent::Failed);
    assert_eq!(
        run.phase,
        RestorePhase::Accepting { outcome: RestoreOutcome::LoadFailed { position: 0 } }
    );
    let mut run = restore(&begin);
    run.step(RestoreEvent::Loaded { hot_rows: 1, cold_rows: 1 });
    run.step(RestoreEvent::Failed);
    assert_eq!(run.phase, RestorePhase::PersistingPart { failed: 1 });
    run.step(RestoreEvent::Failed);
    assert_eq!(
        run.phase,
        RestorePhase::Accepting { outcome: RestoreOutcome::LoadFailed { position: 1 } }
    );
    assert_eq!(
        restore(&[RestoreEvent::Failed]).phase,
        RestorePhase::Accepting { outcome: RestoreOutcome::StillActive }
    );
    assert_eq!(
        restore(&[RestoreEvent::Done, RestoreEvent::Chosen { count: 0 }]).phase,
        RestorePhase::Accepting { outcome: RestoreOutcome::NoMatchingSnapshots }
    );
    assert_eq!(
        restore(&[RestoreEvent::Done, RestoreEvent::Failed]).phase,
        RestorePhase::Accepting { outcome: RestoreOutcome::DirectoryUnreadable }
    );
    assert_eq!(
        restore(&[RestoreEvent::Done, RestoreEvent::Chosen { count: 1 }, RestoreEvent::Failed]).phase,
        RestorePhase::Accepting { outcome: RestoreOutcome::MissingDefinitions }
    );
    let mut p = RestoreProgress::new();
    assert!(!p.keeps_partial_restore());
    p.table_loaded(1, 2);
    assert!(p.keeps_partial_restore());
}

#[test]
fn tombstones_are_committed_with_their_tables() {
    // Two tables with changes in memory; three with volumes, the last with none in memory
    let mut run = CommitRun::new(true, 2, vec![Some(0), Some(1), None]);
    let mut phases = vec![run.phase];
    // The second table's commit fails
    for event in [
        CommitEvent::Done,
        CommitEvent::Done,
        CommitEvent::Done,
        CommitEvent::Done,
        CommitEvent::Done,
        CommitEvent::Done,
        CommitEvent::Done,
        CommitEvent::Failed,
        CommitEvent::Done,
        CommitEvent::Done,
        CommitEvent::Done,
        CommitEvent::Done,
    ] {
        run.step(event);
        phases.push(run.phase);
    }
    assert_eq!(
        phases,
        vec![
            CommitPhase::LoggingTombstones { table: 0 },
            CommitPhase::LoggingVersions { table: 0 },
            CommitPhase::Checking { table: 0 },
            CommitPhase::Committing { table: 0 },
            CommitPhase::LoggingTombstones { table: 1 },
            CommitPhase::LoggingVersions { table: 1 },
            CommitPhase::Checking { table: 1 },
            CommitPhase::Committing { table: 1 },
            CommitPhase::Forgetting,
            CommitPhase::Settling { manager: 0, commit: true },
            CommitPhase::Settling { manager: 1, commit: false },
            CommitPhase::Settling { manager: 2, commit: false },
            CommitPhase::Finished,
        ]
    );
    assert!(run.any_committed());
    assert!(run.failed);
}

#[test]
fn a_whole_commit_settles_every_tombstone() {
    let mut run = CommitRun::new(true, 1, vec![Some(0), None]);
    for _ in 0..5 {
        run.step(CommitEvent::Done);
    }
    assert_eq!(run.phase, CommitPhase::Settling { manager: 0, commit: true });
    run.step(CommitEvent::Done);
    assert_eq!(run.phase, CommitPhase::LoggingCold { manager: 1 });
    run.step(CommitEvent::Failed);
    assert_eq!(run.phase, CommitPhase::Settling { manager: 1, commit: false });
    let mut quiet = CommitRun::new(false, 1, vec![None]);
    assert_eq!(quiet.phase, CommitPhase::Checking { table: 0 });
    for _ in 0..3 {
        quiet.step(CommitEvent::Done);
    }
    assert_eq!(quiet.phase, CommitPhase::Settling { manager: 0, commit: true });
    let nothing = CommitRun::new(true, 0, Vec::new());
    assert_eq!(nothing.phase, CommitPhase::Forgetting);
    assert!(!nothing.any_committed());
}

fn key(complete: bool, changed: bool, found: Option<i64>) -> PendingKey {
    PendingKey { complete, changed, found }
}

fn pending(row_id: i64, has_read_version: bool, primary_key: Option<PendingKey>, unique_keys: Vec<PendingKey>) -> PendingRow {
    PendingRow { row_id, deleted: false, has_read_version, primary_key, unique_keys }
}

#[test]
fn new_rows_conflict_with_volumes() {
    let claimed: FxHashSet<i64> = [8].into_iter().collect();
    let check = |row: PendingRow| validate_pending_against_cold(&[row], &claimed);
    // Inserts
    assert_eq!(
        check(pending(1, false, Some(key(true, true, Some(1))), Vec::new())),
        Err(Conflict::PrimaryKey { row_id: 1 })
    );
    assert_eq!(check(pending(1, false, Some(key(false, true, Some(1))), Vec::new())), Ok(()));
    assert_eq!(check(pending(1, false, Some(key(true, true, Some(8))), Vec::new())), Ok(()));
    assert_eq!(
        check(pending(1, false, None, vec![key(true, true, None), key(true, true, Some(5))])),
        Err(Conflict::Unique { index: 1, row_id: 5 })
    );
    // Updates
    assert_eq!(check(pending(1, true, Some(key(true, false, Some(2))), Vec::new())), Ok(()));
    assert_eq!(check(pending(1, true, Some(key(true, true, Some(1))), Vec::new())), Ok(()));
    assert_eq!(
        check(pending(1, true, Some(key(true, true, Some(2))), Vec::new())),
        Err(Conflict::PrimaryKey { row_id: 2 })
    );
    // A claimed row is an update too
    assert_eq!(check(pending(8, false, None, vec![key(true, true, Some(8))])), Ok(()));
    // A deleted row conflicts with nothing
    let mut deleted = pending(1, false, Some(key(true, true, Some(1))), Vec::new());
    deleted.deleted = true;
    assert_eq!(check(deleted), Ok(()));
}

#[test]
fn rows_are_checked_again_after_a_seal() {
    assert!(needs_recheck(Some(1), 2, false));
    assert!(!needs_recheck(Some(2), 2, true));
    assert!(needs_recheck(None, 2, true));
    assert!(!needs_recheck(None, 2, false));
    assert_eq!(logged_version(3, true, 7).operation, WalOperation::Delete);
    assert_eq!(logged_version(3, true, 7).deleted_at_txn_id, 7);
    assert_eq!(logged_version(3, false, 7).operation, WalOperation::Insert);
    assert_eq!(logged_version(3, false, 7).deleted_at_txn_id, 0);
    assert_eq!(snapshot_sequence(IsolationLevel::SnapshotIsolation, 4), Some(4));
    assert_eq!(snapshot_sequence(IsolationLevel::ReadCommitted, 4), None);
    assert!(reads_volumes(true, false) && reads_volumes(false, true) && !reads_volumes(false, false));
}

#[test]
fn a_transactions_tables_are_known() {
    let mut tables = TransactionTables::new();
    assert!(tables.touch(1, "a"));
    assert!(tables.touch(1, "b"));
    assert!(!tables.touch(1, "a"));
    assert!(tables.touch(2, "a"));
    assert_eq!(tables.tables(1), strings(&["a", "b"]));
    tables.remove(1);
    assert!(tables.tables(1).is_empty());
    assert_eq!(tables.tables(2), strings(&["a"]));
    let touched = |has_changes, exists, has_tombstones| TouchedTable {
        name: "t".to_string(),
        has_changes,
        exists,
        has_tombstones,
    };
    assert!(!has_pending_dml_changes(&[touched(false, true, false)]));
    assert!(has_pending_dml_changes(&[touched(false, true, false), touched(false, true, true)]));
    assert!(has_pending_dml_changes(&[touched(true, true, false)]));
    assert_eq!(
        tables_to_commit(&[
            touched(true, true, false),
            touched(true, false, false),
            touched(false, true, true),
            touched(true, true, true),
        ]),
        vec![0, 3]
    );
}
