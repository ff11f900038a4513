//! Seals, checkpoints, backfilling and figures.

use rustc_hash::FxHashMap;
use stoolap_mvcc::backfill::{
    backfill_work, build_cap, candidates, covers_all, is_published, pass_begins, rotate_work, wanted_columns,
    BackfillPass, BackfillReport, BackfillTable, ColdVolume, ColumnMapping, ColumnSource,
    VolumeOutcome,
};
use stoolap_mvcc::checkpoint::{
    after_closing_checkpoint, all_sealed, checkpoint_is_due, round_interval, CheckpointEvent,
    CheckpointPhase, CheckpointRun, CleanupClock, CloseStep,
};
use stoolap_mvcc::engine::{EngineError, MVCCEngine};
use stoolap_mvcc::hot_limits::{AdmissionTable, HotLimits};
use stoolap_mvcc::indexes::{
    count_rows, flushes_entries, graph_file, identity_from_record, index_columns, is_held_already,
    primary_key_index, rows_for_vector_index, rows_to_fetch, IdentityCounter, RowPresence,
};
use stoolap_mvcc::rows::{normalize_row, pad_row, ColumnValue};
use stoolap_mvcc::schema::{DataType, Schema, SchemaColumn};
use stoolap_mvcc::seal::{
    counter_after_seal, normalize_rows, removal_batches, schema_is_changing, seal_candidates,
    seal_sequence, seals_table, tombstones_after_seal, HotRow, HotTable,
};
use stoolap_mvcc::seal_run::{SealEvent, SealPhase, SealRun};
use stoolap_mvcc::stats::{
    HotFootprint, MemoryStat, Removed, SegmentStat, TableSegments, VacuumScope, VolumeTier,
};

fn table() -> Schema {
    let mut note = SchemaColumn::with_constraints(1, "Note", DataType::Text, true, false, false, None, None);
    note.default_value = Some(vec![9, 9]);
    Schema::with_timestamps_and_foreign_keys(
        "Items".to_string(),
        vec![
            SchemaColumn::with_constraints(0, "Id", DataType::Integer, false, true, true, None, None),
            note,
            SchemaColumn::with_constraints(2, "age", DataType::Integer, true, false, false, None, None),
        ],
        Vec::new(),
        1,
        1,
    )
}

#[test]
fn a_table_is_sealed_from_its_threshold_on() {
    let limits = HotLimits::new(0, 0);
    let hot = |rows, has_segments| HotTable { rows, has_segments };
    assert!(!seals_table(&hot(99_999, false), &limits, false));
    assert!(seals_table(&hot(100_000, false), &limits, false));
    assert!(seals_table(&hot(10_000, true), &limits, false));
    assert!(!seals_table(&hot(9_999, true), &limits, false));
    assert!(seals_table(&hot(1, false), &limits, true));
    assert!(!seals_table(&hot(0, false), &limits, true));
    let bounded = HotLimits::new(50, 0);
    assert_eq!(
        seal_candidates(&[hot(49, true), hot(50, false), hot(0, true), hot(60, true)], &bounded, false),
        vec![1, 3]
    );
}

#[test]
fn commits_wait_at_the_limit() {
    let mut limits = HotLimits::new(0, 100);
    let at = |hot_bytes, claimed| AdmissionTable { hot_bytes, claimed };
    assert!(limits.must_wait(true, &[at(5, false), at(100, false)]));
    assert!(!limits.must_wait(true, &[at(99, false), at(100, true)]));
    assert!(!limits.must_wait(false, &[at(100, false)]));
    assert!(limits.keeps_waiting(&[at(100, false)], 9, 10));
    assert!(!limits.keeps_waiting(&[at(100, false)], 10, 10));
    assert!(!limits.keeps_waiting(&[at(99, false)], 9, 10));
    limits.begin_wait();
    assert_eq!(limits.admission_waits, 1);
    assert!(limits.take_request());
    assert!(!limits.take_request());
    limits.request_seal_if_over(true);
    assert!(limits.take_request());
    limits.set(1, 0);
    assert_eq!((limits.max_rows, limits.max_bytes), (1, 0));
    assert_eq!(limits.seal_rows(true), 1);
}

#[test]
fn sealed_rows_have_every_column() {
    let schema = table();
    let rows = vec![
        HotRow { row_id: 1, values: vec![ColumnValue::Encoded(vec![1])] },
        HotRow {
            row_id: 2,
            values: vec![
                ColumnValue::Encoded(vec![1]),
                ColumnValue::Encoded(vec![2]),
                ColumnValue::Encoded(vec![3]),
                ColumnValue::Encoded(vec![4]),
            ],
        },
    ];
    let sealed = normalize_rows(rows, &schema);
    assert_eq!(sealed[0].row_id, 1);
    assert!(matches!(&sealed[0].values[1], ColumnValue::Encoded(b) if b == &vec![9, 9]));
    assert!(matches!(sealed[0].values[2], ColumnValue::Null(DataType::Integer)));
    assert_eq!(sealed[1].values.len(), 3);
    let mut long = vec![ColumnValue::Null(DataType::Text), ColumnValue::Null(DataType::Text)];
    pad_row(&mut long, &schema);
    assert_eq!(long.len(), 3);
    long.push(ColumnValue::Null(DataType::Text));
    pad_row(&mut long, &schema);
    assert_eq!(long.len(), 4);
    normalize_row(&mut long, &schema);
    assert_eq!(long.len(), 3);
}

#[test]
fn a_seal_settles_its_tombstones() {
    let before: FxHashMap<i64, u64> = [(1, 5), (2, 6), (9, 7)].into_iter().collect();
    let after = tombstones_after_seal(&before, &[&[1, 2], &[3]], &[2, 3], 40);
    let expected: FxHashMap<i64, u64> = [(2, 40), (3, 40), (9, 7)].into_iter().collect();
    assert_eq!(after, expected);
}

#[test]
fn a_seal_is_stamped_and_batched() {
    assert_eq!(seal_sequence(Some(12), 99), 12);
    assert_eq!(seal_sequence(None, 99), 99);
    assert_eq!(seal_sequence(Some(-1), 99), u64::MAX);
    assert_eq!(removal_batches(100_001), vec![(0, 50_000), (50_000, 100_000), (100_000, 100_001)]);
    assert_eq!(counter_after_seal(5, &[3, 9, 7]), 9);
    assert_eq!(counter_after_seal(15, &[3, 9, 7]), 15);
    assert!(schema_is_changing(3));
    assert!(!schema_is_changing(4));
}

fn run_checkpoint(force: bool, events: &[CheckpointEvent]) -> CheckpointRun {
    let mut run = CheckpointRun::new(true, force);
    for event in events {
        run.step(*event);
    }
    run
}

#[test]
fn a_checkpoint_truncates_the_log_last() {
    let run = run_checkpoint(
        false,
        &[
            CheckpointEvent::Done,
            CheckpointEvent::Done,
            CheckpointEvent::Rows { left: false },
            CheckpointEvent::Cut { lsn: 8 },
            CheckpointEvent::Done,
            CheckpointEvent::Done,
            CheckpointEvent::Done,
        ],
    );
    assert_eq!(run.phase, CheckpointPhase::Truncating { lsn: 8 });
    assert_eq!(
        CheckpointRun::new(false, true).phase,
        CheckpointPhase::Finished { failed: false }
    );
}

#[test]
fn a_checkpoint_leaves_the_log_where_something_needs_it() {
    // CheckpointEvent::Rows are left, or commits cannot be kept out
    for event in [CheckpointEvent::Rows { left: true }, CheckpointEvent::TimedOut] {
        let run = run_checkpoint(true, &[CheckpointEvent::Rows { left: true }, CheckpointEvent::Done, event]);
        assert_eq!(run.phase, CheckpointPhase::Persisting { lsn: 0 });
    }
    // The catalog is not copied: no failure, but the boundary stays
    let run = run_checkpoint(
        true,
        &[
            CheckpointEvent::Rows { left: false },
            CheckpointEvent::Done,
            CheckpointEvent::Rows { left: false },
            CheckpointEvent::Cut { lsn: 8 },
            CheckpointEvent::Failed,
        ],
    );
    assert_eq!(run.phase, CheckpointPhase::Finished { failed: false });
    // A manifest is not written
    let run = run_checkpoint(
        true,
        &[
            CheckpointEvent::Rows { left: false },
            CheckpointEvent::Done,
            CheckpointEvent::Rows { left: false },
            CheckpointEvent::Cut { lsn: 8 },
            CheckpointEvent::Done,
            CheckpointEvent::Done,
            CheckpointEvent::Failed,
        ],
    );
    assert_eq!(run.phase, CheckpointPhase::Finished { failed: false });
    // The seal fails: waiting commits are woken all the same
    let run = run_checkpoint(false, &[CheckpointEvent::Failed]);
    assert_eq!(run.phase, CheckpointPhase::Notifying { failed: true });
    let run = run_checkpoint(false, &[CheckpointEvent::Failed, CheckpointEvent::Done]);
    assert_eq!(run.phase, CheckpointPhase::Finished { failed: true });
    assert!(all_sealed(&[0, 0]));
    assert!(!all_sealed(&[0, 1]));
}

#[test]
fn a_checkpoint_without_force_leaves_small_tables() {
    let run = CheckpointRun::new(true, false);
    assert_eq!(run.phase, CheckpointPhase::Sealing { forced: false });
    let small = HotTable { rows: 9_999, has_segments: true };
    assert!(!seals_table(&small, &HotLimits::new(0, 0), false));
    let run = run_checkpoint(false, &[CheckpointEvent::Rows { left: true }]);
    assert_eq!(run.phase, CheckpointPhase::Notifying { failed: false });
    let run = run_checkpoint(
        false,
        &[CheckpointEvent::Done, CheckpointEvent::Done, CheckpointEvent::Rows { left: true }],
    );
    assert_eq!(run.phase, CheckpointPhase::Persisting { lsn: 0 });
}

#[test]
fn closing_tries_five_times() {
    assert_eq!(after_closing_checkpoint(0, false, true), CloseStep::WaitAndRetry);
    assert_eq!(after_closing_checkpoint(3, false, true), CloseStep::WaitAndRetry);
    assert_eq!(after_closing_checkpoint(4, false, true), CloseStep::GoOn);
    assert_eq!(after_closing_checkpoint(0, false, false), CloseStep::GoOn);
    assert_eq!(after_closing_checkpoint(0, true, true), CloseStep::GoOn);
}

#[test]
fn rounds_in_the_background() {
    assert_eq!(round_interval(60, 0), 60);
    assert_eq!(round_interval(60, 10), 10);
    assert_eq!(round_interval(60, 90), 60);
    let mut clock = CleanupClock { since_cleanup: 0 };
    assert!(!clock.advance(30, 60));
    assert!(clock.advance(30, 60));
    assert_eq!(clock.since_cleanup, 0);
    assert!(checkpoint_is_due(true, 0, 0, 0));
    assert!(!checkpoint_is_due(false, 0, 0, 100));
    assert!(checkpoint_is_due(false, 10, 90, 100));
    assert!(!checkpoint_is_due(false, 11, 90, 100));
    assert!(checkpoint_is_due(false, 10, i64::MIN, i64::MAX));
}

fn volume(id: u64, columns: usize, side: Option<Vec<(usize, u64)>>) -> ColdVolume {
    ColdVolume {
        id,
        mapping: ColumnMapping { sources: Vec::new(), is_identity: true, columns },
        side,
    }
}

#[test]
fn a_side_file_is_wanted_for_the_columns_a_volume_has() {
    let mapping = ColumnMapping {
        sources: vec![ColumnSource::Volume(3), ColumnSource::Default],
        is_identity: true,
        columns: 4,
    };
    assert_eq!(
        wanted_columns(&mapping, &[(0, 10), (1, 11), (2, 12), (4, 13)]),
        vec![(3, 10), (2, 12)]
    );
    assert!(covers_all(&[(3, 10), (2, 12)], &[(2, 12)]));
    assert!(!covers_all(&[(3, 10)], &[(3, 9)]));
    assert!(covers_all(&[], &[]));
}

#[test]
fn volumes_without_side_files_are_worked_on_in_turn() {
    let lacking = |name: &str, ids: &[u64]| BackfillTable {
        name: name.to_string(),
        identities: vec![(0, 7)],
        volumes: ids.iter().map(|id| volume(*id, 2, None)).collect(),
    };
    let tables = [lacking("a", &[4, 2]), lacking("b", &[1])];
    assert_eq!(candidates(&tables[0]), vec![2, 4]);
    let work = backfill_work(&tables);
    assert_eq!(work, vec![(0, 2), (0, 4), (1, 1)]);
    assert_eq!(rotate_work(&work, &tables, &None), work);
    assert_eq!(
        rotate_work(&work, &tables, &Some(("a".to_string(), 2))),
        vec![(0, 4), (1, 1), (0, 2)]
    );
    assert_eq!(rotate_work(&work, &tables, &Some(("b".to_string(), 1))), work);
    let covered = BackfillTable {
        name: "c".to_string(),
        identities: vec![(0, 7)],
        volumes: vec![volume(1, 2, Some(vec![(0, 7)])), volume(2, 0, None), volume(3, 1, Some(vec![(0, 6)]))],
    };
    assert_eq!(candidates(&covered), vec![3]);
}

#[test]
fn a_backfill_pass_counts_every_volume_once() {
    let mut pass = BackfillPass::new(vec![(0, 1), (0, 2), (0, 3), (0, 4), (0, 5)], 4);
    for outcome in [
        VolumeOutcome::Built,
        VolumeOutcome::Refused,
        VolumeOutcome::Discarded,
        VolumeOutcome::Failed,
    ] {
        assert!(pass.next_volume(false, 0).is_some());
        pass.settle(outcome);
    }
    assert_eq!(pass.next_volume(false, 0), None);
    assert_eq!(
        pass.finish(),
        BackfillReport { examined: 4, built: 1, refused: 1, discarded: 1, failed: 1, left: 1 }
    );
    let mut busy = BackfillPass::new(vec![(0, 1)], 4);
    assert_eq!(busy.next_volume(false, 1), None);
    assert_eq!(busy.next_volume(true, 0), None);
    assert_eq!(busy.next_volume(false, 0), Some((0, 1)));
    assert_eq!(BackfillReport::default().examined, 0);
    assert!(pass_begins(false, false));
    for (closing, running) in [(true, false), (false, true), (true, true)] {
        assert!(!pass_begins(closing, running));
        match BackfillPass::begin(closing, running, vec![(0, 1)], 4) {
            Err(report) => assert_eq!(report, BackfillReport::default()),
            Ok(_) => panic!("a pass began"),
        }
    }
    assert_eq!(BackfillPass::begin(false, false, vec![(0, 1)], 4).unwrap().finish().left, 1);
    assert_eq!(build_cap(9), 4);
}

#[test]
fn a_built_side_file_is_published_only_where_it_still_fits() {
    let v = volume(1, 2, None);
    let built: &[(usize, u64)] = &[(0, 7)];
    assert!(is_published(false, Some(&v), true, Some(built), &[(0, 7)]));
    assert!(!is_published(true, Some(&v), true, Some(built), &[(0, 7)]));
    assert!(!is_published(false, None, true, Some(built), &[(0, 7)]));
    assert!(!is_published(false, Some(&v), false, Some(built), &[(0, 7)]));
    assert!(!is_published(false, Some(&v), true, None, &[(0, 7)]));
    assert!(!is_published(false, Some(&v), true, Some(built), &[(0, 8)]));
    assert!(!is_published(false, Some(&v), true, Some(built), &[]));
}

#[test]
fn indexes_are_named_and_found() {
    let schema = table();
    let index = primary_key_index(&schema).unwrap();
    assert_eq!(index.name, "__pk_items_Id");
    assert_eq!(index.column, 0);
    let columns = index_columns(&schema, &["AGE".to_string(), "note".to_string()]).unwrap();
    assert_eq!(columns.positions, vec![2, 1]);
    assert_eq!(columns.data_types, vec![DataType::Integer, DataType::Text]);
    assert!(index_columns(&schema, &["none".to_string()]).is_none());
    let mut engine = MVCCEngine::in_memory();
    assert!(matches!(
        engine.columns_to_record("items", &[]),
        Err(EngineError::EngineNotOpen)
    ));
    engine.open_engine().unwrap();
    assert!(matches!(
        engine.columns_to_record("items", &[]),
        Err(EngineError::TableNotFound(_))
    ));
    engine.create_table(schema).unwrap();
    let found = engine.columns_to_record("ITEMS", &["Note".to_string()]).unwrap().unwrap();
    assert_eq!(found.positions, vec![1]);
    assert!(engine.columns_to_record("items", &["none".to_string()]).unwrap().is_none());
    engine.set_loading(true);
    assert!(engine.columns_to_record("none", &[]).unwrap().is_none());
}

#[test]
fn identities_come_from_the_log_or_in_order() {
    let mut counter = IdentityCounter::new();
    assert_eq!(counter.identity(None), 1);
    assert_eq!(counter.identity(Some(40)), 40);
    assert_eq!(counter.identity(None), 2);
    assert_eq!(identity_from_record(Some(3), 9), 3);
    assert_eq!(identity_from_record(None, 9), 9);
    assert!(is_held_already(Some(5), 5));
    assert!(!is_held_already(Some(6), 5));
    assert!(!is_held_already(None, 5));
}

#[test]
fn a_graph_is_read_from_its_snapshots_file() {
    assert_eq!(graph_file("v", Some("1"), true, true), Some("hnsw_v-1.bin".to_string()));
    assert_eq!(graph_file("v", Some("1"), false, true), Some("hnsw_v.bin".to_string()));
    assert_eq!(graph_file("v", None, true, true), Some("hnsw_v.bin".to_string()));
    assert_eq!(graph_file("v", None, true, false), None);
    let ts: FxHashMap<i64, u64> = [(3, 1)].into_iter().collect();
    assert_eq!(rows_for_vector_index(&[1], &[&[1, 2], &[2, 3, 4]], &ts), vec![(2, 0, 1), (4, 1, 2)]);
    assert!(flushes_entries(8192));
    assert!(!flushes_entries(8191));
}

#[test]
fn rows_not_in_memory_are_looked_for_in_volumes() {
    assert_eq!(rows_to_fetch(&[1, 2, 3], &[2], true), vec![1, 3]);
    assert!(rows_to_fetch(&[1, 2, 3], &[2], false).is_empty());
    assert!(rows_to_fetch(&[1], &[2], true).is_empty());
    let at = |in_memory, in_volume| RowPresence { in_memory, in_volume };
    assert_eq!(count_rows(1, &[at(true, true), at(false, true), at(false, false)], true), 2);
    assert_eq!(count_rows(1, &[at(true, true), at(false, true)], false), 1);
}

#[test]
fn figures_on_memory_add_up() {
    let engine = MVCCEngine::in_memory();
    let segment = |segment_id, memory_bytes| SegmentStat {
        segment_id,
        tier: VolumeTier::Warm,
        row_count: 3,
        memory_bytes,
        idle_cycles: 1,
    };
    let volumes = engine.volume_stats(&[
        TableSegments { table_name: "a".to_string(), tombstones: 2, segments: vec![
            segment(1, 10),
            segment(2, 20),
        ] },
        TableSegments { table_name: "gone".to_string(), tombstones: 0, segments: vec![segment(3, 5)] },
    ]);
    assert_eq!(volumes.len(), 3);
    assert_eq!(volumes[1].table_name, "a");
    assert_eq!(volumes[1].segment.segment_id, 2);
    assert_eq!(volumes[1].tombstones, 2);
    let hot = |name: &str| HotFootprint {
        table_name: name.to_string(),
        hot_rows: 1,
        hot_bytes: 2,
        arena_slots: 3,
        arena_capacity_bytes: 4,
        chain_entries: 5,
    };
    let stats = engine.memory_stats(&[hot("a"), hot("b")], &volumes);
    assert_eq!(stats.len(), 3);
    assert_eq!(stats[0].volume_bytes, 30);
    assert_eq!(stats[1].volume_bytes, 0);
    assert_eq!(stats[2].table_name, "*");
    assert_eq!(stats[2].volume_bytes, 35);
    assert_eq!(stats[2].hot_rows, 2);
    assert_eq!(stats[2].hot_bytes, 4);
    assert_eq!(stats[2].arena_slots, 6);
    assert_eq!(stats[2].arena_capacity_bytes, 8);
    assert_eq!(stats[2].chain_entries, 10);
    assert_eq!(stats[2].admission_waits, 0);
    assert_eq!(MemoryStat::default().table_name, "");
}

#[test]
fn figures_stand_in_the_order_of_the_tables_names() {
    let engine = MVCCEngine::in_memory();
    let table = |name: &str, segment_id| TableSegments {
        table_name: name.to_string(),
        tombstones: 0,
        segments: vec![SegmentStat {
            segment_id,
            tier: VolumeTier::Hot,
            row_count: 1,
            memory_bytes: 1,
            idle_cycles: 0,
        }],
    };
    let volumes = engine.volume_stats(&[table("b", 1), table("c", 2), table("a", 3)]);
    let listed: Vec<_> = volumes.iter().map(|v| (v.table_name.as_str(), v.segment.segment_id)).collect();
    assert_eq!(listed, vec![("a", 3), ("b", 1), ("c", 2)]);
    let hot = |name: &str, hot_rows| HotFootprint {
        table_name: name.to_string(),
        hot_rows,
        hot_bytes: 0,
        arena_slots: 0,
        arena_capacity_bytes: 0,
        chain_entries: 0,
    };
    let stats = engine.memory_stats(&[hot("b", 1), hot("a", 2)], &volumes);
    let listed: Vec<_> = stats.iter().map(|s| (s.table_name.as_str(), s.hot_rows)).collect();
    assert_eq!(listed, vec![("a", 2), ("b", 1), ("*", 3)]);
}

#[test]
fn a_clean_up_works_on_what_there_is() {
    let mut engine = MVCCEngine::in_memory();
    let removed = [Removed { rows: 2, versions: 3 }, Removed { rows: 4, versions: 5 }];
    assert_eq!(engine.vacuum_scope(None).unwrap(), VacuumScope::Nothing);
    assert_eq!(engine.vacuum(None, &removed, 9).unwrap(), (0, 0, 0));
    assert_eq!(engine.cleanup_deleted_rows(&removed), 0);
    assert_eq!(engine.cleanup_old_transactions(3), 0);
    engine.open_engine().unwrap();
    engine.create_table(table()).unwrap();
    assert_eq!(engine.vacuum_scope(Some("items")).unwrap(), VacuumScope::Table);
    assert_eq!(engine.vacuum_scope(None).unwrap(), VacuumScope::AllTables);
    assert!(matches!(engine.vacuum(Some("none"), &[], 0), Err(EngineError::TableNotFound(_))));
    assert_eq!(engine.vacuum(None, &removed, 9).unwrap(), (6, 8, 9));
    assert_eq!(engine.cleanup_deleted_rows(&removed), 6);
    assert_eq!(engine.cleanup_old_transactions(3), 3);
    assert_eq!(engine.cleanup_old_previous_versions(&removed), 8);
}

#[test]
fn rows_leave_memory_after_their_volumes_are_registered() {
    let mut run = SealRun::new(2);
    let mut phases = vec![run.phase];
    for event in [
        SealEvent::Written { volumes: 2 },
        SealEvent::Done,
        SealEvent::Done,
        SealEvent::Done,
        SealEvent::Done,
        SealEvent::Done,
        SealEvent::Done,
        SealEvent::Done,
        SealEvent::Done,
    ] {
        run.step(event);
        phases.push(run.phase);
    }
    assert_eq!(
        phases,
        vec![
            SealPhase::Writing,
            SealPhase::Indexing,
            SealPhase::BuildingSide { volume: 0 },
            SealPhase::BuildingSide { volume: 1 },
            SealPhase::Registering,
            SealPhase::Removing { batch: 0 },
            SealPhase::Removing { batch: 1 },
            SealPhase::SettlingTombstones,
            SealPhase::Settling,
            SealPhase::Finished { sealed: true },
        ]
    );
    let mut failed = SealRun::new(1);
    failed.step(SealEvent::Written { volumes: 1 });
    failed.step(SealEvent::Failed);
    assert_eq!(failed.phase, SealPhase::Discarding);
    failed.step(SealEvent::Done);
    assert_eq!(failed.phase, SealPhase::Finished { sealed: false });
}
