//! Recovery from volumes, snapshots and the log.

use stoolap_mvcc::backup::{backup_table, ColdRow, StoredVersion};
use stoolap_mvcc::catalog_log::IndexRecord;
use stoolap_mvcc::ddl_file::{decode_ddl, encode_ddl};
use stoolap_mvcc::defaults::{
    schema_defaults_to_populate, settle_defaults, try_parse_default_literal, DefaultLiteral,
};
use stoolap_mvcc::engine::MVCCEngine;
use stoolap_mvcc::loading::SnapshotFile;
use stoolap_mvcc::opening::{OpenEvent, OpenPhase, OpenRun};
use stoolap_mvcc::recovery::{
    auto_increment_from_volumes, fate_at_startup, fate_beside_snapshot, is_user_backup, loads_as_volume,
    promoted_volume_id, recovery_mode, replay_from_manifests, replay_from_snapshots, RecoveryMode,
    VolumeFate, WalAction, WalEntry, WalOperation,
};
use stoolap_mvcc::schema::{DataType, Schema, SchemaColumn};
use stoolap_mvcc::schema_codec::{deserialize_schema, serialize_schema};
use stoolap_mvcc::schema_format::SchemaError;
use stoolap_mvcc::snapshot_meta::{
    encode_snapshot_metadata, read_snapshot_lsn, read_snapshot_metadata, read_text_snapshot_lsn,
};
use stoolap_mvcc::snapshot_writer::{SnapshotRow, SnapshotWriter, WriteError};
use stoolap_mvcc::view_def::{ViewDefinition, ViewError};

fn table(name: &str) -> Schema {
    Schema::with_timestamps_and_foreign_keys(
        name.to_string(),
        vec![
            SchemaColumn::with_constraints(0, "id", DataType::Integer, false, true, true, None, None),
            SchemaColumn::with_constraints(
                1,
                "note",
                DataType::Text,
                true,
                false,
                false,
                Some("'it''s'".to_string()),
                None,
            ),
        ],
        Vec::new(),
        7,
        8,
    )
}

fn open_engine() -> MVCCEngine {
    let mut engine = MVCCEngine::in_memory();
    engine.open_engine().unwrap();
    engine
}

fn entry(operation: WalOperation, table_name: &str, data: Vec<u8>) -> WalEntry {
    WalEntry { lsn: 42, txn_id: 3, table_name: table_name.to_string(), row_id: 5, operation, data }
}

#[test]
fn a_view_comes_back() {
    let view = ViewDefinition::new("Über", "SELECT 1".to_string());
    assert_eq!(view.name, "über");
    let data = view.serialize();
    let back = ViewDefinition::deserialize(&data).unwrap();
    assert_eq!(back.name, "über");
    assert_eq!(back.original_name, "Über");
    assert_eq!(back.query, "SELECT 1");
    assert!(matches!(ViewDefinition::deserialize(&[]), Err(ViewError::MissingNameLength)));
    assert!(matches!(ViewDefinition::deserialize(&[3, 0, b'a']), Err(ViewError::MissingName)));
    assert!(matches!(ViewDefinition::deserialize(&[1, 0, 0xFF]), Err(ViewError::InvalidName)));
    assert!(matches!(
        ViewDefinition::deserialize(&[1, 0, b'a']),
        Err(ViewError::MissingQueryLength)
    ));
    assert!(matches!(
        ViewDefinition::deserialize(&[1, 0, b'a', 1, 0, 0, 0]),
        Err(ViewError::MissingQuery)
    ));
    assert!(matches!(
        ViewDefinition::deserialize(&[1, 0, b'a', 1, 0, 0, 0, 0xC0]),
        Err(ViewError::InvalidQuery)
    ));
}

#[test]
fn a_view_is_stored_behind_its_lengths() {
    let data = ViewDefinition::new("Ab", "q".to_string()).serialize();
    assert_eq!(data, vec![2, 0, b'A', b'b', 1, 0, 0, 0, b'q']);
}

#[test]
fn snapshot_metadata_comes_back() {
    let data = encode_snapshot_metadata(99, 1234);
    assert_eq!(data.len(), 28);
    assert_eq!(&data[..4], b"SNAP");
    assert_eq!(read_snapshot_metadata(&data), 99);
    let mut damaged = data.clone();
    damaged[9] ^= 1;
    assert_eq!(read_snapshot_metadata(&damaged), 0);
    assert_eq!(read_snapshot_metadata(&data[..27]), 0);
    let crc = crc32fast::hash(&data[..24]);
    assert_eq!(&data[24..], &crc.to_le_bytes());
}

#[test]
fn the_text_form_of_metadata_is_read() {
    assert_eq!(read_text_snapshot_lsn(" {\"lsn\": 17 }\n"), 17);
    assert_eq!(read_text_snapshot_lsn("{\"lsn\":x}"), 0);
    assert_eq!(read_text_snapshot_lsn("17"), 0);
    assert_eq!(read_snapshot_lsn(None, Some("{\"lsn\":3}")), 3);
    let binary = encode_snapshot_metadata(9, 0);
    assert_eq!(read_snapshot_lsn(Some(&binary), Some("{\"lsn\":3}")), 9);
    assert_eq!(read_snapshot_lsn(None, None), 0);
}

#[test]
fn the_replay_begins_at_the_oldest_snapshot() {
    assert_eq!(replay_from_snapshots(10, &[]), 0);
    assert_eq!(replay_from_snapshots(0, &[8, 5, 9]), 5);
    assert_eq!(replay_from_snapshots(3, &[8, 5, 9]), 3);
    assert_eq!(replay_from_snapshots(7, &[8, 5, 9]), 5);
}

#[test]
fn the_replay_begins_at_the_oldest_manifest() {
    assert_eq!(replay_from_manifests(false, &[]), None);
    assert_eq!(replay_from_manifests(true, &[]), Some(0));
    assert_eq!(replay_from_manifests(true, &[0, 9, 4]), Some(4));
    assert_eq!(replay_from_manifests(true, &[0]), Some(0));
    assert_eq!(recovery_mode(Some(4), true), RecoveryMode::Volumes { lsn: 4 });
    assert_eq!(recovery_mode(None, true), RecoveryMode::Snapshots);
    assert_eq!(recovery_mode(None, false), RecoveryMode::Log);
}

#[test]
fn large_snapshots_are_loaded_as_volumes() {
    assert!(!loads_as_volume(false, 16 * 1024 * 1024));
    assert!(loads_as_volume(false, 16 * 1024 * 1024 + 1));
    assert!(loads_as_volume(true, 0));
}

#[test]
fn a_volume_file_is_loaded_kept_or_removed() {
    let name = "vol_00000000000000ff.vol";
    assert_eq!(fate_at_startup(name, true, false, true), VolumeFate::Load { id: 255 });
    assert_eq!(fate_at_startup(name, true, true, true), VolumeFate::Keep);
    assert_eq!(fate_at_startup(name, true, false, false), VolumeFate::Remove);
    assert_eq!(fate_at_startup("vol_x.vol", true, true, true), VolumeFate::Remove);
    assert_eq!(fate_at_startup("vol_x.vol", false, false, false), VolumeFate::Keep);
    assert_eq!(fate_beside_snapshot(name, false, true), VolumeFate::Load { id: 255 });
    assert_eq!(fate_beside_snapshot(name, false, false), VolumeFate::Keep);
    assert_eq!(fate_beside_snapshot("vol_x.vol", false, true), VolumeFate::Keep);
    assert_eq!(promoted_volume_id(" 77\n"), Some(77));
    assert_eq!(promoted_volume_id("7x"), None);
}

#[test]
fn a_backup_is_told_by_its_definitions() {
    assert!(is_user_backup(&["t".to_string(), "ddl-1.bin".to_string()]));
    assert!(is_user_backup(&["ddl.bin".to_string()]));
    assert!(!is_user_backup(&["snapshot.json".to_string(), "t".to_string()]));
}

#[test]
fn counters_follow_the_largest_row() {
    assert_eq!(auto_increment_from_volumes(&[&[3, 9], &[4]]), Some(9));
    assert_eq!(auto_increment_from_volumes(&[&[-3]]), None);
    assert_eq!(auto_increment_from_volumes(&[]), None);
}

#[test]
fn a_recorded_table_is_replayed() {
    let mut engine = open_engine();
    let record = entry(WalOperation::CreateTable, "Items", serialize_schema(&table("Items")));
    match engine.apply_wal_entry(&record, false, false, 100) {
        WalAction::OpenTable { table } => assert_eq!(table, "items"),
        other => panic!("{:?}", other),
    }
    let s = engine.get_table_schema("ITEMS").unwrap();
    assert_eq!(s.table_name, "Items");
    assert_eq!(s.created_at, 100);
    assert_eq!(s.columns[1].default_expr, Some("'it''s'".to_string()));
    match engine.apply_wal_entry(&entry(WalOperation::DropTable, "ITEMS", Vec::new()), false, false, 100) {
        WalAction::CloseTable { table } => assert_eq!(table, "items"),
        other => panic!("{:?}", other),
    }
    assert!(!engine.table_exists("items").unwrap());
}

#[test]
fn rows_are_replayed_unless_a_volume_has_them() {
    let mut engine = open_engine();
    engine.create_table(table("t")).unwrap();
    let insert = entry(WalOperation::Insert, "T", Vec::new());
    assert!(matches!(
        engine.apply_wal_entry(&insert, false, false, 0),
        WalAction::ApplyRow { .. }
    ));
    assert!(matches!(engine.apply_wal_entry(&insert, true, false, 0), WalAction::Nothing));
    assert!(matches!(
        engine.apply_wal_entry(&insert, true, true, 0),
        WalAction::ApplyRow { .. }
    ));
    let update = entry(WalOperation::Update, "t", Vec::new());
    assert!(matches!(
        engine.apply_wal_entry(&update, true, false, 0),
        WalAction::ApplyRow { .. }
    ));
    let delete = entry(WalOperation::Delete, "t", Vec::new());
    assert!(matches!(
        engine.apply_wal_entry(&delete, true, false, 0),
        WalAction::DeleteRow { in_memory: true, tombstone: true, .. }
    ));
    let elsewhere = entry(WalOperation::Insert, "u", Vec::new());
    assert!(matches!(engine.apply_wal_entry(&elsewhere, false, false, 0), WalAction::Nothing));
}

#[test]
fn other_records_are_replayed() {
    let mut engine = open_engine();
    engine.create_table(table("t")).unwrap();
    let view = ViewDefinition::new("V", "q".to_string()).serialize();
    engine.apply_wal_entry(&entry(WalOperation::CreateView, "V", view), false, false, 0);
    assert!(engine.view_exists("v").unwrap());
    engine.apply_wal_entry(&entry(WalOperation::DropView, "V", b"V".to_vec()), false, false, 0);
    assert!(!engine.view_exists("v").unwrap());
    assert!(matches!(
        engine.apply_wal_entry(&entry(WalOperation::CreateIndex, "T", vec![1]), false, false, 0),
        WalAction::CreateIndex { identity: 42, .. }
    ));
    match engine.apply_wal_entry(&entry(WalOperation::DropIndex, "T", b"i".to_vec()), false, false, 0) {
        WalAction::DropIndex { table, index } => {
            assert_eq!(table, "t");
            assert_eq!(index, "i");
        }
        other => panic!("{:?}", other),
    }
    assert!(matches!(
        engine.apply_wal_entry(&entry(WalOperation::Commit, "", Vec::new()), false, false, 0),
        WalAction::RecoverCommit { sequence: 42 }
    ));
    assert!(matches!(
        engine.apply_wal_entry(&entry(WalOperation::TruncateTable, "t", Vec::new()), false, false, 0),
        WalAction::Truncate { in_memory: true, .. }
    ));
    assert!(matches!(
        engine.apply_wal_entry(&entry(WalOperation::Rollback, "", Vec::new()), false, false, 0),
        WalAction::Nothing
    ));
}

#[test]
fn copies_rebuild_the_catalog() {
    let mut engine = open_engine();
    engine.create_table(table("A")).unwrap();
    engine.create_table(table("b")).unwrap();
    engine.create_view("V", "SELECT 1".to_string(), false).unwrap();
    let index = |table_name: &str, primary_key: bool| IndexRecord {
        table_name: table_name.to_string(),
        primary_key,
        data: vec![1, 2],
    };
    let copies = engine.catalog_copies(&[index("a", false), index("a", true), index("x", false)]);
    let operations: Vec<WalOperation> = copies.iter().map(|c| c.operation).collect();
    assert_eq!(
        operations,
        vec![
            WalOperation::CreateTable,
            WalOperation::CreateTable,
            WalOperation::CreateIndex,
            WalOperation::CreateView,
        ]
    );
    assert_eq!(copies[2].data, vec![1, 2]);
    let mut fresh = open_engine();
    for copy in copies {
        fresh.apply_wal_entry(&entry(copy.operation, &copy.table_name, copy.data), false, false, 5);
    }
    assert_eq!(fresh.get_table_schema("a").unwrap().columns.len(), 2);
    assert!(fresh.table_exists("b").unwrap());
    assert_eq!(fresh.get_view("v").unwrap().unwrap().query, "SELECT 1");
}

#[test]
fn a_log_schema_without_late_sections_is_read() {
    let data = serialize_schema(&table("t"));
    let back = deserialize_schema(&data, 1).unwrap();
    assert_eq!(back.columns.len(), 2);
    // The sections of foreign keys, of two default values and of the clustering key
    let short = deserialize_schema(&data[..data.len() - 2 - 6 - 2], 1).unwrap();
    assert_eq!(short.columns.len(), 2);
    assert!(matches!(deserialize_schema(&[1], 1), Err(SchemaError::TooShort)));
}

#[test]
fn definitions_come_back() {
    let views = [ViewDefinition::new("V", "q".to_string())];
    let data = encode_ddl(&[vec![1, 2, 3], Vec::new()], &views);
    assert_eq!(&data[..5], b"SDDL\x01");
    let (indexes, back) = decode_ddl(&data);
    assert_eq!(indexes, vec![vec![1, 2, 3], Vec::new()]);
    assert_eq!(back.len(), 1);
    assert_eq!(back[0].original_name, "V");
    let mut damaged = data;
    damaged[6] ^= 1;
    let (indexes, back) = decode_ddl(&damaged);
    assert!(indexes.is_empty() && back.is_empty());
}

#[test]
fn a_view_in_the_definitions_need_not_be_utf8() {
    let mut payload = b"SDDL\x01".to_vec();
    payload.extend_from_slice(&0u32.to_le_bytes());
    payload.extend_from_slice(&1u32.to_le_bytes());
    let view = [1, 0, 0xFF, 1, 0, 0, 0, b'q'];
    payload.extend_from_slice(&(view.len() as u32).to_le_bytes());
    payload.extend_from_slice(&view);
    let crc = crc32fast::hash(&payload);
    payload.extend_from_slice(&crc.to_le_bytes());
    let (_, views) = decode_ddl(&payload);
    assert_eq!(views[0].original_name, "\u{FFFD}");
}

#[test]
fn default_literals_are_told() {
    assert!(matches!(
        try_parse_default_literal(" null ", DataType::Text),
        DefaultLiteral::Null(DataType::Text)
    ));
    assert!(matches!(
        try_parse_default_literal("TRUE", DataType::Boolean),
        DefaultLiteral::Boolean(true)
    ));
    assert!(matches!(
        try_parse_default_literal("False", DataType::Boolean),
        DefaultLiteral::Boolean(false)
    ));
    assert!(matches!(
        try_parse_default_literal("-12", DataType::Integer),
        DefaultLiteral::Integer(-12, DataType::Integer)
    ));
    assert!(matches!(
        try_parse_default_literal("1.5", DataType::Float),
        DefaultLiteral::Other
    ));
    match try_parse_default_literal("'it''s'", DataType::Text) {
        DefaultLiteral::Text(s, _) => assert_eq!(s, "it's"),
        other => panic!("{:?}", other),
    }
    assert!(matches!(
        try_parse_default_literal("'a' || 'b'", DataType::Text),
        DefaultLiteral::Other
    ));
    assert!(matches!(try_parse_default_literal("'''", DataType::Text), DefaultLiteral::Other));
    assert!(matches!(
        try_parse_default_literal("NOW()", DataType::Timestamp),
        DefaultLiteral::Other
    ));
    let found = schema_defaults_to_populate(&table("t"));
    assert_eq!(found.len(), 1);
    assert_eq!(found[0].0, 1);
}

#[test]
fn a_backup_is_restored() {
    let mut writer = SnapshotWriter::with_source_lsn(1, 21);
    writer.write_schema(&table("Items"));
    for i in 1..=3 {
        writer
            .append_row(&SnapshotRow { row_id: i, txn_id: -1, create_time: 0, encoded: vec![i as u8; 100] })
            .unwrap();
    }
    let file = writer.finalize();
    let mut engine = open_engine();
    let loaded = engine
        .load_newest_snapshot(
            "items",
            vec![
                SnapshotFile { name: "snapshot-1.bin".to_string(), data: file },
                SnapshotFile { name: "snapshot-2.bin".to_string(), data: vec![0; 80] },
            ],
            9,
        )
        .unwrap();
    assert_eq!(loaded.table, "items");
    assert_eq!(loaded.source_lsn, 21);
    assert_eq!(loaded.rows.len(), 3);
    assert_eq!(loaded.rows[1], (2, vec![2u8; 100]));
    let s = engine.get_table_schema("items").unwrap();
    assert_eq!((s.created_at, s.updated_at), (7, 8));
    assert_eq!(engine.oldest_loaded_snapshot_timestamp(), Some("1".to_string()));
    assert!(engine.load_newest_snapshot("x", Vec::new(), 9).is_none());
    assert!(engine.load_table_snapshot(Vec::new(), 9).is_err());
}

#[test]
fn opening_replays_the_log_after_the_volumes() {
    let mut o = OpenRun::new(false, true);
    assert_eq!(o.phase, OpenPhase::Locking);
    o.step(OpenEvent::Done);
    o.step(OpenEvent::Done);
    assert_eq!(o.phase, OpenPhase::ReadingManifests);
    o.step(OpenEvent::Found { volume_lsn: Some(12), snapshots: true });
    assert_eq!(o.phase, OpenPhase::LoadingVolumes { lsn: 12 });
    o.step(OpenEvent::Done);
    assert_eq!(o.phase, OpenPhase::Replaying { lsn: 12, migrate: false });
    assert!(!o.writes_log());
    o.step(OpenEvent::Done);
    o.step(OpenEvent::Done);
    o.step(OpenEvent::Done);
    o.step(OpenEvent::Done);
    assert_eq!(o.phase, OpenPhase::LookingForRows);
    o.step(OpenEvent::Rows { left: true });
    o.step(OpenEvent::Failed);
    assert_eq!(o.phase, OpenPhase::Persisting);
    o.step(OpenEvent::Done);
    assert_eq!(o.phase, OpenPhase::Finished { failed: false });
    assert!(o.writes_log());
}

#[test]
fn opening_migrates_snapshots_once() {
    let mut o = OpenRun::new(true, true);
    o.step(OpenEvent::Done);
    o.step(OpenEvent::Found { volume_lsn: None, snapshots: true });
    assert_eq!(o.phase, OpenPhase::LoadingSnapshots);
    o.step(OpenEvent::Loaded { lsn: 5 });
    o.step(OpenEvent::Done);
    assert_eq!(o.phase, OpenPhase::Replaying { lsn: 5, migrate: true });
    for _ in 0..4 {
        o.step(OpenEvent::Done);
    }
    assert_eq!(o.phase, OpenPhase::Migrating);
    let mut kept = o;
    kept.step(OpenEvent::Migrated { backups: true });
    assert_eq!(kept.phase, OpenPhase::LookingForRows);
    o.step(OpenEvent::Migrated { backups: false });
    assert_eq!(o.phase, OpenPhase::RemovingSnapshots);
}

#[test]
fn opening_in_memory_ends_at_once() {
    let mut o = OpenRun::new(true, false);
    o.step(OpenEvent::Done);
    assert_eq!(o.phase, OpenPhase::Finished { failed: false });
    let mut locked = OpenRun::new(false, true);
    locked.step(OpenEvent::Failed);
    assert_eq!(locked.phase, OpenPhase::Finished { failed: true });
}

#[test]
fn a_backup_has_the_rows_of_memory_and_of_volumes() {
    let hot = |row_id: i64, deleted: bool| StoredVersion {
        row_id,
        create_time: 4,
        deleted,
        encoded: vec![1, row_id as u8],
    };
    let cold = |row_id: i64| ColdRow { row_id, encoded: vec![2, row_id as u8] };
    let file = backup_table(&table("t"), &[hot(1, false), hot(2, true)], &[cold(3)], 50).unwrap();
    let mut engine = open_engine();
    let loaded = engine.load_table_snapshot(file, 9).unwrap();
    assert_eq!(loaded.source_lsn, 0);
    assert_eq!(loaded.rows, vec![(1, vec![1, 1]), (2, vec![1, 2]), (3, vec![2, 3])]);
    assert_eq!(
        backup_table(&table("t"), &[hot(1, false)], &[cold(1)], 50),
        Err(WriteError::DuplicateRow { row_id: 1 })
    );
}

#[test]
fn definitions_are_restored() {
    let views = [
        ViewDefinition::new("V", "old".to_string()),
        ViewDefinition::new("W", "q".to_string()),
    ];
    let data = encode_ddl(&[vec![7]], &views);
    let mut engine = open_engine();
    engine.create_view("v", "mine".to_string(), false).unwrap();
    engine.create_view("x", "kept".to_string(), false).unwrap();
    assert_eq!(engine.restore_ddl_from_bin(&data), vec![vec![7]]);
    assert_eq!(engine.get_view("v").unwrap().unwrap().query, "old");
    assert_eq!(engine.get_view("w").unwrap().unwrap().original_name, "W");
    assert_eq!(engine.get_view("x").unwrap().unwrap().query, "kept");
    assert!(engine.restore_ddl_from_bin(b"SDDL").is_empty());
}

#[test]
fn stored_defaults_that_are_no_values_are_told_from_their_expressions() {
    let mut schema = table("t");
    schema.columns[0].default_value = Some(vec![1]);
    schema.columns[1].default_value = Some(vec![0xFF]);
    let mut back = deserialize_schema(&serialize_schema(&schema), 1).unwrap();
    let found = settle_defaults(&mut back, &|b: &[u8]| b[0] != 0xFF);
    assert_eq!(back.columns[0].default_value, Some(vec![1]));
    assert_eq!(back.columns[1].default_value, None);
    assert_eq!(found.len(), 1);
    assert_eq!(found[0].0, 1);
    assert!(matches!(&found[0].1, DefaultLiteral::Text(s, DataType::Text) if s == "it's"));
}

#[test]
fn a_logged_key_past_the_columns_is_refused() {
    let mut schema = table("t");
    let columns = schema.columns.len();
    schema.cluster_key = vec![columns - 1];
    let good = deserialize_schema(&serialize_schema(&schema), 1).unwrap();
    assert_eq!(good.cluster_key, vec![columns - 1]);
    schema.cluster_key = vec![0, columns];
    assert!(matches!(
        deserialize_schema(&serialize_schema(&schema), 1),
        Err(SchemaError::ClusterKeyPastEnd)
    ));
}
