//! The engine's catalog.

use stoolap_mvcc::alter_table::{
    decode_alter_table, encode_add_column, encode_cluster_by, encode_drop_column,
    encode_modify_column, encode_rename_column, encode_rename_table, AlterError, AlterTable,
};
use stoolap_mvcc::backup_run::check_backup;
use stoolap_mvcc::engine::{Config, EngineError, IsolationLevel, MVCCEngine};
use stoolap_mvcc::indexes::hands_out_hot_indexes;
use stoolap_mvcc::schema::{DataType, ForeignKeyAction, ForeignKeyConstraint, Schema, SchemaColumn};

fn column(id: usize, name: &str, data_type: DataType, nullable: bool, primary_key: bool) -> SchemaColumn {
    SchemaColumn::with_constraints(id, name, data_type, nullable, primary_key, false, None, None)
}

fn schema(name: &str, columns: Vec<SchemaColumn>) -> Schema {
    Schema::with_timestamps_and_foreign_keys(name.to_string(), columns, Vec::new(), 1, 1)
}

fn one_column(name: &str) -> Schema {
    schema(name, vec![column(0, "id", DataType::Integer, false, true)])
}

fn two_columns(name: &str) -> Schema {
    schema(
        name,
        vec![
            column(0, "id", DataType::Integer, false, true),
            column(1, "name", DataType::Text, true, false),
        ],
    )
}

fn open_engine() -> MVCCEngine {
    let mut engine = MVCCEngine::in_memory();
    engine.open_engine().unwrap();
    engine
}

#[test]
fn test_engine_creation() {
    let engine = MVCCEngine::in_memory();
    assert!(!engine.is_open());
    assert_eq!(engine.get_path(), "memory://");
}

#[test]
fn test_engine_open_close() {
    let mut engine = MVCCEngine::in_memory();

    engine.open_engine().unwrap();
    assert!(engine.is_open());

    engine.close_engine().unwrap();
    assert!(!engine.is_open());
}

#[test]
fn test_engine_create_table() {
    let mut engine = MVCCEngine::in_memory();
    engine.open_engine().unwrap();

    let created = engine.create_table(two_columns("users")).unwrap();
    assert_eq!(created.table_name, "users");

    // Table should exist
    assert!(engine.table_exists("users").unwrap());
    assert!(engine.table_exists("USERS").unwrap()); // Case insensitive

    engine.close_engine().unwrap();
}

#[test]
fn test_engine_drop_table() {
    let mut engine = MVCCEngine::in_memory();
    engine.open_engine().unwrap();

    engine.create_table(one_column("temp")).unwrap();
    assert!(engine.table_exists("temp").unwrap());

    engine.drop_table_internal("temp").unwrap();
    assert!(!engine.table_exists("temp").unwrap());

    engine.close_engine().unwrap();
}

#[test]
fn test_engine_duplicate_table_error() {
    let mut engine = MVCCEngine::in_memory();
    engine.open_engine().unwrap();

    let schema = one_column("dup");

    engine.create_table(schema.duplicate()).unwrap();

    let result = engine.create_table(schema);
    assert!(result.is_err());

    engine.close_engine().unwrap();
}

#[test]
fn test_engine_transaction_create_table() {
    let mut engine = open_engine();

    // Create table through transaction
    let schema = schema(
        "txn_table",
        vec![
            column(0, "id", DataType::Integer, false, true),
            column(1, "value", DataType::Text, true, false),
        ],
    );
    engine.create_table_in_transaction("txn_table", schema).unwrap();
    let table = engine.get_table_schema("txn_table").unwrap();
    assert_eq!(table.table_name, "txn_table");

    engine.close_engine().unwrap();
}

#[test]
fn test_engine_create_snapshot() {
    let mut engine = open_engine();

    // Should succeed: there is nothing to back up
    assert!(check_backup(engine.is_open(), false).is_ok());

    engine.close_engine().unwrap();
}

#[test]
fn test_engine_isolation_level() {
    let mut engine = MVCCEngine::in_memory();
    engine.open_engine().unwrap();

    // Default should be ReadCommitted
    assert_eq!(engine.get_isolation_level(), IsolationLevel::ReadCommitted);

    // Set to Snapshot
    engine
        .set_isolation_level(IsolationLevel::SnapshotIsolation)
        .unwrap();
    assert_eq!(
        engine.get_isolation_level(),
        IsolationLevel::SnapshotIsolation
    );

    engine.close_engine().unwrap();
}

#[test]
fn test_engine_get_version_store() {
    let mut engine = MVCCEngine::in_memory();
    engine.open_engine().unwrap();

    engine.create_table(one_column("versioned")).unwrap();

    let store = engine.get_version_store("versioned");
    assert!(store.is_ok());

    let store = engine.get_version_store("nonexistent");
    assert!(store.is_err());

    engine.close_engine().unwrap();
}

#[test]
fn test_engine_get_table_schema() {
    let mut engine = MVCCEngine::in_memory();
    engine.open_engine().unwrap();

    engine.create_table(two_columns("test_schema")).unwrap();

    let retrieved = engine.get_table_schema("test_schema").unwrap();
    assert_eq!(retrieved.columns.len(), 2);
    assert_eq!(retrieved.columns[0].name, "id");

    // Non-existent table
    assert!(engine.get_table_schema("nonexistent").is_err());

    engine.close_engine().unwrap();
}

#[test]
fn test_engine_path() {
    let engine = MVCCEngine::in_memory();
    assert!(engine.path().is_none());

    let config = Config::with_path("/tmp/test.db");
    let engine = MVCCEngine::new(config);
    assert_eq!(engine.path(), Some("/tmp/test.db"));
}

#[test]
fn a_store_is_found_whatever_the_case() {
    let mut engine = open_engine();
    engine.create_table(one_column("Versioned")).unwrap();
    assert_eq!(engine.get_version_store("VERSIONED").unwrap(), "versioned");
}

#[test]
fn a_closed_engine_refuses() {
    let mut engine = MVCCEngine::in_memory();
    assert!(matches!(engine.create_table(one_column("t")), Err(EngineError::EngineNotOpen)));
    assert!(matches!(engine.drop_table_internal("t"), Err(EngineError::EngineNotOpen)));
    assert!(matches!(engine.table_exists("t"), Err(EngineError::EngineNotOpen)));
    assert!(matches!(engine.get_table_schema("t"), Err(EngineError::EngineNotOpen)));
    assert!(matches!(engine.get_version_store("t"), Err(EngineError::EngineNotOpen)));
    assert!(matches!(
        engine.create_view("v", "SELECT 1".to_string(), false),
        Err(EngineError::EngineNotOpen)
    ));
    assert!(matches!(engine.list_views(), Err(EngineError::EngineNotOpen)));
}

#[test]
fn a_schema_with_a_fault_is_refused() {
    let mut engine = open_engine();
    assert!(matches!(engine.create_table(one_column("")), Err(EngineError::MissingTableName)));
    let empty = schema("t", vec![column(0, "", DataType::Integer, true, false)]);
    assert!(matches!(engine.create_table(empty), Err(EngineError::EmptyColumnName)));
    let text_key = schema("t", vec![column(0, "k", DataType::Text, false, true)]);
    match engine.create_table(text_key) {
        Err(EngineError::PrimaryKeyNotInteger(name)) => assert_eq!(name, "k"),
        other => panic!("{:?}", other.is_ok()),
    }
    let twice = schema(
        "t",
        vec![
            column(0, "a", DataType::Integer, true, false),
            column(1, "A", DataType::Integer, true, false),
        ],
    );
    assert!(matches!(engine.create_table(twice), Err(EngineError::DuplicateColumn)));
    let mut key = one_column("t");
    key.cluster_key.push(1);
    assert!(matches!(engine.create_table(key), Err(EngineError::ClusterKeyPastEnd)));
    assert_eq!(engine.schema_epoch(), 0);
    assert!(engine.get_all_table_names().is_empty());
}

#[test]
fn every_change_moves_the_epoch() {
    let mut engine = open_engine();
    engine.create_table(one_column("t")).unwrap();
    assert_eq!(engine.schema_epoch(), 1);
    engine.create_column("t", "v", DataType::Text, true).unwrap();
    assert_eq!(engine.schema_epoch(), 2);
    engine.drop_table_internal("t").unwrap();
    assert_eq!(engine.schema_epoch(), 3);
    engine.raise_epoch(10);
    assert_eq!(engine.schema_epoch(), 11);
    engine.raise_epoch(4);
    assert_eq!(engine.schema_epoch(), 11);
    assert_eq!(engine.stats_epoch(), 0);
    engine.bump_stats_epoch();
    assert_eq!(engine.stats_epoch(), 1);
}

#[test]
fn a_renamed_table_moves() {
    let mut engine = open_engine();
    engine.create_table(one_column("a")).unwrap();
    engine.create_table(one_column("b")).unwrap();
    assert!(matches!(engine.rename_table("a", "B"), Err(EngineError::TableAlreadyExists(_))));
    assert!(matches!(engine.rename_table("x", "y"), Err(EngineError::TableNotFound(_))));
    engine.rename_table("A", "C").unwrap();
    assert!(!engine.table_exists("a").unwrap());
    assert_eq!(engine.get_table_schema("c").unwrap().table_name, "C");
    engine.rename_table("c", "a").unwrap();
    assert!(engine.table_exists("a").unwrap());
}

#[test]
fn a_dropped_table_is_referenced_no_more() {
    let mut engine = open_engine();
    engine.create_table(one_column("parent")).unwrap();
    let child = Schema::with_timestamps_and_foreign_keys(
        "child".to_string(),
        vec![
            column(0, "id", DataType::Integer, false, true),
            column(1, "p", DataType::Integer, true, false),
        ],
        vec![ForeignKeyConstraint {
            column_index: 1,
            column_name: "p".to_string(),
            referenced_table: "parent".to_string(),
            referenced_column: "id".to_string(),
            on_delete: ForeignKeyAction::Cascade,
            on_update: ForeignKeyAction::Restrict,
        }],
        1,
        1,
    );
    engine.create_table(child).unwrap();
    let keys = engine.find_referencing_fks("parent");
    assert_eq!(keys.len(), 1);
    assert_eq!(keys[0].0, "child");
    engine.drop_table_internal("parent").unwrap();
    assert!(engine.find_referencing_fks("parent").is_empty());
    assert!(engine.get_table_schema("child").unwrap().foreign_keys.is_empty());
}

#[test]
fn columns_come_change_and_go() {
    let mut engine = open_engine();
    engine.create_table(two_columns("t")).unwrap();
    engine
        .create_column_with_default("t", "v", DataType::Vector, true, Some("NULL".to_string()), 8)
        .unwrap();
    let s = engine.get_table_schema("t").unwrap();
    assert_eq!(s.columns.len(), 3);
    assert_eq!(s.columns[2].name, "v");
    assert_eq!(s.columns[2].vector_dimensions, 8);
    assert_eq!(s.columns[2].default_expr, Some("NULL".to_string()));
    assert!(matches!(
        engine.create_column("t", "V", DataType::Text, true),
        Err(EngineError::DuplicateColumn)
    ));
    engine.rename_column("t", "name", "title").unwrap();
    assert_eq!(engine.get_table_schema("t").unwrap().columns[1].name, "title");
    match engine.rename_column("t", "name", "x") {
        Err(EngineError::ColumnNotFound(name)) => assert_eq!(name, "name"),
        other => panic!("{:?}", other),
    }
    engine.modify_column("t", "title", DataType::Integer, false).unwrap();
    let s = engine.get_table_schema("t").unwrap();
    assert_eq!(s.columns[1].data_type, DataType::Integer);
    assert!(!s.columns[1].nullable);
    engine
        .modify_column_with_dimensions("t", "v", DataType::Vector, true, 16)
        .unwrap();
    assert_eq!(engine.get_table_schema("t").unwrap().columns[2].vector_dimensions, 16);
    assert!(matches!(engine.drop_column("t", "id"), Err(EngineError::CannotDropPrimaryKey)));
    engine.drop_column("t", "title").unwrap();
    let s = engine.get_table_schema("t").unwrap();
    assert_eq!(s.columns.len(), 2);
    assert_eq!(s.columns[1].name, "v");
}

#[test]
fn a_clustering_key_names_columns() {
    let mut engine = open_engine();
    engine.create_table(two_columns("t")).unwrap();
    assert!(matches!(
        engine.set_cluster_key("t", vec![2]),
        Err(EngineError::ClusterKeyPastEnd)
    ));
    engine.set_cluster_key("t", vec![1, 0]).unwrap();
    assert_eq!(engine.get_table_schema("t").unwrap().cluster_key, vec![1, 0]);
}

#[test]
fn a_view_is_found_whatever_the_case() {
    let mut engine = open_engine();
    engine.create_view("Big", "SELECT 1".to_string(), false).unwrap();
    assert!(engine.view_exists("BIG").unwrap());
    assert!(engine.view_exists_lowercase("big").unwrap());
    let view = engine.get_view("bIg").unwrap().unwrap();
    assert_eq!(view.original_name, "Big");
    assert_eq!(view.query, "SELECT 1");
    assert!(engine.get_view_lowercase("none").unwrap().is_none());
    assert_eq!(engine.list_views().unwrap(), vec!["Big".to_string()]);
    assert!(engine.create_view("big", "SELECT 2".to_string(), true).is_ok());
    assert_eq!(engine.get_view("big").unwrap().unwrap().query, "SELECT 1");
    assert!(matches!(
        engine.create_view("big", "SELECT 2".to_string(), false),
        Err(EngineError::ViewAlreadyExists(_))
    ));
    engine.drop_view("BIG", false).unwrap();
    assert!(matches!(engine.drop_view("big", false), Err(EngineError::ViewNotFound(_))));
    assert!(engine.drop_view("big", true).is_ok());
    engine.create_table(one_column("t")).unwrap();
    assert!(matches!(
        engine.create_view("T", "SELECT 1".to_string(), true),
        Err(EngineError::ViewNameIsTable(_))
    ));
}

#[test]
fn names_beyond_ascii_are_lowered() {
    let mut engine = open_engine();
    engine.create_table(one_column("\u{c9}")).unwrap();
    assert!(engine.table_exists("\u{c9}").unwrap());
    assert!(engine.table_exists("\u{e9}").unwrap());
    assert_eq!(engine.get_version_store("\u{c9}").unwrap(), "\u{e9}");
    assert_eq!(engine.get_table_schema("\u{c9}").unwrap().table_name, "\u{c9}");
    engine.create_view("ÄRGER", "SELECT 1".to_string(), false).unwrap();
    assert!(engine.view_exists("ärger").unwrap());
}

#[test]
fn the_path_cannot_change() {
    let mut engine = MVCCEngine::new(Config::with_path("/a"));
    assert!(matches!(
        engine.update_engine_config(Config::with_path("/b")),
        Err(EngineError::PathChanged)
    ));
    let mut config = Config::with_path("/a");
    config.hot_max_rows = 5;
    config.hot_max_bytes = 6;
    engine.update_engine_config(config).unwrap();
    assert_eq!(engine.config().hot_max_rows, 5);
    assert_eq!(engine.hot_limits().max_rows, 5);
    assert_eq!(engine.hot_limits().max_bytes, 6);
}

#[test]
fn recorded_changes_are_replayed() {
    let mut engine = open_engine();
    engine.create_table(two_columns("t")).unwrap();
    engine
        .replay_alter_table(&encode_add_column("t", "w", DataType::Vector, true, &None, 4))
        .unwrap();
    engine.replay_alter_table(&encode_rename_column("t", "name", "title")).unwrap();
    engine
        .replay_alter_table(&encode_modify_column("t", "title", DataType::Integer, true, 0))
        .unwrap();
    engine.replay_alter_table(&encode_cluster_by("t", &vec![1])).unwrap();
    engine.replay_alter_table(&encode_drop_column("t", "w")).unwrap();
    engine.replay_alter_table(&encode_rename_table("t", "u")).unwrap();
    let s = engine.get_table_schema("u").unwrap();
    assert_eq!(s.columns.len(), 2);
    assert_eq!(s.columns[1].name, "title");
    assert_eq!(s.columns[1].data_type, DataType::Integer);
    assert_eq!(s.cluster_key, vec![1]);
    assert!(matches!(
        engine.replay_alter_table(&[]),
        Err(EngineError::Alter(AlterError::Empty))
    ));
}

#[test]
fn changes_that_are_not_whole_are_refused() {
    let whole = encode_drop_column("t", "c");
    match decode_alter_table(&whole) {
        Ok(AlterTable::DropColumn { table, column }) => {
            assert_eq!(table, "t");
            assert_eq!(column, "c");
        }
        other => panic!("{:?}", other),
    }
    assert!(matches!(decode_alter_table(&whole[..1]), Err(AlterError::MissingTableNameLength)));
    assert!(matches!(decode_alter_table(&whole[..3]), Err(AlterError::MissingTableName)));
    assert!(matches!(
        decode_alter_table(&whole[..4]),
        Err(AlterError::Missing { op: 2, .. })
    ));
    assert!(matches!(
        decode_alter_table(&[9, 1, 0, b't']),
        Err(AlterError::UnknownOperation { op: 9 })
    ));
    assert!(matches!(
        decode_alter_table(&[2, 1, 0, 0xFF]),
        Err(AlterError::InvalidTableName)
    ));
}

#[test]
fn the_oldest_loaded_snapshot_is_known() {
    let mut engine = open_engine();
    assert!(engine.oldest_loaded_snapshot_timestamp().is_none());
    engine.note_snapshot("a", "20260102-000000.000");
    engine.note_snapshot("b", "20260101-000000.000");
    assert_eq!(
        engine.oldest_loaded_snapshot_timestamp(),
        Some("20260101-000000.000".to_string())
    );
    engine.clear_catalog();
    assert!(engine.oldest_loaded_snapshot_timestamp().is_none());
}

#[test]
fn limits_change_only_where_they_are_meant_to() {
    let mut engine = open_engine();
    engine.begin_wait();
    assert_eq!(engine.hot_limits().admission_waits, 1);
    engine.create_table(one_column("t")).unwrap();
    assert_eq!(engine.hot_limits().max_rows, 0);
    assert!(engine.take_seal_request());
    assert!(!engine.take_seal_request());
    engine.request_seal_if_over(true);
    assert!(engine.take_seal_request());
}

#[test]
fn nothing_is_logged_while_loading() {
    let mut engine = open_engine();
    assert!(!engine.should_skip_wal());
    engine.set_loading(true);
    assert!(engine.should_skip_wal());
}

#[test]
fn a_schema_that_changed_elsewhere_is_taken_over() {
    let mut engine = open_engine();
    engine.create_table(one_column("t")).unwrap();
    engine.refresh_schema_cache("T", two_columns("t")).unwrap();
    assert_eq!(engine.get_table_schema("t").unwrap().columns.len(), 2);
    assert!(matches!(
        engine.refresh_schema_cache("none", one_column("none")),
        Err(EngineError::TableNotFound(_))
    ));
    let before = engine.schema_epoch();
    engine.invalidate_caches();
    assert_eq!(engine.schema_epoch(), before + 1);
    assert_eq!(engine.get_all_schemas().len(), 1);
    assert!(engine.get_all_views().is_empty());
    assert_eq!(engine.dedup_segments(), 0);
    assert!(engine.validate_schema(&one_column("u")).is_ok());
}

#[test]
fn a_column_that_was_added_and_dropped_leaves_nothing() {
    let mut engine = open_engine();
    engine.create_table(two_columns("t")).unwrap();
    engine.set_cluster_key("t", vec![1]).unwrap();
    engine.create_column("t", "extra", DataType::Integer, true).unwrap();
    engine.drop_column("t", "EXTRA").unwrap();
    let s = engine.get_table_schema("t").unwrap();
    assert_eq!(s.columns.len(), 2);
    assert_eq!(s.cluster_key, vec![1]);
}

#[test]
fn a_rename_is_taken_back_where_its_files_stay() {
    let mut engine = open_engine();
    engine.create_table(one_column("Items")).unwrap();
    let epoch = engine.schema_epoch();
    engine.move_table("Items", "Things").unwrap();
    assert!(engine.table_exists("things").unwrap());
    assert!(matches!(engine.move_table("items", "x"), Err(EngineError::TableNotFound(_))));
    engine.revert_move("Items", "Things");
    assert_eq!(engine.get_table_schema("items").unwrap().table_name, "Items");
    assert!(!engine.table_exists("things").unwrap());
    assert_eq!(engine.schema_epoch(), epoch);
}

#[test]
fn tables_that_transactions_change_move_the_epoch() {
    let mut engine = open_engine();
    engine.create_table_in_transaction("Txn_Table", two_columns("txn_table")).unwrap();
    assert!(engine.table_exists("txn_table").unwrap());
    assert!(matches!(
        engine.create_table_in_transaction("TXN_TABLE", one_column("txn_table")),
        Err(EngineError::TableAlreadyExists(_))
    ));
    assert_eq!(engine.schema_epoch(), 1);
    engine.rename_table_in_transaction("txn_table", "Other").unwrap();
    assert_eq!(engine.schema_epoch(), 2);
    assert_eq!(engine.get_table_schema("other").unwrap().table_name, "Other");
    assert!(matches!(
        engine.move_table_in_transaction("txn_table", "x"),
        Err(EngineError::TableNotFound(_))
    ));
    engine.drop_table_in_transaction("OTHER").unwrap();
    assert!(matches!(
        engine.drop_table_in_transaction("other"),
        Err(EngineError::TableNotFound(_))
    ));
    assert_eq!(engine.schema_epoch(), 3);
}

#[test]
fn no_index_of_a_persistent_database_is_handed_out() {
    let mut engine = open_engine();
    engine.create_table(one_column("t")).unwrap();
    assert_eq!(engine.get_all_indexes("T", vec!["pk"]).unwrap(), vec!["pk"]);
    assert_eq!(engine.get_lookup_indexes("t", false, vec!["pk"]).unwrap(), vec!["pk"]);
    assert!(engine.get_lookup_indexes("t", true, vec!["pk"]).unwrap().is_empty());
    assert!(engine.get_lookup_indexes("none", true, vec!["pk"]).unwrap().is_empty());
    assert!(matches!(
        engine.get_lookup_indexes("None", false, vec!["pk"]),
        Err(EngineError::TableNotFound(name)) if name == "none"
    ));
    engine.close_engine().unwrap();
    assert!(matches!(
        engine.get_lookup_indexes("t", false, vec!["pk"]),
        Err(EngineError::EngineNotOpen)
    ));
    assert!(hands_out_hot_indexes(false) && !hands_out_hot_indexes(true));
}
