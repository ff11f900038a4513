//! The storage engine's verified core.

pub mod alter_table;
pub mod backfill;
pub mod backfill_laws;
pub mod backup;
pub mod backup_laws;
pub mod backup_run;
pub mod batch;
pub mod batch_closure;
pub mod batch_laws;
pub mod batch_merge;
pub mod batch_rules;
pub mod bytes;
pub mod catalog_laws;
pub mod catalog_log;
pub mod checkpoint;
pub mod checksum;
pub mod commit;
pub mod compaction;
pub mod compaction_laws;
pub mod compaction_plan;
pub mod compaction_run;
pub mod compression;
pub mod ddl_file;
pub mod defaults;
pub mod disk_store;
pub mod engine;
pub mod engine_laws;
pub mod format_laws;
pub mod hot_limits;
pub mod indexes;
pub mod key_order;
pub mod listing;
pub mod live_rows;
pub mod loading;
pub mod name_map;
pub mod names;
pub mod opening;
pub mod order_laws;
pub mod pending;
pub mod pending_laws;
pub mod reader_laws;
pub mod recovery;
pub mod recovery_laws;
pub mod restore;
pub mod restore_laws;
pub mod restore_run;
pub mod row_set;
pub mod rows;
pub mod run_laws;
pub mod schema;
pub mod schema_change;
pub mod schema_codec;
pub mod schema_format;
pub mod schema_laws;
pub mod seal;
pub mod seal_laws;
pub mod seal_run;
pub mod selection;
pub mod snapshot_format;
pub mod snapshot_laws;
pub mod snapshot_meta;
pub mod snapshot_reader;
pub mod snapshot_writer;
pub mod stats;
pub mod stats_laws;
pub mod text;
pub mod text_laws;
pub mod transaction_ddl;
pub mod view_def;
pub mod view_laws;
