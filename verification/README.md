# stoolap_mvcc

The core of a multi-version storage engine, written in Verus: the rules by which tables, snapshots,
volumes and the log are kept consistent, each with a contract that is proved.

- `src/` is the verified library.
  - Bytes and text: `bytes`, `text`, `names`, `name_map`, `checksum`, `compression`, `listing`,
    `row_set`.
  - What is stored: `schema`, `schema_format`, `schema_codec`, `schema_laws`, `schema_change`,
    `view_def`, `alter_table`, `ddl_file`, `defaults`, `rows`.
  - Snapshots: `snapshot_format`, `snapshot_meta`, `snapshot_writer`, `snapshot_reader`,
    `snapshot_laws`, `disk_store`.
  - The catalog: `engine`, `engine_laws`, `catalog_log`, `indexes`, `stats`.
  - Recovery, backup and restore: `opening`, `recovery`, `loading`, `backup`, `backup_run`,
    `restore`, `restore_run`.
  - Transactions: `transaction_ddl`, `pending`, `commit`, `hot_limits`.
  - Maintenance: `seal`, `seal_run`, `checkpoint`, `backfill`, `live_rows`, `key_order`, `batch`,
    `batch_closure`, `batch_laws`, `batch_merge`, `compaction`, `compaction_plan`,
    `compaction_run`.
- `app/` is ordinary Rust around it: files, clocks, locks, error texts, and the loops that perform
  the steps which the library decides on.
- `tests/` runs the library on concrete values.

A long operation is a small state machine: the library says which step comes next, its caller
performs the step and reports how it went. The laws beside each machine say what holds of every run.
