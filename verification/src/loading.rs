//! Loading tables from their snapshots.

use crate::backup::holds_table;
use crate::checksum::crc32;
use crate::ddl_file::{
    ddl_bytes, ddl_round_trip, decode_ddl, definition_views, entry_views, read_ddl, storable_view,
    view_entries,
};
use crate::view_def::ViewV;
use crate::engine::{EngineV, MVCCEngine};
use crate::listing::lists;
use crate::names::{snapshot_timestamp, timestamp_in_name};
use crate::schema::{Schema, SchemaV};
use crate::schema_format::{snapshot_schema_bytes, storable};
use crate::snapshot_format::new_header;
use crate::snapshot_laws::{rows_in, snapshot_round_trip};
use crate::snapshot_reader::{
    FileV, OpenError, SnapshotReader, are_rows_of, file_crc, read_file, readable_rows, row_at,
    row_views,
};
use crate::snapshot_writer::{Piece, SnapshotRow, is_snapshot_file, took_rows};
use vstd::prelude::*;
use vstd::string::*;

verus! {

/// A table that was loaded from a snapshot.
#[derive(Debug)]
pub struct LoadedTable {
    /// Its name in lower case.
    pub table: String,
    /// The log position up to which the snapshot goes.
    pub source_lsn: u64,
    /// Its rows in their encoded form.
    pub rows: Vec<(i64, Vec<u8>)>,
}

/// Whether a table was loaded from the file `data`.
pub open spec fn is_loaded_from(t: LoadedTable, data: Seq<u8>, f: FileV) -> bool {
    &&& t.table@ == f.schema.table_name_lower
    &&& t.source_lsn == f.header.source_lsn
    &&& are_rows_of(row_views(t.rows@), data, f.index)
}

/// The engine after a snapshot was loaded.
pub open spec fn with_loaded_table(e: EngineV, f: FileV) -> EngineV {
    EngineV { tables: e.tables.insert(f.schema.table_name_lower, f.schema), ..e }
}

/// The engine after a snapshot was loaded from the file `name` in the table's directory.
pub open spec fn with_noted_table(e: EngineV, f: FileV, directory: Seq<char>, name: Seq<char>) -> EngineV {
    let after = with_loaded_table(e, f);
    match timestamp_in_name(name) {
        Some(t) => EngineV { timestamps: after.timestamps.insert(directory, t), ..after },
        None => after,
    }
}

/// A snapshot file.
#[derive(Debug)]
pub struct SnapshotFile {
    pub name: String,
    pub data: Vec<u8>,
}

/// What a snapshot file holds.
pub open spec fn file_of(data: Seq<u8>, now: int) -> Result<FileV, OpenError> {
    read_file(data, file_crc(data), now)
}

/// The position of the last of the files that is intact.
pub open spec fn last_intact(files: Seq<SnapshotFile>, now: int) -> Option<int>
    decreases files.len(),
{
    if files.len() == 0 {
        None
    } else if file_of(files.last().data@, now) is Ok {
        Some(files.len() - 1)
    } else {
        last_intact(files.drop_last(), now)
    }
}

impl MVCCEngine {
    /// Loads a table from a snapshot: its schema goes into the catalog, and its rows are given.
    pub fn load_table_snapshot(&mut self, data: Vec<u8>, now: i64) -> (r: Result<
        LoadedTable,
        OpenError,
    >)
        requires
            old(self).wf(),
        ensures
            final(self).wf(),
            match file_of(data@, now as int) {
                Ok(f) => r is Ok && is_loaded_from(r->Ok_0, data@, f) && final(self)@
                    == with_loaded_table(old(self)@, f),
                Err(e) => r == Err::<LoadedTable, OpenError>(e) && final(self)@ == old(self)@,
            },
    {
        match SnapshotReader::open(data, now) {
            Ok(reader) => {
                let rows = reader.encoded_rows();
                let source_lsn: u64 = reader.source_lsn();
                let schema = reader.schema().duplicate();
                let table = schema.table_name_lower.as_str().to_owned();
                self.restore_table(schema);
                let t = LoadedTable { table, source_lsn, rows };
                assert(are_rows_of(row_views(t.rows@), data@, reader@.file.index));
                Ok(t)
            },
            Err(e) => Err(e),
        }
    }

    /// Loads a table from the newest of its snapshots that is intact, of files of which the newest is
    /// the last; none where no file is intact.
    pub fn load_newest_snapshot(
        &mut self,
        directory: &str,
        files: Vec<SnapshotFile>,
        now: i64,
    ) -> (r: Option<LoadedTable>)
        requires
            old(self).wf(),
        ensures
            final(self).wf(),
            match last_intact(files@, now as int) {
                Some(i) => {
                    let f = file_of(files@[i].data@, now as int)->Ok_0;
                    &&& r is Some
                    &&& is_loaded_from(r->Some_0, files@[i].data@, f)
                    &&& final(self)@ == with_noted_table(
                        old(self)@,
                        f,
                        directory@,
                        files@[i].name@,
                    )
                },
                None => r is None && final(self)@ == old(self)@,
            },
    {
        let ghost all = files@;
        let mut rest = files;
        loop
            invariant
                self.wf(),
                self@ == old(self)@,
                all == files@,
                rest@.len() <= all.len(),
                rest@ == all.take(rest@.len() as int),
                last_intact(rest@, now as int) == last_intact(all, now as int),
            ensures
                self.wf(),
                self@ == old(self)@,
                last_intact(all, now as int) is None,
            decreases rest@.len(),
        {
            let ghost before = rest@;
            match rest.pop() {
                None => {
                    break;
                },
                Some(file) => {
                    proof {
                        assert(before.drop_last() =~= rest@);
                        assert(before.last() == file);
                        assert(all[before.len() - 1] == file);
                        assert(rest@ =~= all.take(rest@.len() as int));
                    }
                    let SnapshotFile { name, data } = file;
                    match self.load_table_snapshot(data, now) {
                        Ok(table) => {
                            match snapshot_timestamp(name.as_str()) {
                                Some(t) => {
                                    self.note_snapshot(directory, t.as_str());
                                },
                                None => {},
                            }
                            return Some(table);
                        },
                        Err(_) => {},
                    }
                },
            }
        }
        None
    }
}

/// Views with others taken over, the later in the place of the earlier.
pub open spec fn with_views(m: Map<Seq<char>, ViewV>, views: Seq<ViewV>) -> Map<Seq<char>, ViewV>
    decreases views.len(),
{
    if views.len() == 0 {
        m
    } else {
        with_views(m, views.drop_last()).insert(views.last().name, views.last())
    }
}

/// What a file with indexes and views holds.
pub open spec fn definitions_in(data: Seq<u8>) -> (Seq<Seq<u8>>, Seq<ViewV>) {
    read_ddl(data, crc32(data.take(data.len() - 4)))
}

impl MVCCEngine {
    /// Takes over the views from a file with indexes and views, and gives the indexes' entries;
    /// nothing comes from a file that is damaged.
    pub fn restore_ddl_from_bin(&mut self, data: &[u8]) -> (indexes: Vec<Vec<u8>>)
        requires
            old(self).wf(),
        ensures
            final(self).wf(),
            entry_views(indexes@) == definitions_in(data@).0,
            final(self)@ == (EngineV {
                views: with_views(old(self)@.views, definitions_in(data@).1),
                ..old(self)@
            }),
    {
        let (indexes, views) = decode_ddl(data);
        let ghost all = definition_views(views@);
        let mut i: usize = 0;
        assert(all.take(0) =~= Seq::empty());
        while i < views.len()
            invariant
                i <= views@.len(),
                self.wf(),
                all == definition_views(views@),
                self@ == (EngineV {
                    views: with_views(old(self)@.views, all.take(i as int)),
                    ..old(self)@
                }),
            decreases views@.len() - i,
        {
            proof {
                assert(all.take(i + 1).drop_last() =~= all.take(i as int));
                assert(all.take(i + 1).last() == views@[i as int]@);
            }
            self.restore_view(views[i].duplicate());
            i = i + 1;
        }
        assert(all.take(i as int) =~= all);
        indexes
    }
}

// ---------------------------------------------------------------------------
// Laws
// ---------------------------------------------------------------------------

/// The indexes and views of a backup are restored: the file that holds them gives back the indexes'
/// entries, and an engine that takes it over has the views.
pub proof fn definitions_are_restored(indexes: Seq<Seq<u8>>, views: Seq<ViewV>, i: int)
    requires
        indexes.len() < 0x1_0000_0000,
        views.len() < 0x1_0000_0000,
        forall|k: int| 0 <= k < indexes.len() ==> (#[trigger] indexes[k]).len() < 0x1_0000_0000,
        forall|k: int| 0 <= k < views.len() ==> storable_view(#[trigger] views[k]),
        0 <= i < views.len(),
        forall|k: int| 0 <= k < views.len() && k != i ==> (#[trigger] views[k]).name != views[i].name,
    ensures
        definitions_in(ddl_bytes(indexes, view_entries(views))).0 == indexes,
        forall|m: Map<Seq<char>, ViewV>|
            (#[trigger] with_views(
                m,
                definitions_in(ddl_bytes(indexes, view_entries(views))).1,
            )).contains_pair(views[i].name, views[i]),
{
    ddl_round_trip(indexes, views);
    assert forall|m: Map<Seq<char>, ViewV>|
        (#[trigger] with_views(m, views)).contains_pair(views[i].name, views[i]) by {
        lemma_with_views(m, views, i);
    }
}

proof fn lemma_with_views(m: Map<Seq<char>, ViewV>, views: Seq<ViewV>, i: int)
    requires
        0 <= i < views.len(),
        forall|k: int| 0 <= k < views.len() && k != i ==> (#[trigger] views[k]).name != views[i].name,
    ensures
        with_views(m, views).contains_pair(views[i].name, views[i]),
    decreases views.len(),
{
    if i < views.len() - 1 {
        let before = views.drop_last();
        assert forall|k: int| 0 <= k < before.len() && k != i implies (#[trigger] before[k]).name
            != before[i].name by {
            assert(views[k].name != views[i].name);
        }
        lemma_with_views(m, before, i);
        assert(views[views.len() - 1].name != views[i].name);
    }
}

proof fn lemma_readable(b: Seq<u8>, entries: Seq<(i64, u64)>, k: int, row: Seq<u8>)
    requires
        0 <= k < entries.len(),
        row_at(b, entries[k].1 as int) == Some(row),
    ensures
        readable_rows(b, entries).contains((entries[k].0, row)),
    decreases entries.len(),
{
    let all = readable_rows(b, entries);
    if k < entries.len() - 1 {
        let some = readable_rows(b, entries.drop_last());
        lemma_readable(b, entries.drop_last(), k, row);
        let i = some.index_of((entries[k].0, row));
        assert(all[i] == (entries[k].0, row));
    } else {
        assert(all[all.len() - 1] == (entries[k].0, row));
    }
}

/// A backup is restored: a table's snapshot, loaded into any engine, brings back the table's schema
/// and every row that went into it.
pub proof fn backup_is_restored(
    e: EngineV,
    file: Seq<u8>,
    creation_time: i64,
    source_lsn: u64,
    s: SchemaV,
    rows: Seq<SnapshotRow>,
    t: LoadedTable,
    now: int,
    i: int,
)
    requires
        storable(s),
        0 < s.created_at <= i64::MAX,
        0 < s.updated_at <= i64::MAX,
        snapshot_schema_bytes(s, 3).len() < 0x1_0000_0000,
        forall|k: int| 0 <= k < rows.len() ==> (#[trigger] rows[k]).encoded@.len() < 0x8000_0000,
        holds_table(file, new_header(creation_time, source_lsn), s, rows),
        file.len() <= u64::MAX,
        file_of(file, now) is Ok ==> is_loaded_from(t, file, file_of(file, now)->Ok_0),
        0 <= i < rows.len(),
    ensures
        file_of(file, now) is Ok,
        with_loaded_table(e, file_of(file, now)->Ok_0) == (EngineV {
            tables: e.tables.insert(s.table_name_lower, s),
            ..e
        }),
        t.table@ == s.table_name_lower,
        t.source_lsn == source_lsn,
        row_views(t.rows@).contains((rows[i].row_id, rows[i].encoded@)),
{
    let header = new_header(creation_time, source_lsn);
    let ps = choose|ps: Seq<Piece>| #[trigger]
        is_snapshot_file(file, header, ps) && took_rows(
            seq![Piece::Schema(snapshot_schema_bytes(s, 3))],
            ps,
            rows,
        );
    snapshot_round_trip(file, creation_time, source_lsn, s, ps, rows, now);
    let f = file_of(file, now)->Ok_0;
    reveal(rows_in);
    reveal(lists);
    let entries = choose|entries: Seq<(i64, u64)>| #[trigger]
        lists(entries, f.index) && row_views(t.rows@) == readable_rows(file, entries);
    let id = rows[i].row_id;
    assert(f.index.contains_key(id));
    let k = choose|k: int| 0 <= k < entries.len() && (#[trigger] entries[k]).0 == id;
    lemma_readable(file, entries, k, rows[i].encoded@);
}

} // verus!
