//! What the engine knows of indexes.

use crate::engine::{EngineError, EngineV, ErrorV, MVCCEngine, next_epoch};
use crate::live_rows::{RowPlace, lists_live, live_rows, volume_views};
use crate::row_set::{contains_row, insert_rows, new_row_set};
use crate::schema::{ColumnV, DataType, Schema, first_primary_key};
use crate::schema_change::column_called;
use crate::text::{join3, unicode_lowercase};
use crate::names::name_views;
use rustc_hash::{FxHashMap, FxHashSet};
use vstd::prelude::*;
use vstd::string::*;

verus! {

// ---------------------------------------------------------------------------
// Primary keys
// ---------------------------------------------------------------------------

/// The index of a table's primary key.
#[derive(Debug)]
pub struct PrimaryKeyIndex {
    pub name: String,
    pub column: usize,
}

/// The name of the index of the primary key `column` of the table `table_lower`.
pub open spec fn primary_key_index_name(table_lower: Seq<char>, column: Seq<char>) -> Seq<char> {
    "__pk_"@ + table_lower + "_"@ + column
}

/// The index of a table's primary key; none where it has none.
pub fn primary_key_index(schema: &Schema) -> (r: Option<PrimaryKeyIndex>)
    ensures
        match r {
            Some(x) => first_primary_key(schema@.columns) == Some(x.column as nat) && x.column
                < schema@.columns.len() && x.name@ == primary_key_index_name(
                schema@.table_name_lower,
                schema@.columns[x.column as int].name,
            ),
            None => first_primary_key(schema@.columns) is None,
        },
{
    match schema.pk_column_index() {
        Some(column) => {
            let mut name = join3("__pk_", schema.table_name_lower.as_str(), "_");
            name.append(schema.columns[column].name.as_str());
            Some(PrimaryKeyIndex { name, column })
        },
        None => None,
    }
}

// ---------------------------------------------------------------------------
// Columns
// ---------------------------------------------------------------------------

/// The columns of an index: their positions and types.
#[derive(Debug)]
pub struct IndexColumns {
    pub positions: Vec<usize>,
    pub data_types: Vec<DataType>,
}

/// Whether the columns have the names, whatever the case of letters.
pub open spec fn are_columns(x: IndexColumns, columns: Seq<ColumnV>, names: Seq<Seq<char>>) -> bool {
    &&& x.positions@.len() == names.len()
    &&& x.data_types@.len() == names.len()
    &&& forall|i: int|
        0 <= i < names.len() ==> {
            &&& column_called(columns, #[trigger] names[i]) == Some(x.positions@[i] as nat)
            &&& x.positions@[i] < columns.len()
            &&& x.data_types@[i] == columns[x.positions@[i] as int].data_type
        }
}

/// Whether a name is that of no column.
pub open spec fn lacks_column(columns: Seq<ColumnV>, names: Seq<Seq<char>>) -> bool {
    exists|i: int| 0 <= i < names.len() && column_called(columns, #[trigger] names[i]) is None
}

/// The columns of an index by their names; none where a name is that of no column.
pub fn index_columns(schema: &Schema, names: &[String]) -> (r: Option<IndexColumns>)
    ensures
        match r {
            Some(x) => are_columns(x, schema@.columns, name_views(names@)),
            None => lacks_column(schema@.columns, name_views(names@)),
        },
{
    let ghost views = name_views(names@);
    let mut x = IndexColumns { positions: Vec::new(), data_types: Vec::new() };
    let mut i: usize = 0;
    assert(views.take(0) =~= Seq::empty());
    while i < names.len()
        invariant
            i <= names@.len(),
            views == name_views(names@),
            views.len() == names@.len(),
            are_columns(x, schema@.columns, views.take(i as int)),
        decreases names@.len() - i,
    {
        assert(views[i as int] == names@[i as int]@);
        match schema.get_column_index(names[i].as_str()) {
            None => {
                assert(lacks_column(schema@.columns, views));
                return None;
            },
            Some(p) => {
                let ghost before = x;
                let data_type = schema.columns[p].data_type;
                x.positions.push(p);
                x.data_types.push(data_type);
                proof {
                    assert(schema@.columns[p as int] == schema.columns@[p as int]@);
                    assert forall|k: int| 0 <= k < i + 1 implies {
                        &&& column_called(schema@.columns, #[trigger] views.take(i + 1)[k]) == Some(
                            x.positions@[k] as nat,
                        )
                        &&& x.positions@[k] < schema@.columns.len()
                        &&& x.data_types@[k] == schema@.columns[x.positions@[k] as int].data_type
                    } by {
                        if k < i {
                            assert(views.take(i as int)[k] == views.take(i + 1)[k]);
                        }
                    }
                }
            },
        }
        i = i + 1;
    }
    assert(views.take(i as int) =~= views);
    Some(x)
}

impl MVCCEngine {
    /// The columns of a new index as the log has them: none where nothing is written to the log,
    /// because the engine replays it or a name is that of no column.
    pub fn columns_to_record(&self, table_name: &str, names: &[String]) -> (r: Result<
        Option<IndexColumns>,
        EngineError,
    >)
        requires
            self.wf(),
        ensures
            match r {
                Ok(Some(x)) => {
                    let key = unicode_lowercase(table_name@);
                    &&& !self@.loading && self@.open && self@.tables.contains_key(key)
                    &&& are_columns(x, self@.tables[key].columns, name_views(names@))
                },
                Ok(None) => {
                    let key = unicode_lowercase(table_name@);
                    self@.loading || (self@.open && self@.tables.contains_key(key) && lacks_column(
                        self@.tables[key].columns,
                        name_views(names@),
                    ))
                },
                Err(e) => !self@.loading && e@ == (if !self@.open {
                    ErrorV::EngineNotOpen
                } else {
                    ErrorV::TableNotFound(unicode_lowercase(table_name@))
                }) && (self@.open ==> !self@.tables.contains_key(unicode_lowercase(table_name@))),
            },
    {
        if self.should_skip_wal() {
            return Ok(None);
        }
        match self.get_table_schema(table_name) {
            Ok(schema) => Ok(index_columns(&schema, names)),
            Err(e) => Err(e),
        }
    }

    /// The indexes of a table, given those that it has in memory.
    pub fn get_all_indexes<I>(&self, table_name: &str, indexes: Vec<I>) -> (r: Result<
        Vec<I>,
        EngineError,
    >)
        requires
            self.wf(),
        ensures
            match r {
                Ok(found) => is_known(self@, table_name@) && found@ == indexes@,
                Err(e) => !is_known(self@, table_name@) && e@ == unknown_table(self@, table_name@),
            },
    {
        match self.get_version_store(table_name) {
            Ok(_) => Ok(indexes),
            Err(e) => Err(e),
        }
    }

    /// The indexes of a table that a lookup may use, given those that it has in memory: none of a
    /// persistent database, whatever the table.
    pub fn get_lookup_indexes<I>(&self, table_name: &str, persistent: bool, indexes: Vec<I>) -> (r:
        Result<Vec<I>, EngineError>)
        requires
            self.wf(),
        ensures
            match r {
                Ok(found) => if persistent {
                    found@ == Seq::<I>::empty()
                } else {
                    is_known(self@, table_name@) && found@ == indexes@
                },
                Err(e) => !persistent && !is_known(self@, table_name@) && e@ == unknown_table(
                    self@,
                    table_name@,
                ),
            },
    {
        if !hands_out_hot_indexes(persistent) {
            return Ok(Vec::new());
        }
        self.get_all_indexes(table_name, indexes)
    }
}

/// Whether an open engine has a table under the name.
pub open spec fn is_known(e: EngineV, table: Seq<char>) -> bool {
    e.open && e.tables.contains_key(unicode_lowercase(table))
}

/// Why a table is not found.
pub open spec fn unknown_table(e: EngineV, table: Seq<char>) -> ErrorV {
    if !e.open {
        ErrorV::EngineNotOpen
    } else {
        ErrorV::TableNotFound(unicode_lowercase(table))
    }
}

/// Whether indexes in memory are handed out for lookups. A persistent database may seal rows at any
/// moment, and an index that was handed out before would then lack them.
pub fn hands_out_hot_indexes(persistent: bool) -> (r: bool)
    ensures
        r == !persistent,
{
    !persistent
}

// ---------------------------------------------------------------------------
// Identities
// ---------------------------------------------------------------------------

/// The identities of indexes of an engine without a log: numbers in order.
#[derive(Debug, Clone, Copy, PartialEq, Eq, Structural)]
pub struct IdentityCounter {
    pub next: u64,
}

impl IdentityCounter {
    /// The first identity is 1.
    pub fn new() -> (c: IdentityCounter)
        ensures
            c.next == 1,
    {
        IdentityCounter { next: 1 }
    }

    /// The identity of an index that was just recorded: the position of its record in the log, or the
    /// next number where there is no log.
    pub fn identity(&mut self, lsn: Option<u64>) -> (r: u64)
        ensures
            match lsn {
                Some(l) => r == l && final(self).next == old(self).next,
                None => r == old(self).next && final(self).next == next_epoch(old(self).next),
            },
    {
        match lsn {
            Some(l) => l,
            None => {
                let r: u64 = self.next;
                self.next = if r == u64::MAX {
                    0
                } else {
                    r + 1
                };
                r
            },
        }
    }
}

/// The identity of an index from its record: its own, or the position of the record in the log.
pub fn identity_from_record(identity: Option<u64>, lsn: u64) -> (r: u64)
    ensures
        r == match identity {
            Some(i) => i,
            None => lsn,
        },
{
    match identity {
        Some(i) => i,
        None => lsn,
    }
}

/// Whether a table's manifest has a change already: it goes as far in the log as the change's record.
pub fn is_held_already(ddl_lsn: Option<u64>, recorded_lsn: u64) -> (r: bool)
    ensures
        r == match ddl_lsn {
            Some(lsn) => lsn <= recorded_lsn,
            None => false,
        },
{
    match ddl_lsn {
        Some(lsn) => lsn <= recorded_lsn,
        None => false,
    }
}

// ---------------------------------------------------------------------------
// Vector indexes
// ---------------------------------------------------------------------------

/// The name of the file with the graph of a vector index, of a snapshot or, before graphs were kept
/// by snapshot, of none.
pub open spec fn graph_name(index: Seq<char>, timestamp: Option<Seq<char>>) -> Seq<char> {
    match timestamp {
        Some(t) => "hnsw_"@ + index + "-"@ + t + ".bin"@,
        None => "hnsw_"@ + index + ".bin"@,
    }
}

/// The name of the file with the graph of a vector index of a snapshot.
pub fn timestamped_graph(index: &str, timestamp: &str) -> (name: String)
    ensures
        name@ == graph_name(index@, Some(timestamp@)),
{
    let mut name = join3("hnsw_", index, "-");
    name.append(timestamp);
    name.append(".bin");
    name
}

/// The name of the file with the graph of a vector index of no snapshot.
pub fn plain_graph(index: &str) -> (name: String)
    ensures
        name@ == graph_name(index@, None),
{
    join3("hnsw_", index, ".bin")
}

/// The file from which the graph of a vector index is read: the one of the snapshot that its table
/// was loaded from, else the one of no snapshot, else none. The flags say which files exist.
pub fn graph_file(index: &str, timestamp: Option<&str>, has_timestamped: bool, has_plain: bool) -> (r:
    Option<String>)
    ensures
        match r {
            Some(n) => if timestamp is Some && has_timestamped {
                n@ == graph_name(index@, Some(timestamp->Some_0@))
            } else {
                has_plain && n@ == graph_name(index@, None)
            },
            None => !(timestamp is Some && has_timestamped) && !has_plain,
        },
{
    match timestamp {
        Some(t) => if has_timestamped {
            return Some(timestamped_graph(index, t));
        },
        None => {},
    }
    if has_plain {
        Some(plain_graph(index))
    } else {
        None
    }
}

/// The entries of a vector index that are handed to it at a time.
pub const HNSW_FLUSH_THRESHOLD: usize = 8192;

/// The rows of volumes, newest first, that go into a vector index beside those in memory: each from
/// the newest volume that has it, without those in memory and those with a tombstone.
pub fn rows_for_vector_index(
    hot_ids: &[i64],
    volumes: &[&[i64]],
    tombstones: &FxHashMap<i64, u64>,
) -> (refs: Vec<RowPlace>)
    ensures
        lists_live(
            refs@,
            volume_views(volumes@),
            hot_ids@.to_set(),
            tombstones@,
            None,
            volumes@.len() as int,
            0,
        ),
{
    let mut hot = new_row_set();
    insert_rows(&mut hot, hot_ids);
    assert(hot@ =~= hot_ids@.to_set());
    live_rows(volumes, &hot, tombstones, None)
}

/// Whether the entries that were gathered are handed to the index after a volume.
pub fn flushes_entries(entries: usize) -> (r: bool)
    ensures
        r == (entries >= 8192),
{
    entries >= HNSW_FLUSH_THRESHOLD
}

// ---------------------------------------------------------------------------
// Rows by identity
// ---------------------------------------------------------------------------

/// The wanted rows that are not among those that were found, in order.
pub open spec fn not_found(wanted: Seq<i64>, found: Seq<i64>) -> Seq<i64>
    decreases wanted.len(),
{
    if wanted.len() == 0 {
        Seq::empty()
    } else if found.contains(wanted.last()) {
        not_found(wanted.drop_last(), found)
    } else {
        not_found(wanted.drop_last(), found).push(wanted.last())
    }
}

/// The rows that are looked for in volumes: those that were not found in memory, where fewer were
/// found than were asked for and there are volumes.
pub fn rows_to_fetch(wanted: &[i64], found: &[i64], has_segments: bool) -> (r: Vec<i64>)
    ensures
        r@ == if has_segments && found@.len() < wanted@.len() {
            not_found(wanted@, found@)
        } else {
            Seq::empty()
        },
{
    let mut out: Vec<i64> = Vec::new();
    if !has_segments || found.len() >= wanted.len() {
        assert(out@ =~= Seq::empty());
        return out;
    }
    let mut set = new_row_set();
    insert_rows(&mut set, found);
    let mut i: usize = 0;
    assert(wanted@.take(0) =~= Seq::empty());
    while i < wanted.len()
        invariant
            i <= wanted@.len(),
            set@ == Set::<i64>::empty().union(found@.to_set()),
            out@ == not_found(wanted@.take(i as int), found@),
        decreases wanted@.len() - i,
    {
        proof {
            assert(wanted@.take(i + 1).drop_last() =~= wanted@.take(i as int));
            assert(wanted@.take(i + 1).last() == wanted@[i as int]);
            assert(set@.contains(wanted@[i as int]) == found@.contains(wanted@[i as int]));
        }
        let id: i64 = wanted[i];
        if !contains_row(&set, id) {
            out.push(id);
        }
        i = i + 1;
    }
    assert(wanted@.take(i as int) =~= wanted@);
    out
}

/// Where a row can be found.
#[derive(Debug, Clone, Copy, PartialEq, Eq, Structural)]
pub struct RowPresence {
    /// Whether it is committed in memory.
    pub in_memory: bool,
    /// Whether a volume has it and no tombstone hides it.
    pub in_volume: bool,
}

/// The number of rows that only volumes have.
pub open spec fn only_in_volumes(rows: Seq<RowPresence>) -> nat
    decreases rows.len(),
{
    if rows.len() == 0 {
        0
    } else {
        only_in_volumes(rows.drop_last()) + if !rows.last().in_memory && rows.last().in_volume {
            1nat
        } else {
            0nat
        }
    }
}

/// The number of rows that exist, of those asked for, `visible` of which are seen in memory. Volumes
/// are asked where that is not all.
pub fn count_rows(visible: usize, rows: &[RowPresence], has_segments: bool) -> (n: usize)
    requires
        visible + rows@.len() <= usize::MAX,
    ensures
        n == visible + if has_segments && visible < rows@.len() {
            only_in_volumes(rows@)
        } else {
            0
        },
{
    if !has_segments || visible >= rows.len() {
        return visible;
    }
    let mut n: usize = visible;
    let mut i: usize = 0;
    assert(rows@.take(0) =~= Seq::empty());
    while i < rows.len()
        invariant
            i <= rows@.len(),
            visible + rows@.len() <= usize::MAX,
            n == visible + only_in_volumes(rows@.take(i as int)),
            n <= visible + i,
        decreases rows@.len() - i,
    {
        assert(rows@.take(i + 1).drop_last() =~= rows@.take(i as int));
        assert(rows@.take(i + 1).last() == rows@[i as int]);
        if !rows[i].in_memory && rows[i].in_volume {
            n = n + 1;
        }
        i = i + 1;
    }
    assert(rows@.take(i as int) =~= rows@);
    n
}

/// Every row that was asked for is among those that were found or those that are looked for in
/// volumes, and none of the latter was found.
pub proof fn no_wanted_row_is_missed(wanted: Seq<i64>, found: Seq<i64>, row_id: i64)
    ensures
        wanted.contains(row_id) ==> found.contains(row_id) || not_found(wanted, found).contains(
            row_id,
        ),
        not_found(wanted, found).contains(row_id) ==> wanted.contains(row_id) && !found.contains(
            row_id,
        ),
    decreases wanted.len(),
{
    if wanted.len() > 0 {
        let before = wanted.drop_last();
        let some = not_found(before, found);
        let all = not_found(wanted, found);
        no_wanted_row_is_missed(before, found, row_id);
        if wanted.contains(row_id) {
            let k = wanted.index_of(row_id);
            if k < before.len() {
                assert(before[k] == row_id);
            }
        }
        if some.contains(row_id) {
            let k = some.index_of(row_id);
            assert(all[k] == row_id);
        }
        if before.contains(row_id) {
            let k = before.index_of(row_id);
            assert(wanted[k] == row_id);
        }
        if all.contains(row_id) && !some.contains(row_id) {
            let k = all.index_of(row_id);
            if k < some.len() {
                assert(some[k] == row_id);
            }
            assert(wanted[wanted.len() - 1] == row_id);
        }
        if !found.contains(wanted.last()) {
            assert(all[all.len() - 1] == wanted.last());
        }
    }
}

} // verus!
