//! The copies of the catalog that a checkpoint writes to the log.

use crate::engine::{EngineV, MVCCEngine};
use crate::name_map::map_of;
use crate::recovery::{
    WalEntry, WalOperation, catalog_after, recorded_table_is_replayed, recorded_view_is_replayed,
};
use crate::schema::SchemaV;
use crate::schema_format::{fits16, log_schema_bytes, storable};
use crate::view_def::{ViewV, view_bytes, view_of};
use crate::schema_codec::serialize_schema;
use crate::bytes::push_bytes;
use vstd::prelude::*;
use vstd::string::*;
use vstd::utf8::*;

verus! {

/// A record that makes a table, an index or a view.
#[derive(Debug)]
pub struct CatalogRecord {
    pub operation: WalOperation,
    pub table_name: String,
    pub data: Vec<u8>,
}

/// A record that makes a table, an index or a view, with its text as a sequence.
pub struct RecordV {
    pub operation: WalOperation,
    pub table_name: Seq<char>,
    pub data: Seq<u8>,
}

impl View for CatalogRecord {
    type V = RecordV;

    open spec fn view(&self) -> RecordV {
        RecordV {
            operation: self.operation,
            table_name: self.table_name@,
            data: self.data@,
        }
    }
}

/// The views of records.
pub open spec fn record_views(s: Seq<CatalogRecord>) -> Seq<RecordV> {
    s.map_values(|r: CatalogRecord| r@)
}

/// An index as the log describes it.
#[derive(Debug)]
pub struct IndexRecord {
    /// Its table, in lower case.
    pub table_name: String,
    /// Whether it is the index of a primary key, which its table's schema implies.
    pub primary_key: bool,
    pub data: Vec<u8>,
}

/// The records that make the listed tables.
pub open spec fn table_records(tables: Seq<(Seq<char>, SchemaV)>) -> Seq<RecordV> {
    tables.map_values(
        |t: (Seq<char>, SchemaV)|
            RecordV {
                operation: WalOperation::CreateTable,
                table_name: t.1.table_name,
                data: log_schema_bytes(t.1, 3),
            },
    )
}

/// The records that make the indexes of known tables, but for those of primary keys.
pub open spec fn index_records(indexes: Seq<IndexRecord>, tables: Map<Seq<char>, SchemaV>) -> Seq<
    RecordV,
>
    decreases indexes.len(),
{
    if indexes.len() == 0 {
        Seq::empty()
    } else {
        let before = index_records(indexes.drop_last(), tables);
        let x = indexes.last();
        if x.primary_key || !tables.contains_key(x.table_name@) {
            before
        } else {
            before.push(
                RecordV {
                    operation: WalOperation::CreateIndex,
                    table_name: x.table_name@,
                    data: x.data@,
                },
            )
        }
    }
}

/// The records that make the listed views.
pub open spec fn view_records(views: Seq<(Seq<char>, ViewV)>) -> Seq<RecordV> {
    views.map_values(
        |v: (Seq<char>, ViewV)|
            RecordV {
                operation: WalOperation::CreateView,
                table_name: v.1.name,
                data: view_bytes(v.1),
            },
    )
}

impl MVCCEngine {
    /// The records that make the catalog again: tables first, so that the indexes that follow find
    /// them, then indexes, then views.
    pub fn catalog_copies(&self, indexes: &[IndexRecord]) -> (records: Vec<CatalogRecord>)
        requires
            self.wf(),
        ensures
            record_views(records@) == table_records(self.table_list()) + index_records(
                indexes@,
                self@.tables,
            ) + view_records(self.view_list()),
    {
        let mut out: Vec<CatalogRecord> = Vec::new();
        let schemas = self.get_all_schemas();
        let views = self.get_all_views();
        let ghost for_tables = table_records(self.table_list());
        let ghost for_views = view_records(self.view_list());
        let mut i: usize = 0;
        assert(record_views(out@) =~= for_tables.take(0));
        while i < schemas.len()
            invariant
                i <= schemas@.len(),
                schemas@.len() == self.table_list().len(),
                forall|k: int|
                    0 <= k < schemas@.len() ==> (#[trigger] schemas@[k])@ == self.table_list()[k].1,
                for_tables == table_records(self.table_list()),
                record_views(out@) == for_tables.take(i as int),
            decreases schemas@.len() - i,
        {
            let ghost before = record_views(out@);
            let record = CatalogRecord {
                operation: WalOperation::CreateTable,
                table_name: schemas[i].table_name.as_str().to_owned(),
                data: serialize_schema(&schemas[i]),
            };
            let ghost added = record@;
            out.push(record);
            proof {
                assert(schemas@[i as int]@ == self.table_list()[i as int].1);
                assert(record_views(out@) =~= before.push(added));
                assert(added == for_tables[i as int]);
                assert(for_tables.take(i + 1) =~= for_tables.take(i as int).push(
                    for_tables[i as int],
                ));
            }
            i = i + 1;
        }
        assert(for_tables.take(i as int) =~= for_tables);
        let mut j: usize = 0;
        assert(indexes@.take(0) =~= Seq::empty());
        assert(for_tables + index_records(indexes@.take(0), self@.tables) =~= for_tables);
        while j < indexes.len()
            invariant
                j <= indexes@.len(),
                self.wf(),
                record_views(out@) == for_tables + index_records(
                    indexes@.take(j as int),
                    self@.tables,
                ),
            decreases indexes@.len() - j,
        {
            let ghost before = record_views(out@);
            let ghost listed = index_records(indexes@.take(j as int), self@.tables);
            proof {
                assert(indexes@.take(j + 1).drop_last() =~= indexes@.take(j as int));
                assert(indexes@.take(j + 1).last() == indexes@[j as int]);
            }
            if !indexes[j].primary_key && self.has_table(indexes[j].table_name.as_str()) {
                let mut data: Vec<u8> = Vec::new();
                push_bytes(&mut data, indexes[j].data.as_slice());
                assert(data@ =~= indexes@[j as int].data@);
                let record = CatalogRecord {
                    operation: WalOperation::CreateIndex,
                    table_name: indexes[j].table_name.as_str().to_owned(),
                    data,
                };
                let ghost added = record@;
                out.push(record);
                proof {
                    assert(record_views(out@) =~= before.push(added));
                    assert((for_tables + listed).push(added) =~= for_tables + listed.push(added));
                }
            }
            j = j + 1;
        }
        assert(indexes@.take(j as int) =~= indexes@);
        let ghost first = for_tables + index_records(indexes@, self@.tables);
        let mut k: usize = 0;
        assert(record_views(out@) =~= first + for_views.take(0));
        while k < views.len()
            invariant
                k <= views@.len(),
                views@.len() == self.view_list().len(),
                forall|m: int|
                    0 <= m < views@.len() ==> (#[trigger] views@[m])@ == self.view_list()[m].1,
                for_views == view_records(self.view_list()),
                record_views(out@) == first + for_views.take(k as int),
            decreases views@.len() - k,
        {
            let ghost before = record_views(out@);
            let record = CatalogRecord {
                operation: WalOperation::CreateView,
                table_name: views[k].name.as_str().to_owned(),
                data: views[k].serialize(),
            };
            let ghost added = record@;
            out.push(record);
            proof {
                assert(views@[k as int]@ == self.view_list()[k as int].1);
                assert(record_views(out@) =~= before.push(added));
                assert(added == for_views[k as int]);
                assert(first + for_views.take(k + 1) =~= (first + for_views.take(k as int)).push(
                    for_views[k as int],
                ));
            }
            k = k + 1;
        }
        assert(for_views.take(k as int) =~= for_views);
        out
    }
}

// ---------------------------------------------------------------------------
// Laws
// ---------------------------------------------------------------------------

/// The catalog after some records.
pub open spec fn replayed(e: EngineV, entries: Seq<WalEntry>, now: int) -> EngineV
    decreases entries.len(),
{
    if entries.len() == 0 {
        e
    } else {
        catalog_after(replayed(e, entries.drop_last(), now), entries.last(), now)
    }
}

/// Whether the log has the records, in order.
pub open spec fn are_logged(records: Seq<RecordV>, entries: Seq<WalEntry>) -> bool {
    &&& entries.len() == records.len()
    &&& forall|i: int|
        0 <= i < records.len() ==> {
            &&& (#[trigger] entries[i]).operation == records[i].operation
            &&& entries[i].table_name@ == records[i].table_name
            &&& entries[i].data@ == records[i].data
        }
}

/// Whether each table is listed under its name and can be stored.
pub open spec fn tables_are_storable(tables: Seq<(Seq<char>, SchemaV)>) -> bool {
    forall|i: int|
        0 <= i < tables.len() ==> (#[trigger] tables[i]).0 == tables[i].1.table_name_lower
            && storable(tables[i].1)
}

/// Whether each view is listed under its name and can be stored.
pub open spec fn views_are_storable(views: Seq<(Seq<char>, ViewV)>) -> bool {
    forall|i: int|
        0 <= i < views.len() ==> {
            let v = (#[trigger] views[i]).1;
            &&& views[i].0 == v.name
            &&& v == view_of(v.original_name, v.query)
            &&& fits16(v.original_name)
            &&& encode_utf8(v.query).len() < 0x1_0000_0000
        }
}

/// A table as it is read back at the time `now`.
pub open spec fn read_at(s: SchemaV, now: int) -> SchemaV {
    SchemaV { created_at: now, updated_at: now, ..s }
}

/// The records of a checkpoint make every table, but for its times, and every view again, on a
/// catalog that has none: what came before them in the log is not needed for that.
pub proof fn copies_rebuild_the_catalog(
    tables: Seq<(Seq<char>, SchemaV)>,
    indexes: Seq<IndexRecord>,
    views: Seq<(Seq<char>, ViewV)>,
    entries: Seq<WalEntry>,
    e: EngineV,
    now: int,
)
    requires
        tables_are_storable(tables),
        views_are_storable(views),
        are_logged(
            table_records(tables) + index_records(indexes, map_of(tables)) + view_records(views),
            entries,
        ),
        e.tables == Map::<Seq<char>, SchemaV>::empty(),
        e.views == Map::<Seq<char>, ViewV>::empty(),
    ensures
        replayed(e, entries, now) == (EngineV {
            tables: map_of(tables).map_values(|s: SchemaV| read_at(s, now)),
            views: map_of(views),
            ..e
        }),
{
    let middle = index_records(indexes, map_of(tables));
    lemma_index_operations(indexes, map_of(tables));
    lemma_replay(tables, middle, views, entries, e, now, entries.len() as int);
    assert(entries.take(entries.len() as int) =~= entries);
    assert(tables.take(tables.len() as int) =~= tables);
    assert(views.take(views.len() as int) =~= views);
}

proof fn lemma_index_operations(indexes: Seq<IndexRecord>, tables: Map<Seq<char>, SchemaV>)
    ensures
        forall|i: int|
            0 <= i < index_records(indexes, tables).len() ==> (#[trigger] index_records(
                indexes,
                tables,
            )[i]).operation == WalOperation::CreateIndex,
    decreases indexes.len(),
{
    if indexes.len() > 0 {
        lemma_index_operations(indexes.drop_last(), tables);
    }
}

/// `n`, moved into the range from 0 to `len`.
spec fn clamp(n: int, len: nat) -> int {
    if n < 0 {
        0
    } else if n > len {
        len as int
    } else {
        n
    }
}

proof fn lemma_replay(
    tables: Seq<(Seq<char>, SchemaV)>,
    middle: Seq<RecordV>,
    views: Seq<(Seq<char>, ViewV)>,
    entries: Seq<WalEntry>,
    e: EngineV,
    now: int,
    n: int,
)
    requires
        tables_are_storable(tables),
        views_are_storable(views),
        forall|i: int|
            0 <= i < middle.len() ==> (#[trigger] middle[i]).operation == WalOperation::CreateIndex,
        are_logged(table_records(tables) + middle + view_records(views), entries),
        e.tables == Map::<Seq<char>, SchemaV>::empty(),
        e.views == Map::<Seq<char>, ViewV>::empty(),
        0 <= n <= entries.len(),
    ensures
        replayed(e, entries.take(n), now) == (EngineV {
            tables: map_of(tables.take(clamp(n, tables.len()))).map_values(
                |s: SchemaV| read_at(s, now),
            ),
            views: map_of(views.take(clamp(n - tables.len() - middle.len(), views.len()))),
            ..e
        }),
    decreases n,
{
    let stamp = |s: SchemaV| read_at(s, now);
    let records = table_records(tables) + middle + view_records(views);
    let t = clamp(n, tables.len());
    let v = clamp(n - tables.len() - middle.len(), views.len());
    if n == 0 {
        assert(tables.take(0) =~= Seq::empty());
        assert(views.take(0) =~= Seq::empty());
        assert(entries.take(0) =~= Seq::empty());
        assert(map_of(tables.take(0)).map_values(stamp) =~= e.tables);
    } else {
        lemma_replay(tables, middle, views, entries, e, now, n - 1);
        assert(entries.take(n).drop_last() =~= entries.take(n - 1));
        let w = entries[n - 1];
        assert(w == entries.take(n).last());
        let before = replayed(e, entries.take(n - 1), now);
        if n <= tables.len() {
            assert(records[n - 1] == table_records(tables)[n - 1]);
            let s = tables[n - 1].1;
            recorded_table_is_replayed(before, w, s, now);
            assert(tables.take(n).drop_last() =~= tables.take(n - 1));
            assert(tables.take(n).last() == tables[n - 1]);
            assert(map_of(tables.take(n)).map_values(stamp) =~= map_of(
                tables.take(n - 1),
            ).map_values(stamp).insert(s.table_name_lower, read_at(s, now)));
        } else if n <= tables.len() + middle.len() {
            assert(records[n - 1] == middle[n - 1 - tables.len()]);
        } else {
            assert(records[n - 1] == view_records(views)[v - 1]);
            let d = views[v - 1].1;
            recorded_view_is_replayed(before, w, d.original_name, d.query, now);
            assert(views.take(v).drop_last() =~= views.take(v - 1));
            assert(views.take(v).last() == views[v - 1]);
        }
    }
}

} // verus!
