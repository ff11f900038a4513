//! What holds of the catalog, whatever is asked of it.

use crate::alter_table::{AlterV, alter_bytes, alter_round_trip, storable_change, table_of};
use crate::engine::{
    EngineV, ErrorV, alter_applied, alter_replayed, column_added, column_dropped, column_modified,
    key_in_range, move_reverted, new_column, next_epoch, stripped, table_created, table_dropped,
    table_moved, table_renamed, view_created, view_dropped, with_schema,
};
use crate::schema::{DataType, ForeignKeyV, SchemaV};
use crate::schema_change::{
    column_called, key_without, lemma_column_called, modified_column, renamed_column, renumbered,
    with_column, with_column_at, without_column,
};
use crate::text::unicode_lowercase;
use crate::transaction_ddl::{
    created_in_transaction, dropped_in_transaction, renamed_in_transaction,
};
use crate::view_def::view_of;
use vstd::prelude::*;

verus! {

/// Whether `outcome`, where it is an engine, has another epoch than `e`.
pub open spec fn epoch_moved(e: EngineV, outcome: Result<EngineV, ErrorV>) -> bool {
    outcome matches Ok(after) ==> after.epoch == next_epoch(e.epoch) && after.epoch != e.epoch
}

/// Whatever creates, changes, renames or drops a table moves the epoch, within a transaction and
/// outside one.
pub proof fn epoch_moves(
    e: EngineV,
    s: SchemaV,
    name: Seq<char>,
    new_name: Seq<char>,
    change: AlterV,
    data_type: DataType,
    nullable: bool,
    dimensions: Option<u16>,
)
    ensures
        epoch_moved(e, table_created(e, s)),
        epoch_moved(e, table_dropped(e, name)),
        epoch_moved(e, table_renamed(e, name, new_name)),
        epoch_moved(e, alter_applied(e, change)),
        epoch_moved(e, column_modified(e, name, new_name, data_type, nullable, dimensions)),
        epoch_moved(e, created_in_transaction(e, name, s)),
        epoch_moved(e, dropped_in_transaction(e, name)),
        epoch_moved(e, renamed_in_transaction(e, name, new_name)),
{
}

/// A change to a table is replayed from its record with the effect that it had.
pub proof fn recorded_change_is_replayed(e: EngineV, a: AlterV)
    requires
        storable_change(a),
    ensures
        alter_replayed(e, alter_bytes(a)) == alter_applied(e, a),
{
    alter_round_trip(a);
}

/// A created table is there, under its name in lower case, with the schema that was given; every
/// other table is as it was; and it cannot be created a second time.
pub proof fn created_table_is_there(e: EngineV, s: SchemaV)
    requires
        table_created(e, s) is Ok,
    ensures
        ({
            let after = table_created(e, s)->Ok_0;
            &&& after.tables.contains_key(s.table_name_lower)
            &&& after.tables[s.table_name_lower] == s
            &&& forall|k: Seq<char>|
                k != s.table_name_lower ==> (#[trigger] after.tables.contains_key(k)
                    <==> e.tables.contains_key(k)) && after.tables[k] == e.tables[k]
            &&& after.epoch != e.epoch
            &&& table_created(after, s) == Err::<EngineV, ErrorV>(
                ErrorV::TableAlreadyExists(s.table_name_lower),
            )
        }),
{
}

/// A created table is found under the name that it was given: whether it exists, where its rows are
/// kept and what its schema is are asked under the same key that it is stored under.
pub proof fn created_table_is_found(e: EngineV, s: SchemaV)
    requires
        table_created(e, s) is Ok,
        s.table_name_lower == unicode_lowercase(s.table_name),
    ensures
        ({
            let after = table_created(e, s)->Ok_0;
            &&& after.open
            &&& after.tables.contains_key(unicode_lowercase(s.table_name))
            &&& after.tables[unicode_lowercase(s.table_name)] == s
        }),
{
}

/// After a table is dropped it is not there, no table has a foreign key to it, and everything else
/// of every other table is as it was.
pub proof fn dropped_table_is_forgotten(e: EngineV, name: Seq<char>, k: Seq<char>, i: int)
    requires
        table_dropped(e, name) is Ok,
        ({
            let after = table_dropped(e, name)->Ok_0;
            after.tables.contains_key(k) && 0 <= i < after.tables[k].foreign_keys.len()
        }),
    ensures
        ({
            let after = table_dropped(e, name)->Ok_0;
            let key = unicode_lowercase(name);
            &&& !after.tables.contains_key(key)
            &&& e.tables.contains_key(k)
            &&& after.tables[k].foreign_keys[i].referenced_table != key
            &&& e.tables[k].foreign_keys.contains(after.tables[k].foreign_keys[i])
            &&& after.tables[k].columns == e.tables[k].columns
            &&& after.tables[k].table_name == e.tables[k].table_name
            &&& after.tables[k].cluster_key == e.tables[k].cluster_key
        }),
{
    let key = unicode_lowercase(name);
    let keys = e.tables[k].foreign_keys;
    let pred = |f: ForeignKeyV| f.referenced_table != key;
    keys.lemma_filter_pred(pred, i);
    keys.lemma_filter_contains_rev(pred, keys.filter(pred)[i]);
}

/// Creating a table and dropping it again leaves the tables that there were, where none of them had
/// a foreign key to the name.
pub proof fn create_and_drop(e: EngineV, s: SchemaV, name: Seq<char>)
    requires
        table_created(e, s) is Ok,
        s.table_name_lower == unicode_lowercase(name),
        forall|k: Seq<char>, i: int|
            e.tables.contains_key(k) && 0 <= i < e.tables[k].foreign_keys.len()
                ==> #[trigger] e.tables[k].foreign_keys[i].referenced_table != s.table_name_lower,
    ensures
        ({
            let created = table_created(e, s)->Ok_0;
            &&& table_dropped(created, name) is Ok
            &&& (table_dropped(created, name)->Ok_0).tables == e.tables
        }),
{
    let key = s.table_name_lower;
    let created = table_created(e, s)->Ok_0;
    assert(created.tables.remove(key) =~= e.tables);
    let left = stripped(e.tables, key);
    assert forall|k: Seq<char>| #[trigger] e.tables.contains_key(k) implies left[k] == e.tables[k] by {
        let keys = e.tables[k].foreign_keys;
        let pred = |f: ForeignKeyV| f.referenced_table != key;
        lemma_filter_all(keys, pred);
    }
    assert(left =~= e.tables);
}

proof fn lemma_filter_all(keys: Seq<ForeignKeyV>, pred: spec_fn(ForeignKeyV) -> bool)
    requires
        forall|i: int| 0 <= i < keys.len() ==> pred(#[trigger] keys[i]),
    ensures
        keys.filter(pred) == keys,
    decreases keys.len(),
{
    reveal(Seq::filter);
    if keys.len() > 0 {
        assert forall|i: int| 0 <= i < keys.len() - 1 implies pred(
            #[trigger] keys.drop_last()[i],
        ) by {
            assert(pred(keys[i]));
        }
        lemma_filter_all(keys.drop_last(), pred);
        assert(pred(keys[keys.len() - 1]));
        assert(keys =~= keys.drop_last().push(keys.last()));
    } else {
        assert(keys.filter(pred) =~= keys);
    }
}

/// A renamed table has its columns under the new name, and nothing is left under the old one.
pub proof fn renamed_table_moves(e: EngineV, old_name: Seq<char>, new_name: Seq<char>)
    requires
        table_renamed(e, old_name, new_name) is Ok,
    ensures
        ({
            let after = table_renamed(e, old_name, new_name)->Ok_0;
            let from = unicode_lowercase(old_name);
            let to = unicode_lowercase(new_name);
            &&& !after.tables.contains_key(from)
            &&& after.tables.contains_key(to)
            &&& after.tables[to].columns == e.tables[from].columns
            &&& after.tables[to].table_name == new_name
            &&& after.tables[to].table_name_lower == to
        }),
{
}

/// Renaming a table there and back leaves the tables that there were, where the first name is the
/// one that the table had.
pub proof fn rename_table_there_and_back(e: EngineV, a: Seq<char>, b: Seq<char>)
    requires
        table_renamed(e, a, b) is Ok,
        e.tables[unicode_lowercase(a)].table_name == a,
        e.tables[unicode_lowercase(a)].table_name_lower == unicode_lowercase(a),
    ensures
        ({
            let there = table_renamed(e, a, b)->Ok_0;
            &&& table_renamed(there, b, a) is Ok
            &&& (table_renamed(there, b, a)->Ok_0).tables == e.tables
        }),
{
    let there = table_renamed(e, a, b)->Ok_0;
    let back = table_renamed(there, b, a)->Ok_0;
    assert(back.tables =~= e.tables);
}

/// A rename that is taken back leaves the engine as it was, where the request gave the table's name
/// as it is: also the epoch, so that no cache is stale.
pub proof fn reverted_rename_changes_nothing(e: EngineV, a: Seq<char>, b: Seq<char>)
    requires
        table_moved(e, a, b) is Ok,
        e.tables[unicode_lowercase(a)].table_name == a,
        e.tables[unicode_lowercase(a)].table_name_lower == unicode_lowercase(a),
    ensures
        move_reverted(table_moved(e, a, b)->Ok_0, a, b) == e,
{
    let back = move_reverted(table_moved(e, a, b)->Ok_0, a, b);
    assert(back.tables =~= e.tables);
}

/// An added column is found, at the end; every column that there was is where it was.
pub proof fn added_column_is_last(
    e: EngineV,
    table: Seq<char>,
    column: Seq<char>,
    data_type: DataType,
    nullable: bool,
    default_expr: Option<Seq<char>>,
    vector_dimensions: nat,
)
    requires
        column_added(e, table, column, data_type, nullable, default_expr, vector_dimensions) is Ok,
    ensures
        ({
            let after = column_added(
                e,
                table,
                column,
                data_type,
                nullable,
                default_expr,
                vector_dimensions,
            )->Ok_0;
            let key = unicode_lowercase(table);
            let before = e.tables[key].columns;
            let columns = after.tables[key].columns;
            &&& columns.drop_last() == before
            &&& column_called(columns, column) == Some(before.len())
        }),
{
    let key = unicode_lowercase(table);
    let before = e.tables[key].columns;
    let c = new_column(before, column, data_type, nullable, default_expr, vector_dimensions);
    assert(before.push(c).drop_last() =~= before);
}

/// Dropping the column that was added last leaves the columns that there were, where they were
/// numbered by their positions.
pub proof fn add_and_drop_column(
    e: EngineV,
    table: Seq<char>,
    column: Seq<char>,
    data_type: DataType,
    nullable: bool,
)
    requires
        column_added(e, table, column, data_type, nullable, None, 0) is Ok,
        renumbered(e.tables[unicode_lowercase(table)].columns) == e.tables[unicode_lowercase(
            table,
        )].columns,
    ensures
        ({
            let added = column_added(e, table, column, data_type, nullable, None, 0)->Ok_0;
            let key = unicode_lowercase(table);
            &&& column_dropped(added, table, column) is Ok
            &&& (column_dropped(added, table, column)->Ok_0).tables[key].columns
                == e.tables[key].columns
        }),
{
    let key = unicode_lowercase(table);
    let before = e.tables[key].columns;
    added_column_is_last(e, table, column, data_type, nullable, None, 0);
    let added = column_added(e, table, column, data_type, nullable, None, 0)->Ok_0;
    let columns = added.tables[key].columns;
    assert(columns.remove(before.len() as int) =~= before);
}

/// Whether the clustering key of every table names columns that the table has.
pub open spec fn keys_in_range(e: EngineV) -> bool {
    forall|k: Seq<char>| #[trigger]
        e.tables.contains_key(k) ==> key_in_range(
            e.tables[k].cluster_key,
            e.tables[k].columns.len(),
        )
}

proof fn lemma_key_without(key: Seq<nat>, p: nat, n: nat)
    requires
        key_in_range(key, n),
        p < n,
    ensures
        key_in_range(key_without(key, p), (n - 1) as nat),
    decreases key.len(),
{
    if key.len() > 0 {
        assert(key_in_range(key.drop_last(), n)) by {
            assert forall|i: int| 0 <= i < key.len() - 1 implies #[trigger] key.drop_last()[i] < n by {
                assert(key[i] < n);
            }
        }
        lemma_key_without(key.drop_last(), p, n);
        assert(key[key.len() - 1] < n);
    }
}

/// No change lets a clustering key name a column that is not there: dropping a column moves the key
/// along, and a key that would be out of range is refused.
pub proof fn clustering_keys_stay_in_range(e: EngineV, a: AlterV)
    requires
        keys_in_range(e),
        alter_applied(e, a) is Ok,
    ensures
        keys_in_range(alter_applied(e, a)->Ok_0),
{
    let key = unicode_lowercase(table_of(a));
    let s = e.tables[key];
    assert(e.tables.contains_key(key));
    assert(key_in_range(s.cluster_key, s.columns.len()));
    match a {
        AlterV::AddColumn {
            table,
            column,
            data_type,
            nullable,
            default_expr,
            vector_dimensions,
        } => {
            let c = new_column(
                s.columns,
                column,
                data_type,
                nullable,
                default_expr,
                vector_dimensions,
            );
            assert(with_column(s, c).columns.len() == s.columns.len() + 1);
            lemma_with_schema(e, table, with_column(s, c));
        },
        AlterV::DropColumn { table, column } => {
            lemma_column_called(s.columns, column);
            let p = column_called(s.columns, column)->Some_0;
            lemma_key_without(s.cluster_key, p, s.columns.len());
            assert(without_column(s, p).columns.len() == s.columns.len() - 1);
            lemma_with_schema(e, table, without_column(s, p));
        },
        AlterV::RenameColumn { table, old_name, new_name } => {
            lemma_column_called(s.columns, old_name);
            let p = column_called(s.columns, old_name)->Some_0;
            let c = renamed_column(s.columns[p as int], new_name);
            lemma_with_schema(e, table, with_column_at(s, p, c));
        },
        AlterV::ModifyColumn { table, column, data_type, nullable, vector_dimensions } => {
            lemma_column_called(s.columns, column);
            let p = column_called(s.columns, column)->Some_0;
            let c = modified_column(
                s.columns[p as int],
                data_type,
                nullable,
                Some(vector_dimensions as u16),
            );
            lemma_with_schema(e, table, with_column_at(s, p, c));
        },
        AlterV::RenameTable { table, new_name } => {},
        AlterV::ClusterBy { table, key } => {
            lemma_with_schema(e, table, SchemaV { cluster_key: key, ..s });
        },
    }
}

proof fn lemma_with_schema(e: EngineV, table: Seq<char>, s: SchemaV)
    requires
        keys_in_range(e),
        key_in_range(s.cluster_key, s.columns.len()),
    ensures
        keys_in_range(with_schema(e, table, s)),
{
}

/// Creating or dropping a table keeps every clustering key in range.
pub proof fn tables_keep_keys_in_range(e: EngineV, s: SchemaV, name: Seq<char>)
    requires
        keys_in_range(e),
    ensures
        table_created(e, s) matches Ok(after) ==> keys_in_range(after),
        table_dropped(e, name) matches Ok(after) ==> keys_in_range(after),
{
}

/// A created view is found, whatever the case in which its name is asked for in the same letters,
/// and a table of the name keeps it from being created.
pub proof fn created_view_is_there(e: EngineV, name: Seq<char>, query: Seq<char>)
    requires
        view_created(e, name, query, false) is Ok,
    ensures
        ({
            let after = view_created(e, name, query, false)->Ok_0;
            let key = unicode_lowercase(name);
            &&& !e.tables.contains_key(key)
            &&& after.views.contains_key(key)
            &&& after.views[key] == view_of(name, query)
            &&& after.tables == e.tables
            &&& view_created(after, name, query, true) == Ok::<EngineV, ErrorV>(after)
            &&& view_created(after, name, query, false) == Err::<EngineV, ErrorV>(
                ErrorV::ViewAlreadyExists(name),
            )
        }),
{
}

/// Creating a view and dropping it again leaves the engine as it was.
pub proof fn create_and_drop_view(e: EngineV, name: Seq<char>, query: Seq<char>)
    requires
        view_created(e, name, query, false) is Ok,
    ensures
        view_dropped(view_created(e, name, query, false)->Ok_0, name, false) == Ok::<
            EngineV,
            ErrorV,
        >(e),
{
    let after = view_created(e, name, query, false)->Ok_0;
    assert(after.views.remove(unicode_lowercase(name)) =~= e.views);
}

/// A closed engine refuses every request, for that reason.
pub proof fn closed_engine_refuses(e: EngineV, s: SchemaV, name: Seq<char>, a: AlterV)
    requires
        !e.open,
    ensures
        table_created(e, s) == Err::<EngineV, ErrorV>(ErrorV::EngineNotOpen),
        table_dropped(e, name) == Err::<EngineV, ErrorV>(ErrorV::EngineNotOpen),
        alter_applied(e, a) == Err::<EngineV, ErrorV>(ErrorV::EngineNotOpen),
        forall|query: Seq<char>, b: bool| #[trigger]
            view_created(e, name, query, b) == Err::<EngineV, ErrorV>(ErrorV::EngineNotOpen),
        forall|b: bool| #[trigger]
            view_dropped(e, name, b) == Err::<EngineV, ErrorV>(ErrorV::EngineNotOpen),
{
}

} // verus!
