//! What each change to the catalog leaves behind, and when it is refused.

use crate::engine::{
    EngineV, ErrorV, alter_applied, column_added, column_dropped, column_fault, column_modified,
    column_renamed, key_set, move_reverted, references_of, references_to, table_created,
    table_dropped, table_moved, table_renamed, view_created, view_dropped,
};
use crate::alter_table::AlterV;
use crate::schema::{ColumnV, DataType, ForeignKeyV, SchemaV};
use crate::schema_change::{column_called, key_without, keys_not_to, keys_without, lemma_column_called};
use crate::selection::{
    comes_from, is_selection, lemma_filter_selects, lemma_selection_contains,
    lemma_selection_of_none, lemma_selection_step, selects,
};
use crate::text::unicode_lowercase;
use crate::transaction_ddl::{
    created_in_transaction, dropped_in_transaction, renamed_in_transaction,
};
use vstd::prelude::*;

verus! {

/// Whether an engine differs from another in the table under `key` and in the epoch alone.
pub open spec fn differs_in_table(e: EngineV, after: EngineV, key: Seq<char>) -> bool {
    &&& after.path == e.path
    &&& after.config_path == e.config_path
    &&& after.config_limits == e.config_limits
    &&& after.limits == e.limits
    &&& after.open == e.open
    &&& after.loading == e.loading
    &&& after.stats_epoch == e.stats_epoch
    &&& after.level == e.level
    &&& after.views == e.views
    &&& after.timestamps == e.timestamps
    &&& after.epoch == if e.epoch == u64::MAX {
        0
    } else {
        e.epoch + 1
    }
    &&& forall|k: Seq<char>|
        k != key ==> (#[trigger] after.tables.contains_key(k) <==> e.tables.contains_key(k))
            && after.tables[k] == e.tables[k]
}

/// Whether one of the columns has a name, in lower case.
pub open spec fn has_name(columns: Seq<ColumnV>, lower: Seq<char>) -> bool {
    exists|i: int| 0 <= i < columns.len() && (#[trigger] columns[i]).name_lower == lower
}

/// Whether the column at `p` is the first of a name, in lower case.
pub open spec fn is_first_of_name(columns: Seq<ColumnV>, lower: Seq<char>, p: int) -> bool {
    &&& 0 <= p < columns.len()
    &&& columns[p].name_lower == lower
    &&& forall|i: int| 0 <= i < p ==> (#[trigger] columns[i]).name_lower != lower
}

proof fn lemma_called(columns: Seq<ColumnV>, name: Seq<char>)
    ensures
        match column_called(columns, name) {
            Some(p) => is_first_of_name(columns, unicode_lowercase(name), p as int),
            None => !has_name(columns, unicode_lowercase(name)),
        },
    decreases columns.len(),
{
    lemma_column_called(columns, name);
    if columns.len() > 0 {
        lemma_called(columns.drop_last(), name);
        match column_called(columns.drop_last(), name) {
            Some(p) => {
                assert forall|i: int| 0 <= i < p implies (#[trigger] columns[i]).name_lower
                    != unicode_lowercase(name) by {
                    assert(columns.drop_last()[i] == columns[i]);
                }
            },
            None => {
                assert forall|i: int| 0 <= i < columns.len() - 1 implies (
                #[trigger] columns[i]).name_lower != unicode_lowercase(name) by {
                    assert(columns.drop_last()[i] == columns[i]);
                }
            },
        }
    }
}

/// The column that is found by a name is the first that has the name, whatever the case of its
/// letters; none is found where none has it.
pub proof fn column_is_found_by_name(columns: Seq<ColumnV>, name: Seq<char>)
    ensures
        match column_called(columns, name) {
            Some(p) => is_first_of_name(columns, unicode_lowercase(name), p as int),
            None => !has_name(columns, unicode_lowercase(name)),
        },
{
    lemma_called(columns, name);
}

/// An added column is the last of the table, and has what was asked for: the name, the type, whether
/// it may be NULL, the default and the dimensions. Its number is its position; it is no primary key,
/// does not count up, and has no check. All else of the table, and every other table, is as it was.
/// The column is refused where the engine is closed, there is no such table, or a column has the name.
pub proof fn added_column_is_as_asked(
    e: EngineV,
    table: Seq<char>,
    column: Seq<char>,
    data_type: DataType,
    nullable: bool,
    default_expr: Option<Seq<char>>,
    vector_dimensions: nat,
)
    ensures
        ({
            let r = column_added(
                e,
                table,
                column,
                data_type,
                nullable,
                default_expr,
                vector_dimensions,
            );
            let key = unicode_lowercase(table);
            let before = e.tables[key];
            &&& !e.open ==> r == Err::<EngineV, ErrorV>(ErrorV::EngineNotOpen)
            &&& e.open && !e.tables.contains_key(key) ==> r == Err::<EngineV, ErrorV>(
                ErrorV::TableNotFound(key),
            )
            &&& e.open && e.tables.contains_key(key) && has_name(
                before.columns,
                unicode_lowercase(column),
            ) ==> r == Err::<EngineV, ErrorV>(ErrorV::DuplicateColumn)
            &&& e.open && e.tables.contains_key(key) && !has_name(
                before.columns,
                unicode_lowercase(column),
            ) ==> r is Ok
            &&& r matches Ok(after) ==> {
                let now = after.tables[key];
                let n = before.columns.len() as int;
                let c = now.columns[n];
                &&& differs_in_table(e, after, key)
                &&& after.tables.contains_key(key)
                &&& now.columns.len() == n + 1
                &&& forall|i: int| 0 <= i < n ==> #[trigger] now.columns[i] == before.columns[i]
                &&& c.id == n
                &&& c.name == column
                &&& c.name_lower == unicode_lowercase(column)
                &&& c.data_type == data_type
                &&& c.nullable == nullable
                &&& c.default_expr == default_expr
                &&& c.vector_dimensions == vector_dimensions
                &&& !c.primary_key
                &&& !c.auto_increment
                &&& c.default_value is None
                &&& c.check_expr is None
                &&& now.table_name == before.table_name
                &&& now.table_name_lower == before.table_name_lower
                &&& now.foreign_keys == before.foreign_keys
                &&& now.cluster_key == before.cluster_key
                &&& now.created_at == before.created_at
                &&& now.updated_at == before.updated_at
            }
        }),
{
    lemma_called(e.tables[unicode_lowercase(table)].columns, column);
}

/// The position that a column behind the one at `p` has once that one is gone.
pub open spec fn place_without(i: nat, p: nat) -> nat {
    if i < p {
        i
    } else {
        (i - 1) as nat
    }
}

proof fn lemma_keys_without(keys: Seq<ForeignKeyV>, p: nat)
    ensures
        is_selection(
            keys,
            |f: ForeignKeyV| f.column_index != p,
            |f: ForeignKeyV| ForeignKeyV { column_index: place_without(f.column_index, p), ..f },
            keys_without(keys, p),
        ),
    decreases keys.len(),
{
    let keep = |f: ForeignKeyV| f.column_index != p;
    let change = |f: ForeignKeyV|
        ForeignKeyV { column_index: place_without(f.column_index, p), ..f };
    if keys.len() == 0 {
        lemma_selection_of_none(keys, keep, change, keys_without(keys, p));
    } else {
        lemma_keys_without(keys.drop_last(), p);
        lemma_selection_step(
            keys,
            keep,
            change,
            keys_without(keys.drop_last(), p),
            keys_without(keys, p),
        );
    }
}

proof fn lemma_key_places(key: Seq<nat>, p: nat)
    ensures
        is_selection(
            key,
            |c: nat| c != p,
            |c: nat| place_without(c, p),
            key_without(key, p),
        ),
    decreases key.len(),
{
    let keep = |c: nat| c != p;
    let change = |c: nat| place_without(c, p);
    if key.len() == 0 {
        lemma_selection_of_none(key, keep, change, key_without(key, p));
    } else {
        lemma_key_places(key.drop_last(), p);
        lemma_selection_step(
            key,
            keep,
            change,
            key_without(key.drop_last(), p),
            key_without(key, p),
        );
    }
}

/// A dropped column is gone. The columns before it are as they were, those behind it move up by one,
/// and each is numbered by its place. The foreign keys of other columns and the other columns of the
/// clustering key stay, in order, under the new places. A primary key column is not dropped.
pub proof fn dropped_column_is_gone(e: EngineV, table: Seq<char>, column: Seq<char>, p: nat)
    requires
        is_first_of_name(
            e.tables[unicode_lowercase(table)].columns,
            unicode_lowercase(column),
            p as int,
        ),
    ensures
        ({
            let r = column_dropped(e, table, column);
            let key = unicode_lowercase(table);
            let before = e.tables[key];
            let there = e.open && e.tables.contains_key(key);
            &&& there && before.columns[p as int].primary_key ==> r == Err::<EngineV, ErrorV>(
                ErrorV::CannotDropPrimaryKey,
            )
            &&& r is Ok <==> there && !before.columns[p as int].primary_key
            &&& r matches Ok(after) ==> {
                let now = after.tables[key];
                &&& differs_in_table(e, after, key)
                &&& after.tables.contains_key(key)
                &&& now.columns.len() + 1 == before.columns.len()
                &&& forall|i: int|
                    0 <= i < p ==> #[trigger] now.columns[i] == (ColumnV {
                        id: i as nat,
                        ..before.columns[i]
                    })
                &&& forall|i: int|
                    p <= i < now.columns.len() ==> #[trigger] now.columns[i] == (ColumnV {
                        id: i as nat,
                        ..before.columns[i + 1]
                    })
                &&& is_selection(
                    before.foreign_keys,
                    |f: ForeignKeyV| f.column_index != p,
                    |f: ForeignKeyV|
                        ForeignKeyV { column_index: place_without(f.column_index, p), ..f },
                    now.foreign_keys,
                )
                &&& is_selection(
                    before.cluster_key,
                    |c: nat| c != p,
                    |c: nat| place_without(c, p),
                    now.cluster_key,
                )
                &&& now.table_name == before.table_name
                &&& now.table_name_lower == before.table_name_lower
                &&& now.created_at == before.created_at
                &&& now.updated_at == before.updated_at
            }
        }),
{
    let s = e.tables[unicode_lowercase(table)];
    lemma_called(s.columns, column);
    let q = column_called(s.columns, column)->Some_0;
    assert(q == p) by {
        assert(s.columns[p as int].name_lower == unicode_lowercase(column));
        assert(s.columns[q as int].name_lower == unicode_lowercase(column));
    }
    lemma_keys_without(s.foreign_keys, p);
    lemma_key_places(s.cluster_key, p);
}

/// A foreign key of another column survives the drop of a column with everything but its place.
pub proof fn foreign_keys_outlive_other_columns(s: Seq<ForeignKeyV>, p: nat)
    ensures
        forall|k: int|
            0 <= k < s.len() && (#[trigger] s[k]).column_index < p ==> keys_without(s, p).contains(
                s[k],
            ),
        forall|k: int|
            0 <= k < s.len() && (#[trigger] s[k]).column_index > p ==> keys_without(s, p).contains(
                ForeignKeyV { column_index: (s[k].column_index - 1) as nat, ..s[k] },
            ),
{
    let keep = |f: ForeignKeyV| f.column_index != p;
    let change = |f: ForeignKeyV|
        ForeignKeyV { column_index: place_without(f.column_index, p), ..f };
    lemma_keys_without(s, p);
    lemma_selection_contains(s, keep, change, keys_without(s, p));
    assert forall|k: int|
        0 <= k < s.len() && (#[trigger] s[k]).column_index < p implies keys_without(s, p).contains(
        s[k],
    ) by {
        assert(keep(s[k]));
        assert(change(s[k]) == s[k]);
    }
    assert forall|k: int|
        0 <= k < s.len() && (#[trigger] s[k]).column_index > p implies keys_without(s, p).contains(
        ForeignKeyV { column_index: (s[k].column_index - 1) as nat, ..s[k] },
    ) by {
        assert(keep(s[k]));
    }
}

/// A renamed column keeps its place and all but its name, and so does the rest of the table. A name
/// that a column of the table has is refused.
pub proof fn renamed_column_keeps_the_rest(
    e: EngineV,
    table: Seq<char>,
    old_name: Seq<char>,
    new_name: Seq<char>,
    p: nat,
)
    requires
        is_first_of_name(
            e.tables[unicode_lowercase(table)].columns,
            unicode_lowercase(old_name),
            p as int,
        ),
    ensures
        ({
            let r = column_renamed(e, table, old_name, new_name);
            let key = unicode_lowercase(table);
            let before = e.tables[key];
            let there = e.open && e.tables.contains_key(key);
            &&& there && has_name(before.columns, unicode_lowercase(new_name)) ==> r == Err::<
                EngineV,
                ErrorV,
            >(ErrorV::DuplicateColumn)
            &&& r is Ok <==> there && !has_name(before.columns, unicode_lowercase(new_name))
            &&& r matches Ok(after) ==> {
                let now = after.tables[key];
                let c = now.columns[p as int];
                let b = before.columns[p as int];
                &&& differs_in_table(e, after, key)
                &&& after.tables.contains_key(key)
                &&& now.columns.len() == before.columns.len()
                &&& forall|i: int|
                    0 <= i < now.columns.len() && i != p ==> #[trigger] now.columns[i]
                        == before.columns[i]
                &&& c.name == new_name
                &&& c.name_lower == unicode_lowercase(new_name)
                &&& c.id == b.id
                &&& c.data_type == b.data_type
                &&& c.nullable == b.nullable
                &&& c.primary_key == b.primary_key
                &&& c.auto_increment == b.auto_increment
                &&& c.default_expr == b.default_expr
                &&& c.default_value == b.default_value
                &&& c.check_expr == b.check_expr
                &&& c.vector_dimensions == b.vector_dimensions
                &&& now == (SchemaV { columns: now.columns, ..before })
            }
        }),
{
    let s = e.tables[unicode_lowercase(table)];
    lemma_called(s.columns, old_name);
    lemma_called(s.columns, new_name);
    let q = column_called(s.columns, old_name)->Some_0;
    assert(q == p) by {
        assert(s.columns[p as int].name_lower == unicode_lowercase(old_name));
        assert(s.columns[q as int].name_lower == unicode_lowercase(old_name));
    }
}

/// A modified column has the type that was asked for, and whether it may be NULL; it has the
/// dimensions that were given, and keeps its own where none were. All else of it, and of the table,
/// is as it was.
pub proof fn modified_column_is_as_asked(
    e: EngineV,
    table: Seq<char>,
    column: Seq<char>,
    data_type: DataType,
    nullable: bool,
    dimensions: Option<u16>,
    p: nat,
)
    requires
        is_first_of_name(
            e.tables[unicode_lowercase(table)].columns,
            unicode_lowercase(column),
            p as int,
        ),
    ensures
        ({
            let r = column_modified(e, table, column, data_type, nullable, dimensions);
            let key = unicode_lowercase(table);
            let before = e.tables[key];
            &&& r is Ok <==> e.open && e.tables.contains_key(key)
            &&& r matches Ok(after) ==> {
                let now = after.tables[key];
                let c = now.columns[p as int];
                let b = before.columns[p as int];
                &&& differs_in_table(e, after, key)
                &&& after.tables.contains_key(key)
                &&& now.columns.len() == before.columns.len()
                &&& forall|i: int|
                    0 <= i < now.columns.len() && i != p ==> #[trigger] now.columns[i]
                        == before.columns[i]
                &&& c.data_type == data_type
                &&& c.nullable == nullable
                &&& dimensions matches Some(d) ==> c.vector_dimensions == d
                &&& dimensions is None ==> c.vector_dimensions == b.vector_dimensions
                &&& c.id == b.id
                &&& c.name == b.name
                &&& c.name_lower == b.name_lower
                &&& c.primary_key == b.primary_key
                &&& c.auto_increment == b.auto_increment
                &&& c.default_expr == b.default_expr
                &&& c.default_value == b.default_value
                &&& c.check_expr == b.check_expr
                &&& now == (SchemaV { columns: now.columns, ..before })
            }
        }),
{
    let s = e.tables[unicode_lowercase(table)];
    lemma_called(s.columns, column);
    let q = column_called(s.columns, column)->Some_0;
    assert(q == p) by {
        assert(s.columns[p as int].name_lower == unicode_lowercase(column));
        assert(s.columns[q as int].name_lower == unicode_lowercase(column));
    }
}

/// A column that a table does not have is not dropped, renamed or modified: each is refused with the
/// name that was asked for, and so is every change to a table that there is not.
pub proof fn missing_columns_are_named(
    e: EngineV,
    table: Seq<char>,
    column: Seq<char>,
    new_name: Seq<char>,
    data_type: DataType,
    nullable: bool,
    dimensions: Option<u16>,
    cluster: Seq<nat>,
)
    ensures
        ({
            let key = unicode_lowercase(table);
            let missing = Err::<EngineV, ErrorV>(ErrorV::ColumnNotFound(column));
            let no_table = Err::<EngineV, ErrorV>(ErrorV::TableNotFound(key));
            &&& e.open && e.tables.contains_key(key) && !has_name(
                e.tables[key].columns,
                unicode_lowercase(column),
            ) ==> {
                &&& column_dropped(e, table, column) == missing
                &&& column_renamed(e, table, column, new_name) == missing
                &&& column_modified(e, table, column, data_type, nullable, dimensions) == missing
            }
            &&& e.open && !e.tables.contains_key(key) ==> {
                &&& table_dropped(e, table) == no_table
                &&& dropped_in_transaction(e, table) == no_table
                &&& table_renamed(e, table, new_name) == no_table
                &&& renamed_in_transaction(e, table, new_name) == no_table
                &&& column_dropped(e, table, column) == no_table
                &&& column_renamed(e, table, column, new_name) == no_table
                &&& column_modified(e, table, column, data_type, nullable, dimensions) == no_table
                &&& key_set(e, table, cluster) == no_table
            }
        }),
{
    lemma_called(e.tables[unicode_lowercase(table)].columns, column);
}

/// A table has the clustering key that it was last given, where each of its positions is that of a
/// column; all else is as it was.
pub proof fn clustering_key_is_as_asked(e: EngineV, table: Seq<char>, cluster: Seq<nat>)
    ensures
        ({
            let r = key_set(e, table, cluster);
            let key = unicode_lowercase(table);
            let before = e.tables[key];
            let fits = forall|i: int|
                0 <= i < cluster.len() ==> #[trigger] cluster[i] < before.columns.len();
            &&& r is Ok <==> e.open && e.tables.contains_key(key) && fits
            &&& e.open && e.tables.contains_key(key) && !fits ==> r == Err::<EngineV, ErrorV>(
                ErrorV::ClusterKeyPastEnd,
            )
            &&& r matches Ok(after) ==> {
                &&& differs_in_table(e, after, key)
                &&& after.tables.contains_key(key)
                &&& after.tables[key] == (SchemaV { cluster_key: cluster, ..before })
            }
        }),
{
}

/// What two engines differ in after one table was dropped: the table is gone; every other table is
/// there as it was, with each foreign key that references another table than the one that was
/// dropped, in order, and no other.
pub open spec fn differs_by_drop(e: EngineV, after: EngineV, key: Seq<char>) -> bool {
    &&& !after.tables.contains_key(key)
    &&& forall|k: Seq<char>|
        k != key ==> (#[trigger] after.tables.contains_key(k) <==> e.tables.contains_key(k))
    &&& forall|k: Seq<char>| #[trigger]
        after.tables.contains_key(k) ==> {
            let now = after.tables[k];
            let before = e.tables[k];
            &&& is_selection(
                before.foreign_keys,
                |f: ForeignKeyV| f.referenced_table != key,
                |f: ForeignKeyV| f,
                now.foreign_keys,
            )
            &&& forall|i: int|
                0 <= i < before.foreign_keys.len() && (
                #[trigger] before.foreign_keys[i]).referenced_table != key
                    ==> now.foreign_keys.contains(before.foreign_keys[i])
            &&& forall|i: int|
                0 <= i < now.foreign_keys.len() ==> (
                #[trigger] now.foreign_keys[i]).referenced_table != key
            &&& now.columns == before.columns
            &&& now.cluster_key == before.cluster_key
            &&& now.table_name == before.table_name
            &&& now.table_name_lower == before.table_name_lower
            &&& now.created_at == before.created_at
            &&& now.updated_at == before.updated_at
        }
    &&& after == (EngineV { tables: after.tables, epoch: after.epoch, ..e })
}

proof fn lemma_keys_not_to(keys: Seq<ForeignKeyV>, parent: Seq<char>)
    ensures
        is_selection(
            keys,
            |f: ForeignKeyV| f.referenced_table != parent,
            |f: ForeignKeyV| f,
            keys_not_to(keys, parent),
        ),
        forall|i: int|
            0 <= i < keys.len() && (#[trigger] keys[i]).referenced_table != parent ==> keys_not_to(
                keys,
                parent,
            ).contains(keys[i]),
        forall|i: int|
            0 <= i < keys_not_to(keys, parent).len() ==> (#[trigger] keys_not_to(
                keys,
                parent,
            )[i]).referenced_table != parent,
{
    let keep = |f: ForeignKeyV| f.referenced_table != parent;
    let same = |f: ForeignKeyV| f;
    let left = keys_not_to(keys, parent);
    lemma_filter_selects(keys, keep);
    lemma_selection_contains(keys, keep, same, left);
    assert forall|i: int|
        0 <= i < keys.len() && (#[trigger] keys[i]).referenced_table != parent implies left.contains(
        keys[i],
    ) by {
        assert(keep(keys[i]));
        assert(same(keys[i]) == keys[i]);
    }
}

/// Dropping a table takes the foreign keys to it along, and nothing else: every foreign key of every
/// other table that references another table is still there, in its order. It is so within a
/// transaction and outside one.
pub proof fn dropped_table_leaves_the_rest(e: EngineV, name: Seq<char>)
    ensures
        ({
            let key = unicode_lowercase(name);
            let r = table_dropped(e, name);
            let t = dropped_in_transaction(e, name);
            &&& r is Ok <==> e.open && e.tables.contains_key(key)
            &&& t is Ok <==> e.tables.contains_key(key)
            &&& r matches Ok(after) ==> differs_by_drop(e, after, key)
            &&& t matches Ok(after) ==> differs_by_drop(e, after, key)
        }),
{
    let key = unicode_lowercase(name);
    assert forall|k: Seq<char>| #[trigger] e.tables.contains_key(k) implies ({
        let keys = e.tables[k].foreign_keys;
        let left = keys_not_to(keys, key);
        &&& is_selection(
            keys,
            |f: ForeignKeyV| f.referenced_table != key,
            |f: ForeignKeyV| f,
            left,
        )
        &&& forall|i: int|
            0 <= i < keys.len() && (#[trigger] keys[i]).referenced_table != key ==> left.contains(
                keys[i],
            )
        &&& forall|i: int| 0 <= i < left.len() ==> (#[trigger] left[i]).referenced_table != key
    }) by {
        lemma_keys_not_to(e.tables[k].foreign_keys, key);
    }
}

/// A renamed table has under the new name all that it had under the old one; every other table, its
/// foreign keys among them, is as it was. The rename is refused where there is no such table or the
/// new name is that of a table.
pub proof fn renamed_table_keeps_the_rest(e: EngineV, old_name: Seq<char>, new_name: Seq<char>)
    ensures
        ({
            let from = unicode_lowercase(old_name);
            let to = unicode_lowercase(new_name);
            let free = e.tables.contains_key(from) && !e.tables.contains_key(to);
            let r = table_renamed(e, old_name, new_name);
            let t = renamed_in_transaction(e, old_name, new_name);
            &&& r is Ok <==> e.open && free
            &&& t is Ok <==> free
            &&& e.open && e.tables.contains_key(from) && e.tables.contains_key(to) ==> r == Err::<
                EngineV,
                ErrorV,
            >(ErrorV::TableAlreadyExists(to)) && t == r
            &&& r is Ok ==> t == r
            &&& t matches Ok(after) ==> {
                &&& !after.tables.contains_key(from)
                &&& after.tables.contains_key(to)
                &&& after.tables[to].table_name == new_name
                &&& after.tables[to].table_name_lower == to
                &&& after.tables[to].columns == e.tables[from].columns
                &&& after.tables[to].foreign_keys == e.tables[from].foreign_keys
                &&& after.tables[to].cluster_key == e.tables[from].cluster_key
                &&& after.tables[to].created_at == e.tables[from].created_at
                &&& after.tables[to].updated_at == e.tables[from].updated_at
                &&& forall|k: Seq<char>|
                    k != from && k != to ==> (#[trigger] after.tables.contains_key(k)
                        <==> e.tables.contains_key(k)) && after.tables[k] == e.tables[k]
                &&& after == (EngineV { tables: after.tables, epoch: after.epoch, ..e })
            }
        }),
{
}

/// Whether columns can be those of a table: each has a name that no other has, and a primary key is
/// an INTEGER.
pub open spec fn sound_columns(columns: Seq<ColumnV>) -> bool {
    &&& forall|i: int| 0 <= i < columns.len() ==> (#[trigger] columns[i]).name.len() > 0
    &&& forall|i: int|
        0 <= i < columns.len() && (#[trigger] columns[i]).primary_key ==> columns[i].data_type
            == DataType::Integer
    &&& forall|i: int, j: int|
        0 <= i < j < columns.len() ==> (#[trigger] columns[i]).name_lower != (
        #[trigger] columns[j]).name_lower
}

proof fn lemma_column_fault(columns: Seq<ColumnV>)
    ensures
        column_fault(columns) is None <==> sound_columns(columns),
        match column_fault(columns) {
            Some(ErrorV::EmptyColumnName) => exists|i: int|
                0 <= i < columns.len() && (#[trigger] columns[i]).name.len() == 0,
            Some(ErrorV::PrimaryKeyNotInteger(name)) => exists|i: int|
                0 <= i < columns.len() && (#[trigger] columns[i]).name == name
                    && columns[i].primary_key && columns[i].data_type != DataType::Integer,
            Some(ErrorV::DuplicateColumn) => exists|i: int, j: int|
                0 <= i < j < columns.len() && (#[trigger] columns[i]).name_lower == (
                #[trigger] columns[j]).name_lower,
            Some(_) => false,
            None => true,
        },
    decreases columns.len(),
{
    if columns.len() > 0 {
        let before = columns.drop_last();
        let n = columns.len() - 1;
        lemma_column_fault(before);
        assert forall|i: int| 0 <= i < n implies #[trigger] before[i] == columns[i] by {}
        if sound_columns(columns) {
            assert(sound_columns(before)) by {
                assert forall|i: int| 0 <= i < before.len() implies (
                #[trigger] before[i]).name.len() > 0 by {
                    assert(columns[i].name.len() > 0);
                }
                assert forall|i: int| 0 <= i < before.len() && (
                #[trigger] before[i]).primary_key implies before[i].data_type
                    == DataType::Integer by {
                    assert(columns[i].primary_key);
                }
                assert forall|i: int, j: int| 0 <= i < j < before.len() implies (
                #[trigger] before[i]).name_lower != (#[trigger] before[j]).name_lower by {
                    assert(columns[i].name_lower != columns[j].name_lower);
                }
            }
            assert(columns[n].name.len() > 0);
            assert forall|i: int| 0 <= i < before.len() implies (#[trigger] before[i]).name_lower
                != columns[n].name_lower by {
                assert(columns[i].name_lower != columns[n].name_lower);
            }
        }
        match column_fault(before) {
            Some(ErrorV::EmptyColumnName) => {
                let i = choose|i: int|
                    0 <= i < before.len() && (#[trigger] before[i]).name.len() == 0;
                assert(columns[i].name.len() == 0);
            },
            Some(ErrorV::PrimaryKeyNotInteger(name)) => {
                let i = choose|i: int|
                    0 <= i < before.len() && (#[trigger] before[i]).name == name
                        && before[i].primary_key && before[i].data_type != DataType::Integer;
                assert(columns[i].name == name);
            },
            Some(ErrorV::DuplicateColumn) => {
                let (i, j) = choose|i: int, j: int|
                    0 <= i < j < before.len() && (#[trigger] before[i]).name_lower == (
                    #[trigger] before[j]).name_lower;
                assert(columns[i].name_lower == columns[j].name_lower);
            },
            Some(_) => {},
            None => {
                if columns[n].name.len() == 0 {
                } else if columns[n].primary_key && columns[n].data_type != DataType::Integer {
                } else if exists|i: int|
                    0 <= i < before.len() && (#[trigger] before[i]).name_lower
                        == columns.last().name_lower {
                    let i = choose|i: int|
                        0 <= i < before.len() && (#[trigger] before[i]).name_lower
                            == columns.last().name_lower;
                    assert(columns[i].name_lower == columns[n].name_lower);
                } else {
                    assert forall|i: int, j: int| 0 <= i < j < columns.len() implies (
                    #[trigger] columns[i]).name_lower != (#[trigger] columns[j]).name_lower by {
                        assert(before[i] == columns[i]);
                        if j < n {
                            assert(before[j] == columns[j]);
                        }
                    }
                    assert forall|i: int| 0 <= i < columns.len() implies (
                    #[trigger] columns[i]).name.len() > 0 by {
                        if i < n {
                            assert(before[i] == columns[i]);
                        }
                    }
                    assert forall|i: int| 0 <= i < columns.len() && (
                    #[trigger] columns[i]).primary_key implies columns[i].data_type
                        == DataType::Integer by {
                        if i < n {
                            assert(before[i] == columns[i]);
                        }
                    }
                    assert(sound_columns(columns));
                }
            },
        }
    }
}

/// A table is created just where the engine is open, the table has a name that no table has, its
/// columns are sound, and its clustering key names columns that it has. It is then there as it was
/// given, and nothing else has changed. Where it is refused, the reason is one that holds.
pub proof fn table_is_created_where_sound(e: EngineV, s: SchemaV)
    ensures
        ({
            let r = table_created(e, s);
            let key = s.table_name_lower;
            let fits = forall|i: int|
                0 <= i < s.cluster_key.len() ==> #[trigger] s.cluster_key[i] < s.columns.len();
            &&& r is Ok <==> e.open && s.table_name.len() > 0 && sound_columns(s.columns) && fits
                && !e.tables.contains_key(key)
            &&& r matches Ok(after) ==> differs_in_table(e, after, key)
                && after.tables.contains_key(key) && after.tables[key] == s
            &&& r matches Err(x) ==> match x {
                ErrorV::EngineNotOpen => !e.open,
                ErrorV::MissingTableName => s.table_name.len() == 0,
                ErrorV::EmptyColumnName => exists|i: int|
                    0 <= i < s.columns.len() && (#[trigger] s.columns[i]).name.len() == 0,
                ErrorV::PrimaryKeyNotInteger(name) => exists|i: int|
                    0 <= i < s.columns.len() && (#[trigger] s.columns[i]).name == name
                        && s.columns[i].primary_key && s.columns[i].data_type
                        != DataType::Integer,
                ErrorV::DuplicateColumn => exists|i: int, j: int|
                    0 <= i < j < s.columns.len() && (#[trigger] s.columns[i]).name_lower == (
                    #[trigger] s.columns[j]).name_lower,
                ErrorV::ClusterKeyPastEnd => !fits,
                ErrorV::TableAlreadyExists(k) => k == key && e.tables.contains_key(key),
                _ => false,
            }
        }),
{
    lemma_column_fault(s.columns);
}

/// A transaction creates a table just where none has the name; the table is then there as it was
/// given, and nothing else has changed.
pub proof fn transaction_creates_where_free(e: EngineV, name: Seq<char>, s: SchemaV)
    ensures
        ({
            let r = created_in_transaction(e, name, s);
            let key = unicode_lowercase(name);
            &&& e.tables.contains_key(key) ==> r == Err::<EngineV, ErrorV>(
                ErrorV::TableAlreadyExists(key),
            )
            &&& !e.tables.contains_key(key) ==> r is Ok
            &&& r matches Ok(after) ==> differs_in_table(e, after, key)
                && after.tables.contains_key(key) && after.tables[key] == s
        }),
{
}

/// A view is created just where neither a table nor a view has its name, and has then the query that
/// was given; where a view has the name, that view stays, and this is an error unless the request
/// allows for it. Nothing else changes, not even the epoch.
pub proof fn view_is_created_where_free(
    e: EngineV,
    name: Seq<char>,
    query: Seq<char>,
    if_not_exists: bool,
)
    ensures
        ({
            let r = view_created(e, name, query, if_not_exists);
            let key = unicode_lowercase(name);
            let table = e.tables.contains_key(key);
            let view = e.views.contains_key(key);
            &&& !e.open ==> r == Err::<EngineV, ErrorV>(ErrorV::EngineNotOpen)
            &&& e.open && table ==> r == Err::<EngineV, ErrorV>(ErrorV::ViewNameIsTable(name))
            &&& e.open && !table && view && !if_not_exists ==> r == Err::<EngineV, ErrorV>(
                ErrorV::ViewAlreadyExists(name),
            )
            &&& e.open && !table && view && if_not_exists ==> r == Ok::<EngineV, ErrorV>(e)
            &&& e.open && !table && !view ==> r is Ok
            &&& r matches Ok(after) ==> {
                &&& after == (EngineV { views: after.views, ..e })
                &&& after.views.contains_key(key)
                &&& !view ==> after.views[key].name == key && after.views[key].original_name
                    == name && after.views[key].query == query
                &&& forall|k: Seq<char>|
                    k != key ==> (#[trigger] after.views.contains_key(k)
                        <==> e.views.contains_key(k)) && after.views[k] == e.views[k]
            }
        }),
{
}

/// A dropped view is gone, and every other view is as it was; that there is no such view is an error
/// unless the request allows for it.
pub proof fn dropped_view_is_gone(e: EngineV, name: Seq<char>, if_exists: bool)
    ensures
        ({
            let r = view_dropped(e, name, if_exists);
            let key = unicode_lowercase(name);
            let view = e.views.contains_key(key);
            &&& !e.open ==> r == Err::<EngineV, ErrorV>(ErrorV::EngineNotOpen)
            &&& e.open && !view && !if_exists ==> r == Err::<EngineV, ErrorV>(
                ErrorV::ViewNotFound(name),
            )
            &&& e.open && (view || if_exists) ==> r is Ok
            &&& r matches Ok(after) ==> {
                &&& after == (EngineV { views: after.views, ..e })
                &&& !after.views.contains_key(key)
                &&& forall|k: Seq<char>|
                    k != key ==> (#[trigger] after.views.contains_key(k)
                        <==> e.views.contains_key(k)) && after.views[k] == e.views[k]
            }
        }),
{
}

/// Every foreign key that references a table is found when that table's references are asked for,
/// with the name of the table that has it; and none is found that references another.
pub proof fn references_are_found(tables: Seq<(Seq<char>, SchemaV)>, parent: Seq<char>)
    ensures
        forall|t: int, i: int|
            0 <= t < tables.len() && 0 <= i < tables[t].1.foreign_keys.len() && (
            #[trigger] tables[t].1.foreign_keys[i]).referenced_table == parent ==> references_to(
                tables,
                parent,
            ).contains((tables[t].1.table_name_lower, tables[t].1.foreign_keys[i])),
        forall|j: int|
            #![trigger references_to(tables, parent)[j]]
            0 <= j < references_to(tables, parent).len() ==> references_to(
                tables,
                parent,
            )[j].1.referenced_table == parent && exists|t: int|
                0 <= t < tables.len() && (#[trigger] tables[t]).1.table_name_lower
                    == references_to(tables, parent)[j].0 && tables[t].1.foreign_keys.contains(
                    references_to(tables, parent)[j].1,
                ),
    decreases tables.len(),
{
    if tables.len() > 0 {
        let before = tables.drop_last();
        let n = tables.len() - 1;
        let s = tables[n].1;
        let all = references_to(tables, parent);
        let earlier = references_to(before, parent);
        let own = references_of(s, parent);
        references_are_found(before, parent);
        lemma_references_of(s, parent);
        assert(all == earlier + own);
        assert forall|t: int, i: int|
            0 <= t < tables.len() && 0 <= i < tables[t].1.foreign_keys.len() && (
            #[trigger] tables[t].1.foreign_keys[i]).referenced_table == parent implies all.contains(
            (tables[t].1.table_name_lower, tables[t].1.foreign_keys[i]),
        ) by {
            let wanted = (tables[t].1.table_name_lower, tables[t].1.foreign_keys[i]);
            if t < n {
                assert(before[t] == tables[t]);
                assert(before[t].1.foreign_keys[i].referenced_table == parent);
                assert(earlier.contains(wanted));
                let j = choose|j: int| 0 <= j < earlier.len() && earlier[j] == wanted;
                assert(all[j] == wanted);
            } else {
                assert(s.foreign_keys[i].referenced_table == parent);
                assert(own.contains(wanted));
                let j = choose|j: int| 0 <= j < own.len() && own[j] == wanted;
                assert(all[earlier.len() + j] == wanted);
            }
        }
        assert forall|j: int|
            #![trigger all[j]]
            0 <= j < all.len() implies all[j].1.referenced_table == parent && exists|t: int|
            0 <= t < tables.len() && (#[trigger] tables[t]).1.table_name_lower == all[j].0
                && tables[t].1.foreign_keys.contains(all[j].1) by {
            if j < earlier.len() {
                assert(all[j] == earlier[j]);
                let t = choose|t: int|
                    0 <= t < before.len() && (#[trigger] before[t]).1.table_name_lower
                        == earlier[j].0 && before[t].1.foreign_keys.contains(earlier[j].1);
                assert(tables[t] == before[t]);
            } else {
                assert(all[j] == own[j - earlier.len()]);
                assert(tables[n].1.table_name_lower == all[j].0);
            }
        }
    }
}

proof fn lemma_references_of(s: SchemaV, parent: Seq<char>)
    ensures
        forall|i: int|
            0 <= i < s.foreign_keys.len() && (#[trigger] s.foreign_keys[i]).referenced_table
                == parent ==> references_of(s, parent).contains(
                (s.table_name_lower, s.foreign_keys[i]),
            ),
        forall|j: int|
            #![trigger references_of(s, parent)[j]]
            0 <= j < references_of(s, parent).len() ==> references_of(s, parent)[j].0
                == s.table_name_lower && references_of(s, parent)[j].1.referenced_table == parent
                && s.foreign_keys.contains(references_of(s, parent)[j].1),
{
    let keep = |k: ForeignKeyV| k.referenced_table == parent;
    let same = |k: ForeignKeyV| k;
    let kept = s.foreign_keys.filter(keep);
    let own = references_of(s, parent);
    lemma_filter_selects(s.foreign_keys, keep);
    lemma_selection_contains(s.foreign_keys, keep, same, kept);
    assert forall|i: int|
        0 <= i < s.foreign_keys.len() && (#[trigger] s.foreign_keys[i]).referenced_table
            == parent implies own.contains((s.table_name_lower, s.foreign_keys[i])) by {
        assert(keep(s.foreign_keys[i]));
        assert(kept.contains(same(s.foreign_keys[i])));
        let j = choose|j: int| 0 <= j < kept.len() && kept[j] == s.foreign_keys[i];
        assert(own[j] == (s.table_name_lower, s.foreign_keys[i]));
    }
    assert forall|j: int|
        #![trigger own[j]]
        0 <= j < own.len() implies own[j].0 == s.table_name_lower && own[j].1.referenced_table
        == parent && s.foreign_keys.contains(own[j].1) by {
        assert(own[j] == (s.table_name_lower, kept[j]));
        assert(comes_from(s.foreign_keys, keep, same, kept[j]));
        let k = choose|k: int|
            0 <= k < s.foreign_keys.len() && keep(#[trigger] s.foreign_keys[k]) && same(
                s.foreign_keys[k],
            ) == kept[j];
        assert(s.foreign_keys[k] == kept[j]);
    }
}

/// A recorded change does to the catalog what the request of its kind does, with the arguments that
/// it records.
pub proof fn changes_do_as_requests(
    e: EngineV,
    table: Seq<char>,
    column: Seq<char>,
    new_name: Seq<char>,
    data_type: DataType,
    nullable: bool,
    default_expr: Option<Seq<char>>,
    dimensions: u16,
    cluster: Seq<nat>,
)
    ensures
        alter_applied(
            e,
            (AlterV::AddColumn {
                table,
                column,
                data_type,
                nullable,
                default_expr,
                vector_dimensions: dimensions as nat,
            }),
        ) == column_added(e, table, column, data_type, nullable, default_expr, dimensions as nat),
        alter_applied(e, (AlterV::DropColumn { table, column })) == column_dropped(
            e,
            table,
            column,
        ),
        alter_applied(e, (AlterV::RenameColumn { table, old_name: column, new_name }))
            == column_renamed(e, table, column, new_name),
        alter_applied(
            e,
            (AlterV::ModifyColumn {
                table,
                column,
                data_type,
                nullable,
                vector_dimensions: dimensions as nat,
            }),
        ) == column_modified(e, table, column, data_type, nullable, Some(dimensions)),
        alter_applied(e, (AlterV::RenameTable { table, new_name })) == table_renamed(
            e,
            table,
            new_name,
        ),
        alter_applied(e, (AlterV::ClusterBy { table, key: cluster })) == key_set(e, table, cluster),
{
}

/// After a table is dropped, every foreign key of another table that references a third is still
/// there, and two of them stand in the order in which they stood.
pub proof fn other_references_outlive_a_drop(e: EngineV, name: Seq<char>, k: Seq<char>)
    requires
        table_dropped(e, name) is Ok,
        e.tables.contains_key(k),
        k != unicode_lowercase(name),
    ensures
        ({
            let before = e.tables[k].foreign_keys;
            let after = (table_dropped(e, name)->Ok_0).tables[k].foreign_keys;
            &&& (table_dropped(e, name)->Ok_0).tables.contains_key(k)
            &&& forall|i: int|
                0 <= i < before.len() && (#[trigger] before[i]).referenced_table
                    != unicode_lowercase(name) ==> after.contains(before[i])
            &&& forall|i: int, j: int|
                0 <= i < j < before.len() && (#[trigger] before[i]).referenced_table
                    != unicode_lowercase(name) && (#[trigger] before[j]).referenced_table
                    != unicode_lowercase(name) ==> stand_in_order(after, before[i], before[j])
        }),
{
    let key = unicode_lowercase(name);
    let before = e.tables[k].foreign_keys;
    let keep = |f: ForeignKeyV| f.referenced_table != key;
    let same = |f: ForeignKeyV| f;
    let left = keys_not_to(before, key);
    lemma_keys_not_to(before, key);
    assert forall|i: int, j: int|
        0 <= i < j < before.len() && (#[trigger] before[i]).referenced_table != key && (
        #[trigger] before[j]).referenced_table != key implies stand_in_order(
        left,
        before[i],
        before[j],
    ) by {
        let at = choose|at: Seq<int>| #[trigger]
            selects(before, keep, at) && left.len() == at.len() && forall|m: int|
                0 <= m < left.len() ==> #[trigger] left[m] == same(before[at[m]]);
        assert(keep(before[i]) && keep(before[j]));
        let a = choose|a: int| 0 <= a < at.len() && at[a] == i;
        let b = choose|b: int| 0 <= b < at.len() && at[b] == j;
        assert(at.contains(i) && at.contains(j));
        if b < a {
            assert(at[b] < at[a]);
        }
        assert(a < b);
        assert(left[a] == before[i] && left[b] == before[j]);
    }
}

/// Whether one foreign key stands before another in a list.
pub open spec fn stand_in_order(keys: Seq<ForeignKeyV>, f: ForeignKeyV, g: ForeignKeyV) -> bool {
    exists|a: int, b: int|
        0 <= a < b < keys.len() && #[trigger] keys[a] == f && #[trigger] keys[b] == g
}

/// A table that was moved to another name and is moved back is where it was, and so is every other.
pub proof fn moved_table_is_moved_back(e: EngineV, a: Seq<char>, b: Seq<char>)
    requires
        table_moved(e, a, b) is Ok,
    ensures
        ({
            let back = move_reverted(table_moved(e, a, b)->Ok_0, a, b);
            let key = unicode_lowercase(a);
            &&& back.epoch == e.epoch
            &&& !back.tables.contains_key(unicode_lowercase(b))
            &&& back.tables.contains_key(key)
            &&& back.tables[key].columns == e.tables[key].columns
            &&& back.tables[key].foreign_keys == e.tables[key].foreign_keys
            &&& back.tables[key].cluster_key == e.tables[key].cluster_key
            &&& forall|k: Seq<char>|
                k != key && k != unicode_lowercase(b) ==> (#[trigger] back.tables.contains_key(k)
                    <==> e.tables.contains_key(k)) && back.tables[k] == e.tables[k]
        }),
{
}

} // verus!
