//! What the mathematical form of a value says of its fields.

use crate::alter_table::{AlterTable, AlterV};
use crate::batch::{PlannedVolume, deferred_flags, rewrite_flags};
use crate::catalog_log::{CatalogRecord, record_views};
use crate::commit::CommitRun;
use crate::ddl_file::{definition_views, entry_views};
use crate::defaults::{DefaultLiteral, LiteralV};
use crate::engine::{EngineError, EngineV, ErrorV, reference_views, took_effect, view_found};
use crate::live_rows::volume_views;
use crate::names::name_views;
use crate::recovery::{ActionV, WalAction};
use crate::rows::{ColumnValue, ValueV, value_views};
use crate::schema::{
    ForeignKeyConstraint, Schema, SchemaColumn, column_views, foreign_key_views, position_views,
};
use crate::snapshot_reader::row_views;
use crate::stats::{MemoryStat, VolumeStat};
use crate::view_def::ViewDefinition;
use vstd::prelude::*;
use vstd::string::*;

verus! {

/// A column's form has each of its fields.
pub proof fn column_form_has_its_fields(c: SchemaColumn)
    ensures
        c@.id == c.id,
        c@.name == c.name@,
        c@.name_lower == c.name_lower@,
        c@.data_type == c.data_type,
        c@.nullable == c.nullable,
        c@.primary_key == c.primary_key,
        c@.auto_increment == c.auto_increment,
        c@.vector_dimensions == c.vector_dimensions,
        c.default_expr is Some <==> c@.default_expr is Some,
        c.default_expr is Some ==> c@.default_expr->Some_0 == (c.default_expr->Some_0)@,
        c.check_expr is Some <==> c@.check_expr is Some,
        c.check_expr is Some ==> c@.check_expr->Some_0 == (c.check_expr->Some_0)@,
        c.default_value is Some <==> c@.default_value is Some,
        c.default_value is Some ==> c@.default_value->Some_0 == (c.default_value->Some_0)@,
{
}

/// A foreign key's form has each of its fields.
pub proof fn foreign_key_form_has_its_fields(f: ForeignKeyConstraint)
    ensures
        f@.column_index == f.column_index,
        f@.column_name == f.column_name@,
        f@.referenced_table == f.referenced_table@,
        f@.referenced_column == f.referenced_column@,
        f@.on_delete == f.on_delete,
        f@.on_update == f.on_update,
{
}

/// A schema's form has each of its fields, and each item of its lists in its place.
pub proof fn schema_form_has_its_fields(s: Schema)
    ensures
        s@.table_name == s.table_name@,
        s@.table_name_lower == s.table_name_lower@,
        s@.created_at == s.created_at,
        s@.updated_at == s.updated_at,
        s@.columns.len() == s.columns@.len(),
        forall|i: int| 0 <= i < s.columns@.len() ==> #[trigger] s@.columns[i] == s.columns@[i]@,
        s@.foreign_keys.len() == s.foreign_keys@.len(),
        forall|i: int|
            0 <= i < s.foreign_keys@.len() ==> #[trigger] s@.foreign_keys[i] == s.foreign_keys@[i]@,
        s@.cluster_key.len() == s.cluster_key@.len(),
        forall|i: int|
            0 <= i < s.cluster_key@.len() ==> #[trigger] s@.cluster_key[i] == s.cluster_key@[i],
{
}

/// The forms of lists have the form of each item in its place.
pub proof fn lists_keep_their_items(
    columns: Seq<SchemaColumn>,
    keys: Seq<ForeignKeyConstraint>,
    positions: Seq<usize>,
    names: Seq<String>,
    values: Seq<ColumnValue>,
    rows: Seq<(i64, Vec<u8>)>,
    entries: Seq<Vec<u8>>,
    views: Seq<ViewDefinition>,
    records: Seq<CatalogRecord>,
    references: Seq<(String, ForeignKeyConstraint)>,
    i: int,
)
    ensures
        column_views(columns).len() == columns.len(),
        0 <= i < columns.len() ==> column_views(columns)[i] == columns[i]@,
        foreign_key_views(keys).len() == keys.len(),
        0 <= i < keys.len() ==> foreign_key_views(keys)[i] == keys[i]@,
        position_views(positions).len() == positions.len(),
        0 <= i < positions.len() ==> position_views(positions)[i] == positions[i],
        name_views(names).len() == names.len(),
        0 <= i < names.len() ==> name_views(names)[i] == names[i]@,
        value_views(values).len() == values.len(),
        0 <= i < values.len() ==> value_views(values)[i] == values[i]@,
        row_views(rows).len() == rows.len(),
        0 <= i < rows.len() ==> row_views(rows)[i] == (rows[i].0, rows[i].1@),
        entry_views(entries).len() == entries.len(),
        0 <= i < entries.len() ==> entry_views(entries)[i] == entries[i]@,
        definition_views(views).len() == views.len(),
        0 <= i < views.len() ==> definition_views(views)[i] == views[i]@,
        record_views(records).len() == records.len(),
        0 <= i < records.len() ==> record_views(records)[i] == records[i]@,
        reference_views(references).len() == references.len(),
        0 <= i < references.len() ==> reference_views(references)[i] == (
            references[i].0@,
            references[i].1@,
        ),
{
}

/// The forms of a plan and of volumes have the flags and the rows of each volume in its place.
pub proof fn plans_keep_their_volumes(planned: Seq<PlannedVolume>, volumes: Seq<&[i64]>, i: int)
    ensures
        rewrite_flags(planned).len() == planned.len(),
        0 <= i < planned.len() ==> rewrite_flags(planned)[i] == planned[i].2,
        deferred_flags(planned).len() == planned.len(),
        0 <= i < planned.len() ==> deferred_flags(planned)[i] == planned[i].3,
        volume_views(volumes).len() == volumes.len(),
        0 <= i < volumes.len() ==> volume_views(volumes)[i] == volumes[i]@,
{
}

/// The forms of values, literals, records, views, commits and figures have their fields.
pub proof fn forms_have_their_fields(
    v: ColumnValue,
    l: DefaultLiteral,
    r: CatalogRecord,
    d: ViewDefinition,
    c: CommitRun,
    s: VolumeStat,
    m: MemoryStat,
)
    ensures
        match v {
            ColumnValue::Null(t) => v@ == ValueV::Null(t),
            ColumnValue::Encoded(b) => v@ == ValueV::Encoded(b@),
        },
        match l {
            DefaultLiteral::Null(t) => l@ == LiteralV::Null(t),
            DefaultLiteral::Boolean(b) => l@ == LiteralV::Boolean(b),
            DefaultLiteral::Text(x, t) => l@ == LiteralV::Text(x@, t),
            DefaultLiteral::Integer(n, t) => l@ == LiteralV::Integer(n, t),
            DefaultLiteral::Other => l@ == LiteralV::Other,
        },
        r@.operation == r.operation,
        r@.table_name == r.table_name@,
        r@.data == r.data@,
        d@.name == d.name@,
        d@.original_name == d.original_name@,
        d@.query == d.query@,
        c@.phase == c.phase,
        c@.record == c.record,
        c@.tables == c.tables,
        c@.managers == c.managers@,
        c@.committed == c.committed,
        c@.failed == c.failed,
        s@.table_name == s.table_name@,
        s@.segment == s.segment,
        s@.tombstones == s.tombstones,
        m@.table_name == m.table_name@,
        m@.hot_rows == m.hot_rows,
        m@.hot_bytes == m.hot_bytes,
        m@.arena_slots == m.arena_slots,
        m@.arena_capacity_bytes == m.arena_capacity_bytes,
        m@.chain_entries == m.chain_entries,
        m@.volume_bytes == m.volume_bytes,
        m@.admission_waits == m.admission_waits,
{
}

/// What is left to do for a record has, in its form, the names and marks that it has.
pub proof fn action_form_has_its_fields(a: WalAction)
    ensures
        match a {
            WalAction::Nothing => a@ == ActionV::Nothing,
            WalAction::OpenTable { table } => a@ == (ActionV::OpenTable { table: table@ }),
            WalAction::CloseTable { table } => a@ == (ActionV::CloseTable { table: table@ }),
            WalAction::CreateIndex { table, identity } => a@ == (ActionV::CreateIndex {
                table: table@,
                identity,
            }),
            WalAction::DropIndex { table, index } => a@ == (ActionV::DropIndex {
                table: table@,
                index: index@,
            }),
            WalAction::ApplyRow { table } => a@ == (ActionV::ApplyRow { table: table@ }),
            WalAction::DeleteRow { table, in_memory, tombstone } => a@ == (ActionV::DeleteRow {
                table: table@,
                in_memory,
                tombstone,
            }),
            WalAction::RecoverCommit { sequence } => a@ == (ActionV::RecoverCommit { sequence }),
            WalAction::Truncate { table, in_memory } => a@ == (ActionV::Truncate {
                table: table@,
                in_memory,
            }),
        },
{
}

/// A change to a table has, in its form, what was asked for.
pub proof fn change_form_has_its_fields(a: AlterTable)
    ensures
        match a {
            AlterTable::DropColumn { table, column } => a@ == (AlterV::DropColumn {
                table: table@,
                column: column@,
            }),
            AlterTable::RenameColumn { table, old_name, new_name } => a@ == (AlterV::RenameColumn {
                table: table@,
                old_name: old_name@,
                new_name: new_name@,
            }),
            AlterTable::RenameTable { table, new_name } => a@ == (AlterV::RenameTable {
                table: table@,
                new_name: new_name@,
            }),
            AlterTable::AddColumn {
                table,
                column,
                data_type,
                nullable,
                default_expr,
                vector_dimensions,
            } => a@ matches AlterV::AddColumn {
                table: t,
                column: c,
                data_type: d,
                nullable: n,
                default_expr: x,
                vector_dimensions: v,
            } && t == table@ && c == column@ && d == data_type && n == nullable && v
                == vector_dimensions && (default_expr is Some <==> x is Some) && (
            default_expr is Some ==> x->Some_0 == (default_expr->Some_0)@),
            AlterTable::ModifyColumn { table, column, data_type, nullable, vector_dimensions } => a@
                matches AlterV::ModifyColumn {
                table: t,
                column: c,
                data_type: d,
                nullable: n,
                vector_dimensions: v,
            } && t == table@ && c == column@ && d == data_type && n == nullable && v
                == vector_dimensions,
            AlterTable::ClusterBy { table, key } => a@ matches AlterV::ClusterBy {
                table: t,
                key: k,
            } && t == table@ && k == position_views(key@),
        },
{
}

/// A request that is refused changes nothing, and says why; one that is granted leaves the engine as
/// it should be.
pub proof fn refused_request_changes_nothing<T>(
    before: EngineV,
    after: EngineV,
    outcome: Result<EngineV, ErrorV>,
    r: Result<T, EngineError>,
)
    requires
        took_effect(before, after, outcome, r),
    ensures
        r is Err ==> after == before && outcome is Err && outcome->Err_0 == (r->Err_0)@,
        r is Ok ==> outcome is Ok && outcome->Ok_0 == after,
        r is Ok <==> outcome is Ok,
{
}

/// A view that is asked for is given where an open engine has it, and is then the one that it has.
pub proof fn asked_view_is_given(
    e: EngineV,
    key: Seq<char>,
    r: Result<Option<ViewDefinition>, EngineError>,
)
    requires
        view_found(e, key, r),
    ensures
        !e.open <==> r is Err,
        e.open && e.views.contains_key(key) ==> r is Ok && r->Ok_0 is Some && (r->Ok_0->Some_0)@
            == e.views[key],
        e.open && !e.views.contains_key(key) ==> r is Ok && r->Ok_0 is None,
{
}

} // verus!
