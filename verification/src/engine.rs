//! The engine's catalog: tables, views, and the epoch by which caches know that they are stale.

use crate::alter_table::{AlterError, AlterTable, AlterV, decode_alter_table, read_alter};
use crate::hot_limits::{HotLimits, new_limits, with_limits};
use crate::name_map::{NameMap, distinct_names, lemma_map_of_entry, map_of};
use crate::schema::{
    ColumnV, DataType, ForeignKeyConstraint, ForeignKeyV, Schema, SchemaColumn, SchemaV,
    column_views, position_views, text_view,
};
use crate::schema_change::{
    column_called, keys_not_to, modified_column, renamed_column, with_column, with_column_at,
    without_column,
};
use crate::schema_codec::serialize_schema;
use crate::schema_format::log_schema_bytes;
use crate::text::{
    ascii_lower, lemma_text_le_reflexive, lemma_text_le_total, lemma_text_le_transitive, lowercase,
    owned_text, text_le, text_not_after, text_of, to_lowercase_cow, unicode_lowercase,
};
use crate::view_def::{ViewDefinition, ViewV, view_of};
use vstd::prelude::*;
use vstd::string::*;
use vstd::utf8::is_ascii_chars;

verus! {

/// Why the engine refuses a request.
#[derive(Debug)]
pub enum EngineError {
    EngineNotOpen,
    TableNotFound(String),
    TableAlreadyExists(String),
    DuplicateColumn,
    ColumnNotFound(String),
    CannotDropPrimaryKey,
    ViewAlreadyExists(String),
    ViewNotFound(String),
    /// A table has the name that the view was to have.
    ViewNameIsTable(String),
    MissingTableName,
    EmptyColumnName,
    /// The column is in the primary key and has another type than INTEGER.
    PrimaryKeyNotInteger(String),
    ClusterKeyPastEnd,
    PathChanged,
    Alter(AlterError),
}

/// Why the engine refuses a request, with names as sequences.
pub enum ErrorV {
    EngineNotOpen,
    TableNotFound(Seq<char>),
    TableAlreadyExists(Seq<char>),
    DuplicateColumn,
    ColumnNotFound(Seq<char>),
    CannotDropPrimaryKey,
    ViewAlreadyExists(Seq<char>),
    ViewNotFound(Seq<char>),
    ViewNameIsTable(Seq<char>),
    MissingTableName,
    EmptyColumnName,
    PrimaryKeyNotInteger(Seq<char>),
    ClusterKeyPastEnd,
    PathChanged,
    Alter(AlterError),
}

impl View for EngineError {
    type V = ErrorV;

    open spec fn view(&self) -> ErrorV {
        match *self {
            EngineError::EngineNotOpen => ErrorV::EngineNotOpen,
            EngineError::TableNotFound(n) => ErrorV::TableNotFound(n@),
            EngineError::TableAlreadyExists(n) => ErrorV::TableAlreadyExists(n@),
            EngineError::DuplicateColumn => ErrorV::DuplicateColumn,
            EngineError::ColumnNotFound(n) => ErrorV::ColumnNotFound(n@),
            EngineError::CannotDropPrimaryKey => ErrorV::CannotDropPrimaryKey,
            EngineError::ViewAlreadyExists(n) => ErrorV::ViewAlreadyExists(n@),
            EngineError::ViewNotFound(n) => ErrorV::ViewNotFound(n@),
            EngineError::ViewNameIsTable(n) => ErrorV::ViewNameIsTable(n@),
            EngineError::MissingTableName => ErrorV::MissingTableName,
            EngineError::EmptyColumnName => ErrorV::EmptyColumnName,
            EngineError::PrimaryKeyNotInteger(n) => ErrorV::PrimaryKeyNotInteger(n@),
            EngineError::ClusterKeyPastEnd => ErrorV::ClusterKeyPastEnd,
            EngineError::PathChanged => ErrorV::PathChanged,
            EngineError::Alter(e) => ErrorV::Alter(e),
        }
    }
}

/// The part of the configuration that the engine's rules look at.
#[derive(Debug)]
pub struct Config {
    /// Where the database is; none for one in memory.
    pub path: Option<String>,
    /// The rows that a table may keep in memory; 0 for no limit.
    pub hot_max_rows: usize,
    /// The bytes that a table may keep in memory; 0 for no limit.
    pub hot_max_bytes: usize,
}

impl Config {
    /// A database in memory, without limits.
    pub fn in_memory() -> (c: Config)
        ensures
            c.path is None,
            c.hot_max_rows == 0,
            c.hot_max_bytes == 0,
    {
        Config { path: None, hot_max_rows: 0, hot_max_bytes: 0 }
    }

    /// A database at a path, without limits.
    pub fn with_path(path: &str) -> (c: Config)
        ensures
            text_view(c.path) == Some(path@),
            c.hot_max_rows == 0,
            c.hot_max_bytes == 0,
    {
        Config { path: Some(path.to_owned()), hot_max_rows: 0, hot_max_bytes: 0 }
    }
}

/// The isolation levels of transactions.
#[derive(Debug, Clone, Copy, PartialEq, Eq, Structural)]
pub enum IsolationLevel {
    ReadCommitted,
    SnapshotIsolation,
}

/// What the engine knows.
pub struct EngineV {
    pub path: Seq<char>,
    /// The configured path.
    pub config_path: Option<Seq<char>>,
    /// The configured limits on rows and on bytes.
    pub config_limits: (usize, usize),
    /// The limits on what tables keep in memory, and what commits have asked for.
    pub limits: HotLimits,
    pub open: bool,
    /// Whether the engine replays its log, and so writes nothing to it.
    pub loading: bool,
    /// Moves with every change to a table's schema.
    pub epoch: u64,
    pub stats_epoch: u64,
    pub level: IsolationLevel,
    /// The tables under their names in lower case.
    pub tables: Map<Seq<char>, SchemaV>,
    /// The views under their names in lower case.
    pub views: Map<Seq<char>, ViewV>,
    /// The time stamp of the snapshot that each table was loaded from.
    pub timestamps: Map<Seq<char>, Seq<char>>,
}

/// The number behind `e`; the last is followed by the first.
pub open spec fn next_epoch(e: u64) -> u64 {
    if e == u64::MAX {
        0
    } else {
        (e + 1) as u64
    }
}

/// The engine with other tables, one epoch later.
pub open spec fn with_tables(e: EngineV, tables: Map<Seq<char>, SchemaV>) -> EngineV {
    EngineV { tables, epoch: next_epoch(e.epoch), ..e }
}

/// The first fault of the columns: an empty name, a primary key of another type than INTEGER, or a
/// name that an earlier column has.
pub open spec fn column_fault(columns: Seq<ColumnV>) -> Option<ErrorV>
    decreases columns.len(),
{
    if columns.len() == 0 {
        None
    } else {
        let before = columns.drop_last();
        let c = columns.last();
        match column_fault(before) {
            Some(e) => Some(e),
            None => if c.name.len() == 0 {
                Some(ErrorV::EmptyColumnName)
            } else if c.primary_key && c.data_type != DataType::Integer {
                Some(ErrorV::PrimaryKeyNotInteger(c.name))
            } else if exists|i: int|
                0 <= i < before.len() && (#[trigger] before[i]).name_lower == c.name_lower {
                Some(ErrorV::DuplicateColumn)
            } else {
                None
            },
        }
    }
}

/// Whether every position of the clustering key is that of a column.
pub open spec fn key_in_range(key: Seq<nat>, columns: nat) -> bool {
    forall|i: int| 0 <= i < key.len() ==> #[trigger] key[i] < columns
}

/// The first fault of a schema.
pub open spec fn schema_fault(s: SchemaV) -> Option<ErrorV> {
    if s.table_name.len() == 0 {
        Some(ErrorV::MissingTableName)
    } else {
        match column_fault(s.columns) {
            Some(e) => Some(e),
            None => if key_in_range(s.cluster_key, s.columns.len()) {
                None
            } else {
                Some(ErrorV::ClusterKeyPastEnd)
            },
        }
    }
}

/// The engine after a table was created.
pub open spec fn table_created(e: EngineV, s: SchemaV) -> Result<EngineV, ErrorV> {
    if !e.open {
        Err(ErrorV::EngineNotOpen)
    } else {
        match schema_fault(s) {
            Some(fault) => Err(fault),
            None => if e.tables.contains_key(s.table_name_lower) {
                Err(ErrorV::TableAlreadyExists(s.table_name_lower))
            } else {
                Ok(with_tables(e, e.tables.insert(s.table_name_lower, s)))
            },
        }
    }
}

/// A schema without foreign keys to the table `parent`.
pub open spec fn without_references(s: SchemaV, parent: Seq<char>) -> SchemaV {
    SchemaV { foreign_keys: keys_not_to(s.foreign_keys, parent), ..s }
}

/// Tables without foreign keys to the table `parent`.
pub open spec fn stripped(tables: Map<Seq<char>, SchemaV>, parent: Seq<char>) -> Map<
    Seq<char>,
    SchemaV,
> {
    tables.map_values(|s: SchemaV| without_references(s, parent))
}

/// The engine after a table was dropped: no other table references it any more.
pub open spec fn table_dropped(e: EngineV, name: Seq<char>) -> Result<EngineV, ErrorV> {
    let key = unicode_lowercase(name);
    if !e.open {
        Err(ErrorV::EngineNotOpen)
    } else if !e.tables.contains_key(key) {
        Err(ErrorV::TableNotFound(key))
    } else {
        Ok(with_tables(e, stripped(e.tables.remove(key), key)))
    }
}

/// Tables of which one was moved to another name.
pub open spec fn with_moved(
    tables: Map<Seq<char>, SchemaV>,
    old_name: Seq<char>,
    new_name: Seq<char>,
) -> Map<Seq<char>, SchemaV> {
    let from = unicode_lowercase(old_name);
    let to = unicode_lowercase(new_name);
    tables.remove(from).insert(
        to,
        SchemaV { table_name: new_name, table_name_lower: to, ..tables[from] },
    )
}

/// The engine after a table was moved to another name, before that is seen by caches.
pub open spec fn table_moved(e: EngineV, old_name: Seq<char>, new_name: Seq<char>) -> Result<
    EngineV,
    ErrorV,
> {
    let from = unicode_lowercase(old_name);
    let to = unicode_lowercase(new_name);
    if !e.open {
        Err(ErrorV::EngineNotOpen)
    } else if !e.tables.contains_key(from) {
        Err(ErrorV::TableNotFound(from))
    } else if e.tables.contains_key(to) {
        Err(ErrorV::TableAlreadyExists(to))
    } else {
        Ok(EngineV { tables: with_moved(e.tables, old_name, new_name), ..e })
    }
}

/// The engine after a table was renamed.
pub open spec fn table_renamed(e: EngineV, old_name: Seq<char>, new_name: Seq<char>) -> Result<
    EngineV,
    ErrorV,
> {
    match table_moved(e, old_name, new_name) {
        Ok(after) => Ok(with_tables(e, after.tables)),
        Err(x) => Err(x),
    }
}

/// The engine after a table was moved back to the name that it is to keep.
pub open spec fn move_reverted(e: EngineV, old_name: Seq<char>, new_name: Seq<char>) -> EngineV {
    if e.tables.contains_key(unicode_lowercase(new_name)) {
        EngineV { tables: with_moved(e.tables, new_name, old_name), ..e }
    } else {
        e
    }
}

/// The schema of an open engine's table.
pub open spec fn table_for_change(e: EngineV, table: Seq<char>) -> Result<SchemaV, ErrorV> {
    let key = unicode_lowercase(table);
    if !e.open {
        Err(ErrorV::EngineNotOpen)
    } else if !e.tables.contains_key(key) {
        Err(ErrorV::TableNotFound(key))
    } else {
        Ok(e.tables[key])
    }
}

/// The engine with another schema for a table.
pub open spec fn with_schema(e: EngineV, table: Seq<char>, s: SchemaV) -> EngineV {
    with_tables(e, e.tables.insert(unicode_lowercase(table), s))
}

/// A new column at the end of `columns`.
pub open spec fn new_column(
    columns: Seq<ColumnV>,
    name: Seq<char>,
    data_type: DataType,
    nullable: bool,
    default_expr: Option<Seq<char>>,
    vector_dimensions: nat,
) -> ColumnV {
    ColumnV {
        id: columns.len(),
        name,
        name_lower: unicode_lowercase(name),
        data_type,
        nullable,
        primary_key: false,
        auto_increment: false,
        default_expr,
        default_value: None,
        check_expr: None,
        vector_dimensions,
    }
}

/// The engine after a column was added.
pub open spec fn column_added(
    e: EngineV,
    table: Seq<char>,
    column: Seq<char>,
    data_type: DataType,
    nullable: bool,
    default_expr: Option<Seq<char>>,
    vector_dimensions: nat,
) -> Result<EngineV, ErrorV> {
    match table_for_change(e, table) {
        Err(x) => Err(x),
        Ok(s) => if column_called(s.columns, column) is Some {
            Err(ErrorV::DuplicateColumn)
        } else {
            Ok(
                with_schema(
                    e,
                    table,
                    with_column(
                        s,
                        new_column(
                            s.columns,
                            column,
                            data_type,
                            nullable,
                            default_expr,
                            vector_dimensions,
                        ),
                    ),
                ),
            )
        },
    }
}

/// The engine after a column was dropped.
pub open spec fn column_dropped(e: EngineV, table: Seq<char>, column: Seq<char>) -> Result<
    EngineV,
    ErrorV,
> {
    match table_for_change(e, table) {
        Err(x) => Err(x),
        Ok(s) => match column_called(s.columns, column) {
            None => Err(ErrorV::ColumnNotFound(column)),
            Some(p) => if s.columns[p as int].primary_key {
                Err(ErrorV::CannotDropPrimaryKey)
            } else {
                Ok(with_schema(e, table, without_column(s, p)))
            },
        },
    }
}

/// The engine after a column was renamed.
pub open spec fn column_renamed(
    e: EngineV,
    table: Seq<char>,
    old_name: Seq<char>,
    new_name: Seq<char>,
) -> Result<EngineV, ErrorV> {
    match table_for_change(e, table) {
        Err(x) => Err(x),
        Ok(s) => match column_called(s.columns, old_name) {
            None => Err(ErrorV::ColumnNotFound(old_name)),
            Some(p) => if column_called(s.columns, new_name) is Some {
                Err(ErrorV::DuplicateColumn)
            } else {
                Ok(
                    with_schema(
                        e,
                        table,
                        with_column_at(s, p, renamed_column(s.columns[p as int], new_name)),
                    ),
                )
            },
        },
    }
}

/// The engine after a column was modified.
pub open spec fn column_modified(
    e: EngineV,
    table: Seq<char>,
    column: Seq<char>,
    data_type: DataType,
    nullable: bool,
    vector_dimensions: Option<u16>,
) -> Result<EngineV, ErrorV> {
    match table_for_change(e, table) {
        Err(x) => Err(x),
        Ok(s) => match column_called(s.columns, column) {
            None => Err(ErrorV::ColumnNotFound(column)),
            Some(p) => Ok(
                with_schema(
                    e,
                    table,
                    with_column_at(
                        s,
                        p,
                        modified_column(
                            s.columns[p as int],
                            data_type,
                            nullable,
                            vector_dimensions,
                        ),
                    ),
                ),
            ),
        },
    }
}

/// The engine after a table got another clustering key.
pub open spec fn key_set(e: EngineV, table: Seq<char>, key: Seq<nat>) -> Result<EngineV, ErrorV> {
    match table_for_change(e, table) {
        Err(x) => Err(x),
        Ok(s) => if key_in_range(key, s.columns.len()) {
            Ok(with_schema(e, table, SchemaV { cluster_key: key, ..s }))
        } else {
            Err(ErrorV::ClusterKeyPastEnd)
        },
    }
}

/// The engine after a change to a table was replayed.
pub open spec fn alter_applied(e: EngineV, a: AlterV) -> Result<EngineV, ErrorV> {
    match a {
        AlterV::AddColumn {
            table,
            column,
            data_type,
            nullable,
            default_expr,
            vector_dimensions,
        } => column_added(
            e,
            table,
            column,
            data_type,
            nullable,
            default_expr,
            vector_dimensions,
        ),
        AlterV::DropColumn { table, column } => column_dropped(e, table, column),
        AlterV::RenameColumn { table, old_name, new_name } => column_renamed(
            e,
            table,
            old_name,
            new_name,
        ),
        AlterV::ModifyColumn { table, column, data_type, nullable, vector_dimensions } =>
            column_modified(
            e,
            table,
            column,
            data_type,
            nullable,
            Some(vector_dimensions as u16),
        ),
        AlterV::RenameTable { table, new_name } => table_renamed(e, table, new_name),
        AlterV::ClusterBy { table, key } => key_set(e, table, key),
    }
}

/// The engine after a record of a change to a table was replayed.
pub open spec fn alter_replayed(e: EngineV, data: Seq<u8>) -> Result<EngineV, ErrorV> {
    match read_alter(data) {
        Err(x) => Err(ErrorV::Alter(x)),
        Ok(a) => alter_applied(e, a),
    }
}

/// The engine after a view was created.
pub open spec fn view_created(
    e: EngineV,
    name: Seq<char>,
    query: Seq<char>,
    if_not_exists: bool,
) -> Result<EngineV, ErrorV> {
    let key = unicode_lowercase(name);
    if !e.open {
        Err(ErrorV::EngineNotOpen)
    } else if e.tables.contains_key(key) {
        Err(ErrorV::ViewNameIsTable(name))
    } else if e.views.contains_key(key) {
        if if_not_exists {
            Ok(e)
        } else {
            Err(ErrorV::ViewAlreadyExists(name))
        }
    } else {
        Ok(EngineV { views: e.views.insert(key, view_of(name, query)), ..e })
    }
}

/// The engine after a view was dropped.
pub open spec fn view_dropped(e: EngineV, name: Seq<char>, if_exists: bool) -> Result<
    EngineV,
    ErrorV,
> {
    let key = unicode_lowercase(name);
    if !e.open {
        Err(ErrorV::EngineNotOpen)
    } else if e.views.contains_key(key) {
        Ok(EngineV { views: e.views.remove(key), ..e })
    } else if if_exists {
        Ok(e)
    } else {
        Err(ErrorV::ViewNotFound(name))
    }
}

/// Whether a request had the effect `outcome` on the engine: the engine is as it says, or the
/// request was refused for the reason it gives and changed nothing.
pub open spec fn took_effect<T>(
    before: EngineV,
    after: EngineV,
    outcome: Result<EngineV, ErrorV>,
    r: Result<T, EngineError>,
) -> bool {
    match r {
        Ok(_) => outcome == Ok::<EngineV, ErrorV>(after),
        Err(e) => outcome == Err::<EngineV, ErrorV>(e@) && after == before,
    }
}

/// The foreign keys of one table to the table `parent`, each with the table's name.
pub open spec fn references_of(s: SchemaV, parent: Seq<char>) -> Seq<(Seq<char>, ForeignKeyV)> {
    s.foreign_keys.filter(|k: ForeignKeyV| k.referenced_table == parent).map_values(
        |k: ForeignKeyV| (s.table_name_lower, k),
    )
}

/// The foreign keys of the listed tables to the table `parent`.
pub open spec fn references_to(tables: Seq<(Seq<char>, SchemaV)>, parent: Seq<char>) -> Seq<
    (Seq<char>, ForeignKeyV),
>
    decreases tables.len(),
{
    if tables.len() == 0 {
        Seq::empty()
    } else {
        references_to(tables.drop_last(), parent) + references_of(tables.last().1, parent)
    }
}

/// The storage engine's catalog.
pub struct MVCCEngine {
    path: String,
    config: Config,
    open: bool,
    loading_from_disk: bool,
    schema_epoch: u64,
    stats_epoch: u64,
    level: IsolationLevel,
    schemas: NameMap<Schema>,
    views: NameMap<ViewDefinition>,
    snapshot_timestamps: NameMap<String>,
    hot_limits: HotLimits,
}

impl View for MVCCEngine {
    type V = EngineV;

    closed spec fn view(&self) -> EngineV {
        EngineV {
            path: self.path@,
            config_path: text_view(self.config.path),
            config_limits: (self.config.hot_max_rows, self.config.hot_max_bytes),
            limits: self.hot_limits,
            open: self.open,
            loading: self.loading_from_disk,
            epoch: self.schema_epoch,
            stats_epoch: self.stats_epoch,
            level: self.level,
            tables: self.schemas@,
            views: self.views@,
            timestamps: self.snapshot_timestamps@,
        }
    }
}

fn same_path(a: &Option<String>, b: &Option<String>) -> (r: bool)
    ensures
        r == (text_view(*a) == text_view(*b)),
{
    match (a, b) {
        (Some(x), Some(y)) => *x == *y,
        (None, None) => true,
        _ => false,
    }
}

fn column_is_repeated(columns: &Vec<SchemaColumn>, i: usize) -> (r: bool)
    requires
        i < columns@.len(),
    ensures
        r == exists|k: int|
            0 <= k < i && (#[trigger] column_views(columns@).take(i as int)[k]).name_lower
                == columns@[i as int]@.name_lower,
{
    let ghost before = column_views(columns@).take(i as int);
    let mut k: usize = 0;
    while k < i
        invariant
            k <= i < columns@.len(),
            before == column_views(columns@).take(i as int),
            forall|j: int|
                0 <= j < k ==> (#[trigger] before[j]).name_lower != columns@[i as int]@.name_lower,
        decreases i - k,
    {
        assert(before[k as int] == columns@[k as int]@);
        if columns[k].name_lower == columns[i].name_lower {
            return true;
        }
        k = k + 1;
    }
    false
}

fn find_column_fault(columns: &Vec<SchemaColumn>) -> (r: Option<EngineError>)
    ensures
        match r {
            Some(e) => column_fault(column_views(columns@)) == Some(e@),
            None => column_fault(column_views(columns@)) is None,
        },
{
    let ghost views = column_views(columns@);
    let mut i: usize = 0;
    assert(views.take(0) =~= Seq::empty());
    while i < columns.len()
        invariant
            i <= columns@.len(),
            views == column_views(columns@),
            column_fault(views.take(i as int)) is None,
        decreases columns@.len() - i,
    {
        proof {
            let longer = views.take(i + 1);
            assert(longer.drop_last() =~= views.take(i as int));
            assert(longer.last() == columns@[i as int]@);
        }
        if columns[i].name.as_str().is_empty() {
            proof {
                lemma_fault_prefix(views, i + 1);
            }
            return Some(EngineError::EmptyColumnName);
        }
        if columns[i].primary_key && columns[i].data_type != DataType::Integer {
            proof {
                lemma_fault_prefix(views, i + 1);
            }
            return Some(EngineError::PrimaryKeyNotInteger(columns[i].name.as_str().to_owned()));
        }
        if column_is_repeated(columns, i) {
            proof {
                lemma_fault_prefix(views, i + 1);
            }
            return Some(EngineError::DuplicateColumn);
        }
        i = i + 1;
    }
    assert(views.take(i as int) =~= views);
    None
}

proof fn lemma_fault_prefix(columns: Seq<ColumnV>, n: int)
    requires
        0 <= n <= columns.len(),
        column_fault(columns.take(n)) is Some,
    ensures
        column_fault(columns) == column_fault(columns.take(n)),
    decreases columns.len(),
{
    if n == columns.len() {
        assert(columns.take(n) =~= columns);
    } else {
        assert(columns.drop_last().take(n) =~= columns.take(n));
        lemma_fault_prefix(columns.drop_last(), n);
    }
}

fn positions_in_range(key: &Vec<usize>, columns: usize) -> (r: bool)
    ensures
        r == key_in_range(position_views(key@), columns as nat),
{
    let mut i: usize = 0;
    while i < key.len()
        invariant
            i <= key@.len(),
            forall|k: int| 0 <= k < i ==> #[trigger] position_views(key@)[k] < columns,
        decreases key@.len() - i,
    {
        assert(position_views(key@)[i as int] == key@[i as int] as nat);
        if key[i] >= columns {
            return false;
        }
        i = i + 1;
    }
    true
}

/// The first fault of a schema.
fn find_schema_fault(schema: &Schema) -> (r: Option<EngineError>)
    ensures
        match r {
            Some(e) => schema_fault(schema@) == Some(e@),
            None => schema_fault(schema@) is None,
        },
{
    if schema.table_name.as_str().is_empty() {
        return Some(EngineError::MissingTableName);
    }
    match find_column_fault(&schema.columns) {
        Some(e) => Some(e),
        None => if positions_in_range(&schema.cluster_key, schema.columns.len()) {
            None
        } else {
            Some(EngineError::ClusterKeyPastEnd)
        },
    }
}

proof fn lemma_map_of_map_values(
    s: Seq<(Seq<char>, SchemaV)>,
    t: Seq<(Seq<char>, SchemaV)>,
    parent: Seq<char>,
)
    requires
        t.len() == s.len(),
        forall|i: int|
            0 <= i < s.len() ==> #[trigger] t[i] == (s[i].0, without_references(s[i].1, parent)),
    ensures
        map_of(t) == stripped(map_of(s), parent),
    decreases s.len(),
{
    let f = |x: SchemaV| without_references(x, parent);
    if s.len() == 0 {
        assert(map_of(t) =~= stripped(map_of(s), parent));
    } else {
        assert forall|i: int| 0 <= i < s.len() - 1 implies #[trigger] t.drop_last()[i] == (
            s.drop_last()[i].0,
            without_references(s.drop_last()[i].1, parent),
        ) by {
            assert(t[i] == (s[i].0, without_references(s[i].1, parent)));
        }
        lemma_map_of_map_values(s.drop_last(), t.drop_last(), parent);
        assert(t[t.len() - 1] == (s.last().0, without_references(s.last().1, parent)));
        assert(map_of(t) =~= stripped(map_of(s), parent));
    }
}

/// Takes the foreign keys to the table `parent` out of every table.
fn strip_fk_references(schemas: &mut NameMap<Schema>, parent: &str)
    requires
        old(schemas).wf(),
    ensures
        final(schemas).wf(),
        final(schemas)@ == stripped(old(schemas)@, parent@),
{
    let ghost start = schemas.listing();
    let mut i: usize = 0;
    while i < schemas.len()
        invariant
            schemas.wf(),
            start == old(schemas).listing(),
            schemas.listing().len() == start.len(),
            i <= start.len(),
            forall|k: int|
                0 <= k < start.len() ==> #[trigger] schemas.listing()[k] == if k < i {
                    (start[k].0, without_references(start[k].1, parent@))
                } else {
                    start[k]
                },
        decreases start.len() - i,
    {
        let mut schema = schemas.value_at(i).duplicate();
        schema.strip_references(parent);
        schemas.set_at(i, schema);
        i = i + 1;
    }
    proof {
        lemma_map_of_map_values(start, schemas.listing(), parent@);
    }
}

impl MVCCEngine {
    /// Whether no table, view or time stamp is listed twice.
    pub closed spec fn wf(&self) -> bool {
        &&& self.schemas.wf()
        &&& self.views.wf()
        &&& self.snapshot_timestamps.wf()
    }

    /// The tables in the order in which they are kept.
    pub closed spec fn table_list(&self) -> Seq<(Seq<char>, SchemaV)> {
        self.schemas.listing()
    }

    /// The views in the order in which they are kept.
    pub closed spec fn view_list(&self) -> Seq<(Seq<char>, ViewV)> {
        self.views.listing()
    }

    /// The lists hold the entries of the maps.
    pub proof fn lists_are_the_maps(&self)
        ensures
            map_of(self.table_list()) == self@.tables,
            map_of(self.view_list()) == self@.views,
            self.wf() ==> distinct_names(self.table_list()) && distinct_names(self.view_list()),
    {
    }

    /// A closed engine without tables and views.
    pub fn new(config: Config) -> (e: MVCCEngine)
        ensures
            e.wf(),
            !e@.open,
            !e@.loading,
            e@.epoch == 0,
            e@.stats_epoch == 0,
            e@.level == IsolationLevel::ReadCommitted,
            e@.tables == Map::<Seq<char>, SchemaV>::empty(),
            e@.views == Map::<Seq<char>, ViewV>::empty(),
            e@.timestamps == Map::<Seq<char>, Seq<char>>::empty(),
            e@.config_path == text_view(config.path),
            e@.path == match text_view(config.path) {
                Some(p) => if p.len() == 0 {
                    "memory://"@
                } else {
                    p
                },
                None => "memory://"@,
            },
            e@.config_limits == (config.hot_max_rows, config.hot_max_bytes),
            e@.limits == new_limits(config.hot_max_rows, config.hot_max_bytes),
    {
        let path = match &config.path {
            Some(p) => if p.as_str().is_empty() {
                "memory://".to_owned()
            } else {
                p.as_str().to_owned()
            },
            None => "memory://".to_owned(),
        };
        let hot_limits = HotLimits::new(config.hot_max_rows, config.hot_max_bytes);
        MVCCEngine {
            path,
            config,
            open: false,
            loading_from_disk: false,
            schema_epoch: 0,
            stats_epoch: 0,
            level: IsolationLevel::ReadCommitted,
            schemas: NameMap::new(),
            views: NameMap::new(),
            snapshot_timestamps: NameMap::new(),
            hot_limits,
        }
    }

    /// A closed engine in memory.
    pub fn in_memory() -> (e: MVCCEngine)
        ensures
            e.wf(),
            !e@.open,
            !e@.loading,
            e@.epoch == 0,
            e@.stats_epoch == 0,
            e@.level == IsolationLevel::ReadCommitted,
            e@.path == "memory://"@,
            e@.config_path is None,
            e@.limits == new_limits(0, 0),
            e@.timestamps == Map::<Seq<char>, Seq<char>>::empty(),
            e@.tables == Map::<Seq<char>, SchemaV>::empty(),
            e@.views == Map::<Seq<char>, ViewV>::empty(),
    {
        MVCCEngine::new(Config::in_memory())
    }

    /// Opens the engine; one that is open stays so.
    pub fn open_engine(&mut self) -> (r: Result<(), EngineError>)
        requires
            old(self).wf(),
        ensures
            final(self).wf(),
            r is Ok,
            final(self)@ == (EngineV { open: true, ..old(self)@ }),
    {
        self.open = true;
        Ok(())
    }

    /// Closes the engine; one that is closed stays so.
    pub fn close_engine(&mut self) -> (r: Result<(), EngineError>)
        requires
            old(self).wf(),
        ensures
            final(self).wf(),
            r is Ok,
            final(self)@ == (EngineV { open: false, ..old(self)@ }),
    {
        self.open = false;
        Ok(())
    }

    /// Whether the engine is open.
    pub fn is_open(&self) -> (r: bool)
        ensures
            r == self@.open,
    {
        self.open
    }

    /// Notes that the engine begins or ends to replay its log.
    pub fn set_loading(&mut self, loading: bool)
        requires
            old(self).wf(),
        ensures
            final(self).wf(),
            final(self)@ == (EngineV { loading, ..old(self)@ }),
    {
        self.loading_from_disk = loading;
    }

    /// Whether nothing is written to the log: while it is replayed.
    pub fn should_skip_wal(&self) -> (r: bool)
        ensures
            r == self@.loading,
    {
        self.loading_from_disk
    }

    /// Where the database is.
    pub fn get_path(&self) -> (p: &str)
        ensures
            p@ == self@.path,
    {
        self.path.as_str()
    }

    /// Where the database is; none for one in memory.
    pub fn path(&self) -> (r: Option<&str>)
        ensures
            match r {
                Some(p) => p@ == self@.path && self@.path != "memory://"@,
                None => self@.path == "memory://"@,
            },
    {
        if self.path == "memory://".to_owned() {
            None
        } else {
            Some(self.path.as_str())
        }
    }

    /// The configuration.
    pub fn config(&self) -> (c: &Config)
        ensures
            text_view(c.path) == self@.config_path,
            (c.hot_max_rows, c.hot_max_bytes) == self@.config_limits,
    {
        &self.config
    }

    /// The limits on what tables keep in memory.
    pub fn hot_limits(&self) -> (l: &HotLimits)
        ensures
            *l == self@.limits,
    {
        &self.hot_limits
    }

    /// Takes another configuration. The path cannot change.
    pub fn update_engine_config(&mut self, config: Config) -> (r: Result<(), EngineError>)
        requires
            old(self).wf(),
        ensures
            final(self).wf(),
            match r {
                Ok(_) => text_view(config.path) == old(self)@.config_path && final(self)@ == (
                EngineV {
                    config_limits: (config.hot_max_rows, config.hot_max_bytes),
                    limits: with_limits(
                        old(self)@.limits,
                        config.hot_max_rows,
                        config.hot_max_bytes,
                    ),
                    ..old(self)@
                }),
                Err(e) => text_view(config.path) != old(self)@.config_path && e@
                    == ErrorV::PathChanged && final(self)@ == old(self)@,
            },
    {
        if !same_path(&config.path, &self.config.path) {
            return Err(EngineError::PathChanged);
        }
        self.hot_limits.set(config.hot_max_rows, config.hot_max_bytes);
        self.config = config;
        Ok(())
    }

    /// Asks for a seal where a committed table is at a limit.
    pub fn request_seal_if_over(&mut self, any_table_at_limit: bool)
        requires
            old(self).wf(),
        ensures
            final(self).wf(),
            final(self)@ == (EngineV {
                limits: HotLimits {
                    seal_requested: old(self)@.limits.seal_requested || any_table_at_limit,
                    ..old(self)@.limits
                },
                ..old(self)@
            }),
    {
        self.hot_limits.request_seal_if_over(any_table_at_limit);
    }

    /// Notes that a commit begins to wait, and asks for the seal that it waits for.
    pub fn begin_wait(&mut self)
        requires
            old(self).wf(),
        ensures
            final(self).wf(),
            final(self)@ == (EngineV {
                limits: HotLimits {
                    seal_requested: true,
                    admission_waits: next_epoch(old(self)@.limits.admission_waits),
                    ..old(self)@.limits
                },
                ..old(self)@
            }),
    {
        self.hot_limits.begin_wait();
    }

    /// Whether a seal was asked for since the last time this was asked.
    pub fn take_seal_request(&mut self) -> (r: bool)
        requires
            old(self).wf(),
        ensures
            final(self).wf(),
            r == old(self)@.limits.seal_requested,
            final(self)@ == (EngineV {
                limits: HotLimits { seal_requested: false, ..old(self)@.limits },
                ..old(self)@
            }),
    {
        self.hot_limits.take_request()
    }

    /// The epoch of the schemas.
    pub fn schema_epoch(&self) -> (e: u64)
        ensures
            e == self@.epoch,
    {
        self.schema_epoch
    }

    /// The epoch of the statistics.
    pub fn stats_epoch(&self) -> (e: u64)
        ensures
            e == self@.stats_epoch,
    {
        self.stats_epoch
    }

    /// Moves the epoch of the statistics.
    pub fn bump_stats_epoch(&mut self)
        requires
            old(self).wf(),
        ensures
            final(self).wf(),
            final(self)@ == (EngineV {
                stats_epoch: next_epoch(old(self)@.stats_epoch),
                ..old(self)@
            }),
    {
        self.stats_epoch = self.stats_epoch.wrapping_add(1);
    }

    fn bump_epoch(&mut self)
        requires
            old(self).wf(),
        ensures
            final(self).wf(),
            final(self)@ == (EngineV { epoch: next_epoch(old(self)@.epoch), ..old(self)@ }),
    {
        self.schema_epoch = self.schema_epoch.wrapping_add(1);
    }

    /// Lets the epoch begin above every version that the volumes carry.
    pub fn raise_epoch(&mut self, persisted: u64)
        requires
            old(self).wf(),
            persisted < u64::MAX,
        ensures
            final(self).wf(),
            final(self)@ == (EngineV {
                epoch: if old(self)@.epoch > persisted {
                    old(self)@.epoch
                } else {
                    (persisted + 1) as u64
                },
                ..old(self)@
            }),
    {
        if self.schema_epoch <= persisted {
            self.schema_epoch = persisted + 1;
        }
    }

    /// The isolation level of new transactions.
    pub fn get_isolation_level(&self) -> (l: IsolationLevel)
        ensures
            l == self@.level,
    {
        self.level
    }

    /// Sets the isolation level of new transactions.
    pub fn set_isolation_level(&mut self, level: IsolationLevel) -> (r: Result<(), EngineError>)
        requires
            old(self).wf(),
        ensures
            final(self).wf(),
            took_effect(
                old(self)@,
                final(self)@,
                if old(self)@.open {
                    Ok(EngineV { level, ..old(self)@ })
                } else {
                    Err(ErrorV::EngineNotOpen)
                },
                r,
            ),
    {
        if !self.open {
            return Err(EngineError::EngineNotOpen);
        }
        self.level = level;
        Ok(())
    }

    /// Whether there is a table, whatever the case of the letters in its name.
    pub fn table_exists(&self, table_name: &str) -> (r: Result<bool, EngineError>)
        requires
            self.wf(),
        ensures
            match r {
                Ok(b) => self@.open && b == self@.tables.contains_key(unicode_lowercase(table_name@)),
                Err(e) => !self@.open && e@ == ErrorV::EngineNotOpen,
            },
            is_ascii_chars(table_name@) ==> unicode_lowercase(table_name@) == ascii_lower(table_name@),
    {
        let name = to_lowercase_cow(table_name);
        if !self.open {
            return Err(EngineError::EngineNotOpen);
        }
        Ok(self.schemas.contains(text_of(&name)))
    }

    pub(crate) fn put_table(&mut self, key: String, schema: Schema)
        requires
            old(self).wf(),
        ensures
            final(self).wf(),
            final(self)@ == (EngineV {
                tables: old(self)@.tables.insert(key@, schema@),
                ..old(self)@
            }),
    {
        self.schemas.insert(key, schema);
    }

    /// Whether a table is known under a name in lower case.
    pub(crate) fn has_table(&self, key: &str) -> (r: bool)
        requires
            self.wf(),
        ensures
            r == self@.tables.contains_key(key@),
    {
        self.schemas.contains(key)
    }

    /// The name under which the rows of a table are kept.
    pub fn get_version_store(&self, name: &str) -> (r: Result<String, EngineError>)
        requires
            self.wf(),
        ensures
            match r {
                Ok(key) => self@.open && key@ == unicode_lowercase(name@) && self@.tables.contains_key(
                    key@,
                ),
                Err(e) => if !self@.open {
                    e@ == ErrorV::EngineNotOpen
                } else {
                    !self@.tables.contains_key(unicode_lowercase(name@)) && e@ == ErrorV::TableNotFound(
                        unicode_lowercase(name@),
                    )
                },
            },
            is_ascii_chars(name@) ==> unicode_lowercase(name@) == ascii_lower(name@),
    {
        let key = to_lowercase_cow(name);
        if !self.open {
            return Err(EngineError::EngineNotOpen);
        }
        if self.schemas.contains(text_of(&key)) {
            Ok(owned_text(key))
        } else {
            Err(EngineError::TableNotFound(owned_text(key)))
        }
    }

    /// The schema of a table.
    pub fn get_table_schema(&self, table_name: &str) -> (r: Result<Schema, EngineError>)
        requires
            self.wf(),
        ensures
            ({
                let key = unicode_lowercase(table_name@);
                match r {
                    Ok(s) => self@.open && self@.tables.contains_key(key) && s@ == self@.tables[key],
                    Err(e) => if !self@.open {
                        e@ == ErrorV::EngineNotOpen
                    } else {
                        !self@.tables.contains_key(key) && e@ == ErrorV::TableNotFound(key)
                    },
                }
            }),
            is_ascii_chars(table_name@) ==> unicode_lowercase(table_name@) == ascii_lower(table_name@),
    {
        let name = to_lowercase_cow(table_name);
        if !self.open {
            return Err(EngineError::EngineNotOpen);
        }
        match self.schemas.get(text_of(&name)) {
            Some(s) => Ok(s.duplicate()),
            None => Err(EngineError::TableNotFound(owned_text(name))),
        }
    }

    /// The names of all tables, in lower case.
    pub fn get_all_table_names(&self) -> (r: Vec<String>)
        requires
            self.wf(),
        ensures
            r@.len() == self.table_list().len(),
            forall|i: int| 0 <= i < r@.len() ==> (#[trigger] r@[i])@ == self.table_list()[i].0,
    {
        self.schemas.names()
    }

    /// The schemas of all tables.
    pub fn get_all_schemas(&self) -> (r: Vec<Schema>)
        requires
            self.wf(),
        ensures
            r@.len() == self.table_list().len(),
            forall|i: int| 0 <= i < r@.len() ==> (#[trigger] r@[i])@ == self.table_list()[i].1,
    {
        let mut out: Vec<Schema> = Vec::new();
        let mut i: usize = 0;
        while i < self.schemas.len()
            invariant
                i <= self.table_list().len(),
                out@.len() == i,
                forall|k: int| 0 <= k < i ==> (#[trigger] out@[k])@ == self.table_list()[k].1,
            decreases self.table_list().len() - i,
        {
            out.push(self.schemas.value_at(i).duplicate());
            i = i + 1;
        }
        out
    }

    /// The foreign keys of all tables to the table `parent_table`, each with the name of its table.
    pub fn find_referencing_fks(&self, parent_table: &str) -> (r: Vec<(String, ForeignKeyConstraint)>)
        requires
            self.wf(),
        ensures
            reference_views(r@) == references_to(self.table_list(), parent_table@),
    {
        let ghost tables = self.table_list();
        let mut out: Vec<(String, ForeignKeyConstraint)> = Vec::new();
        let mut i: usize = 0;
        assert(tables.take(0) =~= Seq::empty());
        assert(reference_views(out@) =~= Seq::empty());
        while i < self.schemas.len()
            invariant
                i <= tables.len(),
                tables == self.table_list(),
                reference_views(out@) == references_to(tables.take(i as int), parent_table@),
            decreases tables.len() - i,
        {
            proof {
                assert(tables.take(i + 1).drop_last() =~= tables.take(i as int));
                assert(tables.take(i + 1).last() == tables[i as int]);
            }
            push_references(&mut out, self.schemas.value_at(i), parent_table);
            i = i + 1;
        }
        assert(tables.take(i as int) =~= tables);
        out
    }

    /// Checks a schema: the first fault, if there is one.
    pub fn validate_schema(&self, schema: &Schema) -> (r: Result<(), EngineError>)
        ensures
            match r {
                Ok(_) => schema_fault(schema@) is None,
                Err(e) => schema_fault(schema@) == Some(e@),
            },
    {
        match find_schema_fault(schema) {
            Some(e) => Err(e),
            None => Ok(()),
        }
    }

    /// Creates a table, and gives back its schema.
    pub fn create_table(&mut self, schema: Schema) -> (r: Result<Schema, EngineError>)
        requires
            old(self).wf(),
        ensures
            final(self).wf(),
            took_effect(old(self)@, final(self)@, table_created(old(self)@, schema@), r),
            r matches Ok(s) ==> s@ == schema@,
    {
        if !self.open {
            return Err(EngineError::EngineNotOpen);
        }
        match self.validate_schema(&schema) {
            Ok(_) => {},
            Err(e) => {
                return Err(e);
            },
        }
        let name = schema.table_name_lower.as_str().to_owned();
        if self.schemas.contains(name.as_str()) {
            return Err(EngineError::TableAlreadyExists(name));
        }
        let copy = schema.duplicate();
        self.schemas.insert(name, schema);
        self.bump_epoch();
        Ok(copy)
    }

    /// Drops a table, and the foreign keys of other tables to it.
    pub fn drop_table_internal(&mut self, name: &str) -> (r: Result<(), EngineError>)
        requires
            old(self).wf(),
        ensures
            final(self).wf(),
            took_effect(old(self)@, final(self)@, table_dropped(old(self)@, name@), r),
    {
        if !self.open {
            return Err(EngineError::EngineNotOpen);
        }
        let table_name = lowercase(name);
        if !self.schemas.contains(table_name.as_str()) {
            return Err(EngineError::TableNotFound(table_name));
        }
        self.schemas.remove(table_name.as_str());
        strip_fk_references(&mut self.schemas, table_name.as_str());
        self.bump_epoch();
        Ok(())
    }

    /// Moves a table to another name. Its files are to be moved next; the rename is finished, or
    /// taken back, after that.
    pub fn move_table(&mut self, old_name: &str, new_name: &str) -> (r: Result<(), EngineError>)
        requires
            old(self).wf(),
        ensures
            final(self).wf(),
            took_effect(old(self)@, final(self)@, table_moved(old(self)@, old_name@, new_name@), r),
    {
        if !self.open {
            return Err(EngineError::EngineNotOpen);
        }
        let from = lowercase(old_name);
        let to = lowercase(new_name);
        if !self.schemas.contains(from.as_str()) {
            return Err(EngineError::TableNotFound(from));
        }
        if self.schemas.contains(to.as_str()) {
            return Err(EngineError::TableAlreadyExists(to));
        }
        self.rename_schema(from.as_str(), to, new_name);
        Ok(())
    }

    pub(crate) fn rename_schema(&mut self, from: &str, to: String, name: &str)
        requires
            old(self).wf(),
            old(self)@.tables.contains_key(from@),
        ensures
            final(self).wf(),
            final(self)@ == (EngineV {
                tables: old(self)@.tables.remove(from@).insert(
                    to@,
                    SchemaV {
                        table_name: name@,
                        table_name_lower: to@,
                        ..old(self)@.tables[from@]
                    },
                ),
                ..old(self)@
            }),
    {
        match self.schemas.remove(from) {
            Some(schema) => {
                let mut schema = schema;
                schema.table_name = name.to_owned();
                schema.table_name_lower = to.as_str().to_owned();
                self.schemas.insert(to, schema);
            },
            None => {},
        }
    }

    /// Moves a table back whose files could not be moved.
    pub fn revert_move(&mut self, old_name: &str, new_name: &str)
        requires
            old(self).wf(),
        ensures
            final(self).wf(),
            final(self)@ == move_reverted(old(self)@, old_name@, new_name@),
    {
        let from = lowercase(old_name);
        let to = lowercase(new_name);
        if self.schemas.contains(to.as_str()) {
            self.rename_schema(to.as_str(), from, old_name);
        }
    }

    /// Renames a table that has no files to move.
    pub fn rename_table(&mut self, old_name: &str, new_name: &str) -> (r: Result<(), EngineError>)
        requires
            old(self).wf(),
        ensures
            final(self).wf(),
            took_effect(old(self)@, final(self)@, table_renamed(old(self)@, old_name@, new_name@), r),
    {
        match self.move_table(old_name, new_name) {
            Ok(_) => {
                self.bump_epoch();
                Ok(())
            },
            Err(e) => Err(e),
        }
    }

    fn schema_for_change(&self, table: &str) -> (r: Result<Schema, EngineError>)
        requires
            self.wf(),
        ensures
            match r {
                Ok(s) => table_for_change(self@, table@) == Ok::<SchemaV, ErrorV>(s@),
                Err(e) => table_for_change(self@, table@) == Err::<SchemaV, ErrorV>(e@),
            },
    {
        if !self.open {
            return Err(EngineError::EngineNotOpen);
        }
        let name = lowercase(table);
        match self.schemas.get(name.as_str()) {
            Some(s) => Ok(s.duplicate()),
            None => Err(EngineError::TableNotFound(name)),
        }
    }

    fn put_schema(&mut self, table: &str, schema: Schema)
        requires
            old(self).wf(),
        ensures
            final(self).wf(),
            final(self)@ == with_schema(old(self)@, table@, schema@),
    {
        self.schemas.insert(lowercase(table), schema);
        self.bump_epoch();
    }

    /// Takes over a schema that was changed elsewhere.
    pub fn refresh_schema_cache(&mut self, table_name: &str, schema: Schema) -> (r: Result<
        (),
        EngineError,
    >)
        requires
            old(self).wf(),
        ensures
            final(self).wf(),
            took_effect(
                old(self)@,
                final(self)@,
                match table_for_change(old(self)@, table_name@) {
                    Ok(_) => Ok(with_schema(old(self)@, table_name@, schema@)),
                    Err(e) => Err(e),
                },
                r,
            ),
    {
        match self.schema_for_change(table_name) {
            Err(e) => Err(e),
            Ok(_) => {
                self.put_schema(table_name, schema);
                Ok(())
            },
        }
    }

    /// Adds a column to a table.
    pub fn create_column(
        &mut self,
        table_name: &str,
        column_name: &str,
        data_type: DataType,
        nullable: bool,
    ) -> (r: Result<(), EngineError>)
        requires
            old(self).wf(),
        ensures
            final(self).wf(),
            took_effect(
                old(self)@,
                final(self)@,
                column_added(
                    old(self)@,
                    table_name@,
                    column_name@,
                    data_type,
                    nullable,
                    None,
                    0,
                ),
                r,
            ),
    {
        self.create_column_with_default(table_name, column_name, data_type, nullable, None, 0)
    }

    /// Adds a column with a default expression to a table.
    pub fn create_column_with_default(
        &mut self,
        table_name: &str,
        column_name: &str,
        data_type: DataType,
        nullable: bool,
        default_expr: Option<String>,
        vector_dimensions: u16,
    ) -> (r: Result<(), EngineError>)
        requires
            old(self).wf(),
        ensures
            final(self).wf(),
            took_effect(
                old(self)@,
                final(self)@,
                column_added(
                    old(self)@,
                    table_name@,
                    column_name@,
                    data_type,
                    nullable,
                    text_view(default_expr),
                    vector_dimensions as nat,
                ),
                r,
            ),
    {
        let mut schema = match self.schema_for_change(table_name) {
            Err(e) => {
                return Err(e);
            },
            Ok(s) => s,
        };
        if schema.has_column(column_name) {
            return Err(EngineError::DuplicateColumn);
        }
        let mut column = SchemaColumn::with_constraints(
            schema.columns.len(),
            column_name,
            data_type,
            nullable,
            false,
            false,
            default_expr,
            None,
        );
        column.vector_dimensions = vector_dimensions;
        schema.add_column(column);
        self.put_schema(table_name, schema);
        Ok(())
    }

    /// Drops a column of a table; one of the primary key stays.
    pub fn drop_column(&mut self, table_name: &str, column_name: &str) -> (r: Result<
        (),
        EngineError,
    >)
        requires
            old(self).wf(),
        ensures
            final(self).wf(),
            took_effect(
                old(self)@,
                final(self)@,
                column_dropped(old(self)@, table_name@, column_name@),
                r,
            ),
    {
        let mut schema = match self.schema_for_change(table_name) {
            Err(e) => {
                return Err(e);
            },
            Ok(s) => s,
        };
        let p: usize = match schema.get_column_index(column_name) {
            Some(p) => p,
            None => {
                return Err(EngineError::ColumnNotFound(column_name.to_owned()));
            },
        };
        if schema.columns[p].primary_key {
            return Err(EngineError::CannotDropPrimaryKey);
        }
        schema.remove_column(p);
        self.put_schema(table_name, schema);
        Ok(())
    }

    /// Renames a column of a table.
    pub fn rename_column(&mut self, table_name: &str, old_name: &str, new_name: &str) -> (r: Result<
        (),
        EngineError,
    >)
        requires
            old(self).wf(),
        ensures
            final(self).wf(),
            took_effect(
                old(self)@,
                final(self)@,
                column_renamed(old(self)@, table_name@, old_name@, new_name@),
                r,
            ),
    {
        let mut schema = match self.schema_for_change(table_name) {
            Err(e) => {
                return Err(e);
            },
            Ok(s) => s,
        };
        let p: usize = match schema.get_column_index(old_name) {
            Some(p) => p,
            None => {
                return Err(EngineError::ColumnNotFound(old_name.to_owned()));
            },
        };
        if schema.has_column(new_name) {
            return Err(EngineError::DuplicateColumn);
        }
        schema.rename_column(p, new_name);
        self.put_schema(table_name, schema);
        Ok(())
    }

    fn change_column(
        &mut self,
        table_name: &str,
        column_name: &str,
        data_type: DataType,
        nullable: bool,
        vector_dimensions: Option<u16>,
    ) -> (r: Result<(), EngineError>)
        requires
            old(self).wf(),
        ensures
            final(self).wf(),
            took_effect(
                old(self)@,
                final(self)@,
                column_modified(
                    old(self)@,
                    table_name@,
                    column_name@,
                    data_type,
                    nullable,
                    vector_dimensions,
                ),
                r,
            ),
    {
        let mut schema = match self.schema_for_change(table_name) {
            Err(e) => {
                return Err(e);
            },
            Ok(s) => s,
        };
        let p: usize = match schema.get_column_index(column_name) {
            Some(p) => p,
            None => {
                return Err(EngineError::ColumnNotFound(column_name.to_owned()));
            },
        };
        schema.modify_column(p, data_type, nullable, vector_dimensions);
        self.put_schema(table_name, schema);
        Ok(())
    }

    /// Gives a column another type.
    pub fn modify_column(
        &mut self,
        table_name: &str,
        column_name: &str,
        data_type: DataType,
        nullable: bool,
    ) -> (r: Result<(), EngineError>)
        requires
            old(self).wf(),
        ensures
            final(self).wf(),
            took_effect(
                old(self)@,
                final(self)@,
                column_modified(
                    old(self)@,
                    table_name@,
                    column_name@,
                    data_type,
                    nullable,
                    None,
                ),
                r,
            ),
    {
        self.change_column(table_name, column_name, data_type, nullable, None)
    }

    /// Gives a column another type and other dimensions.
    pub fn modify_column_with_dimensions(
        &mut self,
        table_name: &str,
        column_name: &str,
        data_type: DataType,
        nullable: bool,
        vector_dimensions: u16,
    ) -> (r: Result<(), EngineError>)
        requires
            old(self).wf(),
        ensures
            final(self).wf(),
            took_effect(
                old(self)@,
                final(self)@,
                column_modified(
                    old(self)@,
                    table_name@,
                    column_name@,
                    data_type,
                    nullable,
                    Some(vector_dimensions),
                ),
                r,
            ),
    {
        self.change_column(table_name, column_name, data_type, nullable, Some(vector_dimensions))
    }

    /// Gives a table the clustering key `key`: the rows that it seals from then on are put in the key's
    /// order, see `order_rows_by_key`. Volumes that were sealed before keep theirs.
    pub fn set_cluster_key(&mut self, table_name: &str, key: Vec<usize>) -> (r: Result<
        (),
        EngineError,
    >)
        requires
            old(self).wf(),
        ensures
            final(self).wf(),
            took_effect(
                old(self)@,
                final(self)@,
                key_set(old(self)@, table_name@, position_views(key@)),
                r,
            ),
    {
        let mut schema = match self.schema_for_change(table_name) {
            Err(e) => {
                return Err(e);
            },
            Ok(s) => s,
        };
        if !positions_in_range(&key, schema.columns.len()) {
            return Err(EngineError::ClusterKeyPastEnd);
        }
        schema.cluster_key = key;
        self.put_schema(table_name, schema);
        Ok(())
    }

    /// Replays the record of a change to a table.
    pub fn replay_alter_table(&mut self, data: &[u8]) -> (r: Result<(), EngineError>)
        requires
            old(self).wf(),
        ensures
            final(self).wf(),
            took_effect(old(self)@, final(self)@, alter_replayed(old(self)@, data@), r),
    {
        let change = match decode_alter_table(data) {
            Ok(a) => a,
            Err(e) => {
                return Err(EngineError::Alter(e));
            },
        };
        match change {
            AlterTable::AddColumn {
                table,
                column,
                data_type,
                nullable,
                default_expr,
                vector_dimensions,
            } => self.create_column_with_default(
                table.as_str(),
                column.as_str(),
                data_type,
                nullable,
                default_expr,
                vector_dimensions,
            ),
            AlterTable::DropColumn { table, column } => self.drop_column(
                table.as_str(),
                column.as_str(),
            ),
            AlterTable::RenameColumn { table, old_name, new_name } => self.rename_column(
                table.as_str(),
                old_name.as_str(),
                new_name.as_str(),
            ),
            AlterTable::ModifyColumn { table, column, data_type, nullable, vector_dimensions } =>
                self.modify_column_with_dimensions(
                table.as_str(),
                column.as_str(),
                data_type,
                nullable,
                vector_dimensions,
            ),
            AlterTable::RenameTable { table, new_name } => self.rename_table(
                table.as_str(),
                new_name.as_str(),
            ),
            AlterTable::ClusterBy { table, key } => self.set_cluster_key(table.as_str(), key),
        }
    }

    /// Creates a view. One that exists already is no fault where `if_not_exists` says so.
    pub fn create_view(&mut self, name: &str, query: String, if_not_exists: bool) -> (r: Result<
        (),
        EngineError,
    >)
        requires
            old(self).wf(),
        ensures
            final(self).wf(),
            took_effect(
                old(self)@,
                final(self)@,
                view_created(old(self)@, name@, query@, if_not_exists),
                r,
            ),
    {
        if !self.open {
            return Err(EngineError::EngineNotOpen);
        }
        let key = lowercase(name);
        if self.schemas.contains(key.as_str()) {
            return Err(EngineError::ViewNameIsTable(name.to_owned()));
        }
        if self.views.contains(key.as_str()) {
            if if_not_exists {
                return Ok(());
            }
            return Err(EngineError::ViewAlreadyExists(name.to_owned()));
        }
        self.views.insert(key, ViewDefinition::new(name, query));
        Ok(())
    }

    /// Drops a view. One that does not exist is no fault where `if_exists` says so.
    pub fn drop_view(&mut self, name: &str, if_exists: bool) -> (r: Result<(), EngineError>)
        requires
            old(self).wf(),
        ensures
            final(self).wf(),
            took_effect(old(self)@, final(self)@, view_dropped(old(self)@, name@, if_exists), r),
    {
        if !self.open {
            return Err(EngineError::EngineNotOpen);
        }
        let key = lowercase(name);
        if self.views.remove(key.as_str()).is_none() {
            if if_exists {
                return Ok(());
            }
            return Err(EngineError::ViewNotFound(name.to_owned()));
        }
        Ok(())
    }

    /// Whether there is a view, whatever the case of the letters in its name.
    pub fn view_exists(&self, name: &str) -> (r: Result<bool, EngineError>)
        requires
            self.wf(),
        ensures
            match r {
                Ok(b) => self@.open && b == self@.views.contains_key(unicode_lowercase(name@)),
                Err(e) => !self@.open && e@ == ErrorV::EngineNotOpen,
            },
    {
        let key = lowercase(name);
        self.view_exists_lowercase(key.as_str())
    }

    /// Whether there is a view, by its name in lower case.
    pub fn view_exists_lowercase(&self, name_lower: &str) -> (r: Result<bool, EngineError>)
        requires
            self.wf(),
        ensures
            match r {
                Ok(b) => self@.open && b == self@.views.contains_key(name_lower@),
                Err(e) => !self@.open && e@ == ErrorV::EngineNotOpen,
            },
    {
        if !self.open {
            return Err(EngineError::EngineNotOpen);
        }
        Ok(self.views.contains(name_lower))
    }

    /// A view, whatever the case of the letters in its name.
    pub fn get_view(&self, name: &str) -> (r: Result<Option<ViewDefinition>, EngineError>)
        requires
            self.wf(),
        ensures
            view_found(self@, unicode_lowercase(name@), r),
    {
        let key = lowercase(name);
        self.get_view_lowercase(key.as_str())
    }

    /// A view, by its name in lower case.
    pub fn get_view_lowercase(&self, name_lower: &str) -> (r: Result<
        Option<ViewDefinition>,
        EngineError,
    >)
        requires
            self.wf(),
        ensures
            view_found(self@, name_lower@, r),
    {
        if !self.open {
            return Err(EngineError::EngineNotOpen);
        }
        match self.views.get(name_lower) {
            Some(v) => Ok(Some(v.duplicate())),
            None => Ok(None),
        }
    }

    /// The names of all views, as they were given.
    pub fn list_views(&self) -> (r: Result<Vec<String>, EngineError>)
        requires
            self.wf(),
        ensures
            match r {
                Ok(names) => self@.open && names@.len() == self.view_list().len() && forall|i: int|
                    0 <= i < names@.len() ==> (#[trigger] names@[i])@
                        == self.view_list()[i].1.original_name,
                Err(e) => !self@.open && e@ == ErrorV::EngineNotOpen,
            },
    {
        if !self.open {
            return Err(EngineError::EngineNotOpen);
        }
        let mut out: Vec<String> = Vec::new();
        let mut i: usize = 0;
        while i < self.views.len()
            invariant
                i <= self.view_list().len(),
                out@.len() == i,
                forall|k: int|
                    0 <= k < i ==> (#[trigger] out@[k])@ == self.view_list()[k].1.original_name,
            decreases self.view_list().len() - i,
        {
            out.push(self.views.value_at(i).original_name.as_str().to_owned());
            i = i + 1;
        }
        Ok(out)
    }

    /// The definitions of all views.
    pub fn get_all_views(&self) -> (r: Vec<ViewDefinition>)
        requires
            self.wf(),
        ensures
            r@.len() == self.view_list().len(),
            forall|i: int| 0 <= i < r@.len() ==> (#[trigger] r@[i])@ == self.view_list()[i].1,
    {
        let mut out: Vec<ViewDefinition> = Vec::new();
        let mut i: usize = 0;
        while i < self.views.len()
            invariant
                i <= self.view_list().len(),
                out@.len() == i,
                forall|k: int| 0 <= k < i ==> (#[trigger] out@[k])@ == self.view_list()[k].1,
            decreases self.view_list().len() - i,
        {
            out.push(self.views.value_at(i).duplicate());
            i = i + 1;
        }
        out
    }

    /// Takes over a view from a record or a backup, in the place of one of the same name.
    pub fn restore_view(&mut self, view: ViewDefinition)
        requires
            old(self).wf(),
        ensures
            final(self).wf(),
            final(self)@ == (EngineV {
                views: old(self)@.views.insert(view@.name, view@),
                ..old(self)@
            }),
    {
        let key = view.name.as_str().to_owned();
        self.views.insert(key, view);
    }

    /// Takes out a view by the name in a record, whatever the case of its letters.
    pub fn forget_view(&mut self, name: &str)
        requires
            old(self).wf(),
        ensures
            final(self).wf(),
            final(self)@ == (EngineV {
                views: old(self)@.views.remove(unicode_lowercase(name@)),
                ..old(self)@
            }),
    {
        let key = lowercase(name);
        let ghost before = self.views@;
        self.views.remove(key.as_str());
        proof {
            if !before.contains_key(key@) {
                assert(before.remove(key@) =~= before);
            }
        }
    }

    /// Takes over a table from a record or a snapshot, in the place of one of the same name.
    pub fn restore_table(&mut self, schema: Schema)
        requires
            old(self).wf(),
        ensures
            final(self).wf(),
            final(self)@ == (EngineV {
                tables: old(self)@.tables.insert(schema@.table_name_lower, schema@),
                ..old(self)@
            }),
    {
        let key = schema.table_name_lower.as_str().to_owned();
        self.schemas.insert(key, schema);
    }

    /// Takes out a table by the name in a record, whatever the case of its letters, and the foreign
    /// keys of other tables to it.
    pub fn forget_table(&mut self, name: &str)
        requires
            old(self).wf(),
        ensures
            final(self).wf(),
            final(self)@ == (EngineV {
                tables: stripped(
                    old(self)@.tables.remove(unicode_lowercase(name@)),
                    unicode_lowercase(name@),
                ),
                ..old(self)@
            }),
    {
        let key = lowercase(name);
        let ghost before = self.schemas@;
        self.schemas.remove(key.as_str());
        proof {
            if !before.contains_key(key@) {
                assert(before.remove(key@) =~= before);
            }
        }
        strip_fk_references(&mut self.schemas, key.as_str());
    }

    /// Notes the time stamp of the snapshot that a table was loaded from.
    pub fn note_snapshot(&mut self, table: &str, timestamp: &str)
        requires
            old(self).wf(),
        ensures
            final(self).wf(),
            final(self)@ == (EngineV {
                timestamps: old(self)@.timestamps.insert(table@, timestamp@),
                ..old(self)@
            }),
    {
        self.snapshot_timestamps.insert(table.to_owned(), timestamp.to_owned());
    }

    /// The oldest time stamp of the snapshots that tables were loaded from.
    pub fn oldest_loaded_snapshot_timestamp(&self) -> (r: Option<String>)
        requires
            self.wf(),
        ensures
            match r {
                Some(t) => {
                    &&& exists|k: Seq<char>| #[trigger]
                        self@.timestamps.contains_key(k) && self@.timestamps[k] == t@
                    &&& forall|k: Seq<char>| #[trigger]
                        self@.timestamps.contains_key(k) ==> text_le(t@, self@.timestamps[k])
                },
                None => forall|k: Seq<char>| !#[trigger] self@.timestamps.contains_key(k),
            },
    {
        let ghost list = self.snapshot_timestamps.listing();
        let mut oldest: Option<String> = None;
        let mut i: usize = 0;
        while i < self.snapshot_timestamps.len()
            invariant
                self.wf(),
                i <= list.len(),
                list == self.snapshot_timestamps.listing(),
                match oldest {
                    Some(t) => {
                        &&& exists|k: int| 0 <= k < i && (#[trigger] list[k]).1 == t@
                        &&& forall|k: int| 0 <= k < i ==> text_le(t@, (#[trigger] list[k]).1)
                    },
                    None => i == 0,
                },
            decreases list.len() - i,
        {
            let candidate = self.snapshot_timestamps.value_at(i);
            assert(candidate@ == list[i as int].1);
            oldest = match oldest {
                None => {
                    proof {
                        lemma_text_le_reflexive(candidate@);
                    }
                    Some(candidate.as_str().to_owned())
                },
                Some(t) => if text_not_after(t.as_str(), candidate.as_str()) {
                    Some(t)
                } else {
                    proof {
                        lemma_text_le_total(t@, candidate@);
                        lemma_text_le_reflexive(candidate@);
                        assert forall|k: int| 0 <= k < i implies text_le(
                            candidate@,
                            (#[trigger] list[k]).1,
                        ) by {
                            lemma_text_le_transitive(candidate@, t@, list[k].1);
                        }
                    }
                    Some(candidate.as_str().to_owned())
                },
            };
            i = i + 1;
        }
        proof {
            let m = self@.timestamps;
            assert forall|k: Seq<char>| #[trigger] m.contains_key(k) implies exists|a: int|
                0 <= a < list.len() && (#[trigger] list[a]).0 == k && list[a].1 == m[k] by {
                lemma_listed(list, k);
            }
            if oldest is Some {
                let t = oldest->Some_0@;
                let a = choose|a: int| 0 <= a < i && (#[trigger] list[a]).1 == t;
                lemma_map_of_entry(list, a);
                assert(m.contains_key(list[a].0));
                assert forall|k: Seq<char>| #[trigger] m.contains_key(k) implies text_le(
                    t,
                    m[k],
                ) by {
                    let b = choose|b: int|
                        0 <= b < list.len() && (#[trigger] list[b]).0 == k && list[b].1 == m[k];
                    assert(text_le(t, list[b].1));
                }
            }
        }
        oldest
    }

    /// Forgets every table, view and time stamp, as before a restore.
    pub fn clear_catalog(&mut self)
        requires
            old(self).wf(),
        ensures
            final(self).wf(),
            final(self)@ == (EngineV {
                tables: Map::empty(),
                views: Map::empty(),
                timestamps: Map::empty(),
                ..old(self)@
            }),
    {
        self.schemas = NameMap::new();
        self.views = NameMap::new();
        self.snapshot_timestamps = NameMap::new();
    }

    /// Moves the epoch, so that every cache is stale, as after a restore or a finished rename.
    pub fn invalidate_caches(&mut self)
        requires
            old(self).wf(),
        ensures
            final(self).wf(),
            final(self)@ == (EngineV { epoch: next_epoch(old(self)@.epoch), ..old(self)@ }),
    {
        self.bump_epoch();
    }

    /// The number of volumes that a pass over repeated rows removes: none, since newer volumes hide
    /// the rows of older ones.
    pub fn dedup_segments(&self) -> (n: usize)
        ensures
            n == 0,
    {
        0
    }

    /// The schema as a log record holds it.
    pub fn serialize_schema(schema: &Schema) -> (buf: Vec<u8>)
        ensures
            buf@ == log_schema_bytes(schema@, 3),
    {
        serialize_schema(schema)
    }
}

/// Whether `r` is the view of an open engine under a name.
pub open spec fn view_found(
    e: EngineV,
    key: Seq<char>,
    r: Result<Option<ViewDefinition>, EngineError>,
) -> bool {
    match r {
        Ok(Some(v)) => e.open && e.views.contains_key(key) && v@ == e.views[key],
        Ok(None) => e.open && !e.views.contains_key(key),
        Err(x) => !e.open && x@ == ErrorV::EngineNotOpen,
    }
}

proof fn lemma_listed<V>(s: Seq<(Seq<char>, V)>, k: Seq<char>)
    requires
        distinct_names(s),
        map_of(s).contains_key(k),
    ensures
        exists|i: int| 0 <= i < s.len() && (#[trigger] s[i]).0 == k && s[i].1 == map_of(s)[k],
    decreases s.len(),
{
    if s.len() > 0 {
        if s.last().0 == k {
            assert(s[s.len() - 1].0 == k);
        } else {
            let t = s.drop_last();
            assert(distinct_names(t)) by {
                assert forall|a: int, b: int| 0 <= a < b < t.len() implies (#[trigger] t[a]).0 != (
                #[trigger] t[b]).0 by {
                    assert(s[a].0 != s[b].0);
                }
            }
            lemma_listed(t, k);
            let i = choose|i: int|
                0 <= i < t.len() && (#[trigger] t[i]).0 == k && t[i].1 == map_of(t)[k];
            assert(s[i].0 == k);
        }
    }
}

/// The view of a list of foreign keys with the names of their tables.
pub open spec fn reference_views(r: Seq<(String, ForeignKeyConstraint)>) -> Seq<
    (Seq<char>, ForeignKeyV),
> {
    r.map_values(|e: (String, ForeignKeyConstraint)| (e.0@, e.1@))
}

fn push_references(
    out: &mut Vec<(String, ForeignKeyConstraint)>,
    schema: &Schema,
    parent: &str,
)
    ensures
        reference_views(final(out)@) == reference_views(old(out)@) + references_of(schema@, parent@),
{
    let ghost keys = schema@.foreign_keys;
    let ghost pred = |k: ForeignKeyV| k.referenced_table == parent@;
    let ghost f = |k: ForeignKeyV| (schema@.table_name_lower, k);
    let ghost start = reference_views(out@);
    let wanted = parent.to_owned();
    let mut i: usize = 0;
    proof {
        reveal(Seq::filter);
        assert(keys.take(0) =~= Seq::empty());
        assert(keys.take(0).filter(pred).map_values(f) =~= Seq::empty());
        assert(start + Seq::<(Seq<char>, ForeignKeyV)>::empty() =~= start);
    }
    while i < schema.foreign_keys.len()
        invariant
            i <= schema.foreign_keys@.len(),
            keys == schema@.foreign_keys,
            pred == (|k: ForeignKeyV| k.referenced_table == parent@),
            f == (|k: ForeignKeyV| (schema@.table_name_lower, k)),
            wanted@ == parent@,
            start == reference_views(old(out)@),
            reference_views(out@) == start + keys.take(i as int).filter(pred).map_values(f),
        decreases schema.foreign_keys@.len() - i,
    {
        proof {
            reveal(Seq::filter);
            assert(keys.take(i + 1).drop_last() =~= keys.take(i as int));
            assert(keys.take(i + 1).last() == schema.foreign_keys@[i as int]@);
        }
        if schema.foreign_keys[i].referenced_table == wanted {
            let key = schema.foreign_keys[i].duplicate();
            let ghost before = out@;
            out.push((schema.table_name_lower.as_str().to_owned(), key));
            proof {
                let chosen = keys.take(i as int).filter(pred);
                assert(keys.take(i + 1).filter(pred) == chosen.push(key@));
                assert(chosen.push(key@).map_values(f) =~= chosen.map_values(f).push(f(key@)));
                assert(reference_views(out@) =~= reference_views(before).push(f(key@)));
                assert((start + chosen.map_values(f)).push(f(key@)) =~= start + chosen.map_values(
                    f,
                ).push(f(key@)));
            }
        }
        i = i + 1;
    }
    assert(keys.take(i as int) =~= keys);
}

} // verus!
