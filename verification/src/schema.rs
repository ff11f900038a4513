//! Table schemas: columns, foreign keys and the clustering key.

use crate::text::{ascii_lower, lowercase, unicode_lowercase};
use vstd::prelude::*;
use vstd::string::*;
use vstd::utf8::is_ascii_chars;

verus! {

/// The type of a column's values.
#[derive(Debug, Clone, Copy, PartialEq, Eq, Structural)]
pub enum DataType {
    Null,
    Integer,
    Float,
    Text,
    Boolean,
    Timestamp,
    Json,
    Vector,
}

/// The tag under which `t` is stored.
pub open spec fn type_tag(t: DataType) -> u8 {
    match t {
        DataType::Null => 0,
        DataType::Integer => 1,
        DataType::Float => 2,
        DataType::Text => 3,
        DataType::Boolean => 4,
        DataType::Timestamp => 5,
        DataType::Json => 6,
        DataType::Vector => 7,
    }
}

/// The type stored under `tag`; an unknown tag stands for `Null`.
pub open spec fn type_of_tag(tag: u8) -> DataType {
    if tag == 1 {
        DataType::Integer
    } else if tag == 2 {
        DataType::Float
    } else if tag == 3 {
        DataType::Text
    } else if tag == 4 {
        DataType::Boolean
    } else if tag == 5 {
        DataType::Timestamp
    } else if tag == 6 {
        DataType::Json
    } else if tag == 7 {
        DataType::Vector
    } else {
        DataType::Null
    }
}

impl DataType {
    /// The tag under which the type is stored.
    pub fn as_u8(self) -> (tag: u8)
        ensures
            tag == type_tag(self),
    {
        match self {
            DataType::Null => 0,
            DataType::Integer => 1,
            DataType::Float => 2,
            DataType::Text => 3,
            DataType::Boolean => 4,
            DataType::Timestamp => 5,
            DataType::Json => 6,
            DataType::Vector => 7,
        }
    }

    /// The type stored under `tag`; none for an unknown tag.
    pub fn from_u8(tag: u8) -> (r: Option<DataType>)
        ensures
            match r {
                Some(t) => type_tag(t) == tag && t == type_of_tag(tag),
                None => tag > 7,
            },
    {
        if tag > 7 {
            None
        } else {
            Some(DataType::from_tag(tag))
        }
    }

    /// The type stored under `tag`; an unknown tag stands for `Null`.
    pub fn from_tag(tag: u8) -> (t: DataType)
        ensures
            t == type_of_tag(tag),
            tag <= 7 ==> type_tag(t) == tag,
    {
        match tag {
            1 => DataType::Integer,
            2 => DataType::Float,
            3 => DataType::Text,
            4 => DataType::Boolean,
            5 => DataType::Timestamp,
            6 => DataType::Json,
            7 => DataType::Vector,
            _ => DataType::Null,
        }
    }
}

/// What happens to a referencing row when the referenced row changes.
#[derive(Debug, Clone, Copy, PartialEq, Eq, Structural)]
pub enum ForeignKeyAction {
    Restrict,
    Cascade,
    SetNull,
    NoAction,
}

/// The tag under which `a` is stored.
pub open spec fn action_tag(a: ForeignKeyAction) -> u8 {
    match a {
        ForeignKeyAction::Restrict => 0,
        ForeignKeyAction::Cascade => 1,
        ForeignKeyAction::SetNull => 2,
        ForeignKeyAction::NoAction => 3,
    }
}

/// The action stored under `tag`; an unknown tag stands for `Restrict`.
pub open spec fn action_of_tag(tag: u8) -> ForeignKeyAction {
    if tag == 1 {
        ForeignKeyAction::Cascade
    } else if tag == 2 {
        ForeignKeyAction::SetNull
    } else if tag == 3 {
        ForeignKeyAction::NoAction
    } else {
        ForeignKeyAction::Restrict
    }
}

impl ForeignKeyAction {
    /// The tag under which the action is stored.
    pub fn as_u8(self) -> (tag: u8)
        ensures
            tag == action_tag(self),
    {
        match self {
            ForeignKeyAction::Restrict => 0,
            ForeignKeyAction::Cascade => 1,
            ForeignKeyAction::SetNull => 2,
            ForeignKeyAction::NoAction => 3,
        }
    }

    /// The action stored under `tag`; an unknown tag stands for `Restrict`.
    pub fn from_tag(tag: u8) -> (a: ForeignKeyAction)
        ensures
            a == action_of_tag(tag),
    {
        match tag {
            1 => ForeignKeyAction::Cascade,
            2 => ForeignKeyAction::SetNull,
            3 => ForeignKeyAction::NoAction,
            _ => ForeignKeyAction::Restrict,
        }
    }
}

/// A column of a table.
#[derive(Debug)]
pub struct SchemaColumn {
    pub id: usize,
    pub name: String,
    /// The name in lower case.
    pub name_lower: String,
    pub data_type: DataType,
    pub nullable: bool,
    pub primary_key: bool,
    pub auto_increment: bool,
    /// The text of the DEFAULT expression.
    pub default_expr: Option<String>,
    /// The encoded value of the DEFAULT expression.
    pub default_value: Option<Vec<u8>>,
    /// The text of the CHECK constraint.
    pub check_expr: Option<String>,
    /// The length of a vector column's values.
    pub vector_dimensions: u16,
}

/// A column, with its texts as sequences.
pub struct ColumnV {
    pub id: nat,
    pub name: Seq<char>,
    pub name_lower: Seq<char>,
    pub data_type: DataType,
    pub nullable: bool,
    pub primary_key: bool,
    pub auto_increment: bool,
    pub default_expr: Option<Seq<char>>,
    pub default_value: Option<Seq<u8>>,
    pub check_expr: Option<Seq<char>>,
    pub vector_dimensions: nat,
}

/// The view of an optional text.
pub open spec fn text_view(o: Option<String>) -> Option<Seq<char>> {
    match o {
        Some(s) => Some(s@),
        None => None,
    }
}

/// The view of an optional byte string.
pub open spec fn blob_view(o: Option<Vec<u8>>) -> Option<Seq<u8>> {
    match o {
        Some(b) => Some(b@),
        None => None,
    }
}

/// A copy of an optional text.
pub fn copy_text(o: &Option<String>) -> (r: Option<String>)
    ensures
        text_view(r) == text_view(*o),
{
    match o {
        Some(s) => Some(s.as_str().to_owned()),
        None => None,
    }
}

/// A copy of an optional byte string.
pub fn copy_blob(o: &Option<Vec<u8>>) -> (r: Option<Vec<u8>>)
    ensures
        blob_view(r) == blob_view(*o),
{
    match o {
        Some(b) => {
            let c = vstd::slice::slice_to_vec(b.as_slice());
            Some(c)
        },
        None => None,
    }
}

impl View for SchemaColumn {
    type V = ColumnV;

    open spec fn view(&self) -> ColumnV {
        ColumnV {
            id: self.id as nat,
            name: self.name@,
            name_lower: self.name_lower@,
            data_type: self.data_type,
            nullable: self.nullable,
            primary_key: self.primary_key,
            auto_increment: self.auto_increment,
            default_expr: text_view(self.default_expr),
            default_value: blob_view(self.default_value),
            check_expr: text_view(self.check_expr),
            vector_dimensions: self.vector_dimensions as nat,
        }
    }
}

impl SchemaColumn {
    /// A column without an encoded default value and without vector dimensions.
    pub fn with_constraints(
        id: usize,
        name: &str,
        data_type: DataType,
        nullable: bool,
        primary_key: bool,
        auto_increment: bool,
        default_expr: Option<String>,
        check_expr: Option<String>,
    ) -> (r: SchemaColumn)
        ensures
            r@ == (ColumnV {
                id: id as nat,
                name: name@,
                name_lower: unicode_lowercase(name@),
                data_type,
                nullable,
                primary_key,
                auto_increment,
                default_expr: text_view(default_expr),
                default_value: None,
                check_expr: text_view(check_expr),
                vector_dimensions: 0,
            }),
    {
        SchemaColumn {
            id,
            name: name.to_owned(),
            name_lower: lowercase(name),
            data_type,
            nullable,
            primary_key,
            auto_increment,
            default_expr,
            default_value: None,
            check_expr,
            vector_dimensions: 0,
        }
    }

    /// A copy of the column.
    pub fn duplicate(&self) -> (r: SchemaColumn)
        ensures
            r@ == self@,
    {
        SchemaColumn {
            id: self.id,
            name: self.name.as_str().to_owned(),
            name_lower: self.name_lower.as_str().to_owned(),
            data_type: self.data_type,
            nullable: self.nullable,
            primary_key: self.primary_key,
            auto_increment: self.auto_increment,
            default_expr: copy_text(&self.default_expr),
            default_value: copy_blob(&self.default_value),
            check_expr: copy_text(&self.check_expr),
            vector_dimensions: self.vector_dimensions,
        }
    }
}

/// A foreign key: a column whose values must occur in a column of another table.
#[derive(Debug)]
pub struct ForeignKeyConstraint {
    pub column_index: usize,
    pub column_name: String,
    pub referenced_table: String,
    pub referenced_column: String,
    pub on_delete: ForeignKeyAction,
    pub on_update: ForeignKeyAction,
}

/// A foreign key, with its texts as sequences.
pub struct ForeignKeyV {
    pub column_index: nat,
    pub column_name: Seq<char>,
    pub referenced_table: Seq<char>,
    pub referenced_column: Seq<char>,
    pub on_delete: ForeignKeyAction,
    pub on_update: ForeignKeyAction,
}

impl View for ForeignKeyConstraint {
    type V = ForeignKeyV;

    open spec fn view(&self) -> ForeignKeyV {
        ForeignKeyV {
            column_index: self.column_index as nat,
            column_name: self.column_name@,
            referenced_table: self.referenced_table@,
            referenced_column: self.referenced_column@,
            on_delete: self.on_delete,
            on_update: self.on_update,
        }
    }
}

impl ForeignKeyConstraint {
    /// A copy of the constraint.
    pub fn duplicate(&self) -> (r: ForeignKeyConstraint)
        ensures
            r@ == self@,
    {
        ForeignKeyConstraint {
            column_index: self.column_index,
            column_name: self.column_name.as_str().to_owned(),
            referenced_table: self.referenced_table.as_str().to_owned(),
            referenced_column: self.referenced_column.as_str().to_owned(),
            on_delete: self.on_delete,
            on_update: self.on_update,
        }
    }
}

/// The schema of a table. Times are nanoseconds since the Unix epoch.
#[derive(Debug)]
pub struct Schema {
    pub table_name: String,
    /// The table's name in lower case.
    pub table_name_lower: String,
    pub columns: Vec<SchemaColumn>,
    pub foreign_keys: Vec<ForeignKeyConstraint>,
    pub created_at: i64,
    pub updated_at: i64,
    /// The positions of the columns by which the rows of a volume are put in order; none where they
    /// are in the order of their identities.
    pub cluster_key: Vec<usize>,
}

/// A schema, with its texts and lists as sequences.
pub struct SchemaV {
    pub table_name: Seq<char>,
    pub table_name_lower: Seq<char>,
    pub columns: Seq<ColumnV>,
    pub foreign_keys: Seq<ForeignKeyV>,
    pub created_at: int,
    pub updated_at: int,
    pub cluster_key: Seq<nat>,
}

/// The views of a list of columns.
pub open spec fn column_views(columns: Seq<SchemaColumn>) -> Seq<ColumnV> {
    columns.map_values(|c: SchemaColumn| c@)
}

/// The views of a list of foreign keys.
pub open spec fn foreign_key_views(keys: Seq<ForeignKeyConstraint>) -> Seq<ForeignKeyV> {
    keys.map_values(|k: ForeignKeyConstraint| k@)
}

/// A list of positions as numbers.
pub open spec fn position_views(positions: Seq<usize>) -> Seq<nat> {
    positions.map_values(|p: usize| p as nat)
}

impl View for Schema {
    type V = SchemaV;

    open spec fn view(&self) -> SchemaV {
        SchemaV {
            table_name: self.table_name@,
            table_name_lower: self.table_name_lower@,
            columns: column_views(self.columns@),
            foreign_keys: foreign_key_views(self.foreign_keys@),
            created_at: self.created_at as int,
            updated_at: self.updated_at as int,
            cluster_key: position_views(self.cluster_key@),
        }
    }
}

/// Copies of the columns, in order.
pub fn duplicate_columns(columns: &Vec<SchemaColumn>) -> (r: Vec<SchemaColumn>)
    ensures
        column_views(r@) == column_views(columns@),
{
    let mut out: Vec<SchemaColumn> = Vec::new();
    let mut i: usize = 0;
    while i < columns.len()
        invariant
            i <= columns@.len(),
            column_views(out@) == column_views(columns@).take(i as int),
        decreases columns@.len() - i,
    {
        let copy = columns[i].duplicate();
        let ghost before = out@;
        out.push(copy);
        assert(column_views(out@) =~= column_views(before).push(copy@));
        assert(column_views(columns@).take(i + 1) =~= column_views(columns@).take(i as int).push(
            columns@[i as int]@,
        ));
        i = i + 1;
    }
    assert(column_views(columns@).take(i as int) =~= column_views(columns@));
    out
}

/// Copies of the foreign keys, in order.
pub fn duplicate_foreign_keys(keys: &Vec<ForeignKeyConstraint>) -> (r: Vec<ForeignKeyConstraint>)
    ensures
        foreign_key_views(r@) == foreign_key_views(keys@),
{
    let mut out: Vec<ForeignKeyConstraint> = Vec::new();
    let mut i: usize = 0;
    while i < keys.len()
        invariant
            i <= keys@.len(),
            foreign_key_views(out@) == foreign_key_views(keys@).take(i as int),
        decreases keys@.len() - i,
    {
        let copy = keys[i].duplicate();
        let ghost before = out@;
        out.push(copy);
        assert(foreign_key_views(out@) =~= foreign_key_views(before).push(copy@));
        assert(foreign_key_views(keys@).take(i + 1) =~= foreign_key_views(keys@).take(i as int).push(
            keys@[i as int]@,
        ));
        i = i + 1;
    }
    assert(foreign_key_views(keys@).take(i as int) =~= foreign_key_views(keys@));
    out
}

/// The position of the first column of the primary key.
pub open spec fn first_primary_key(columns: Seq<ColumnV>) -> Option<nat>
    decreases columns.len(),
{
    if columns.len() == 0 {
        None
    } else if columns[0].primary_key {
        Some(0)
    } else {
        match first_primary_key(columns.skip(1)) {
            Some(i) => Some(i + 1),
            None => None,
        }
    }
}

impl Schema {
    /// A schema without a clustering key.
    pub fn with_timestamps_and_foreign_keys(
        table_name: String,
        columns: Vec<SchemaColumn>,
        foreign_keys: Vec<ForeignKeyConstraint>,
        created_at: i64,
        updated_at: i64,
    ) -> (r: Schema)
        ensures
            r@ == (SchemaV {
                table_name: table_name@,
                table_name_lower: unicode_lowercase(table_name@),
                columns: column_views(columns@),
                foreign_keys: foreign_key_views(foreign_keys@),
                created_at: created_at as int,
                updated_at: updated_at as int,
                cluster_key: Seq::empty(),
            }),
            is_ascii_chars(table_name@) ==> r@.table_name_lower == ascii_lower(table_name@),
    {
        let table_name_lower = lowercase(table_name.as_str());
        let r = Schema {
            table_name,
            table_name_lower,
            columns,
            foreign_keys,
            created_at,
            updated_at,
            cluster_key: Vec::new(),
        };
        assert(r@.cluster_key =~= Seq::empty());
        r
    }

    /// A copy of the schema.
    pub fn duplicate(&self) -> (r: Schema)
        ensures
            r@ == self@,
    {
        Schema {
            table_name: self.table_name.as_str().to_owned(),
            table_name_lower: self.table_name_lower.as_str().to_owned(),
            columns: duplicate_columns(&self.columns),
            foreign_keys: duplicate_foreign_keys(&self.foreign_keys),
            created_at: self.created_at,
            updated_at: self.updated_at,
            cluster_key: vstd::slice::slice_to_vec(self.cluster_key.as_slice()),
        }
    }

    /// The position of the primary key's column.
    pub fn pk_column_index(&self) -> (r: Option<usize>)
        ensures
            match r {
                Some(i) => first_primary_key(self@.columns) == Some(i as nat) && i
                    < self@.columns.len(),
                None => first_primary_key(self@.columns) is None,
            },
    {
        let mut i: usize = 0;
        assert(self@.columns.skip(0) =~= self@.columns);
        while i < self.columns.len()
            invariant
                i <= self@.columns.len(),
                self@.columns.len() == self.columns@.len(),
                first_primary_key(self@.columns) == match first_primary_key(
                    self@.columns.skip(i as int),
                ) {
                    Some(k) => Some((k + i) as nat),
                    None => None,
                },
            decreases self.columns@.len() - i,
        {
            assert(self@.columns.skip(i as int).skip(1) =~= self@.columns.skip(i + 1));
            assert(self@.columns.skip(i as int)[0] == self.columns@[i as int]@);
            if self.columns[i].primary_key {
                return Some(i);
            }
            i = i + 1;
        }
        None
    }
}

} // verus!
