//! The log records of ALTER TABLE.

use crate::bytes::{
    le_bytes, lemma_byte_range, lemma_join_assoc, lemma_join_nothing, lemma_split_le, push_le,
    skip_bytes, split_le, take_u16,
};
use crate::schema::{DataType, position_views, text_view, type_of_tag, type_tag};
use crate::schema_codec::{
    push_flag, push_optional_text16, push_positions, push_text16, push_type, read_late_expr_field,
    read_name_field,
};
use crate::schema_format::{
    fits16, flag_byte, lemma_read_late_expr, lemma_read_name, optional_fits16, optional_text16,
    positions_bytes, read_late_expr, read_name, text16, type_bytes,
};
use vstd::prelude::*;
use vstd::string::*;

verus! {

/// A change to a table.
#[derive(Debug)]
pub enum AlterTable {
    AddColumn {
        table: String,
        column: String,
        data_type: DataType,
        nullable: bool,
        default_expr: Option<String>,
        vector_dimensions: u16,
    },
    DropColumn { table: String, column: String },
    RenameColumn { table: String, old_name: String, new_name: String },
    ModifyColumn {
        table: String,
        column: String,
        data_type: DataType,
        nullable: bool,
        vector_dimensions: u16,
    },
    RenameTable { table: String, new_name: String },
    ClusterBy { table: String, key: Vec<usize> },
}

/// A change to a table, with its texts and lists as sequences.
pub enum AlterV {
    AddColumn {
        table: Seq<char>,
        column: Seq<char>,
        data_type: DataType,
        nullable: bool,
        default_expr: Option<Seq<char>>,
        vector_dimensions: nat,
    },
    DropColumn { table: Seq<char>, column: Seq<char> },
    RenameColumn { table: Seq<char>, old_name: Seq<char>, new_name: Seq<char> },
    ModifyColumn {
        table: Seq<char>,
        column: Seq<char>,
        data_type: DataType,
        nullable: bool,
        vector_dimensions: nat,
    },
    RenameTable { table: Seq<char>, new_name: Seq<char> },
    ClusterBy { table: Seq<char>, key: Seq<nat> },
}

impl View for AlterTable {
    type V = AlterV;

    open spec fn view(&self) -> AlterV {
        match *self {
            AlterTable::AddColumn {
                table,
                column,
                data_type,
                nullable,
                default_expr,
                vector_dimensions,
            } => AlterV::AddColumn {
                table: table@,
                column: column@,
                data_type,
                nullable,
                default_expr: text_view(default_expr),
                vector_dimensions: vector_dimensions as nat,
            },
            AlterTable::DropColumn { table, column } => AlterV::DropColumn {
                table: table@,
                column: column@,
            },
            AlterTable::RenameColumn { table, old_name, new_name } => AlterV::RenameColumn {
                table: table@,
                old_name: old_name@,
                new_name: new_name@,
            },
            AlterTable::ModifyColumn { table, column, data_type, nullable, vector_dimensions } =>
                AlterV::ModifyColumn {
                table: table@,
                column: column@,
                data_type,
                nullable,
                vector_dimensions: vector_dimensions as nat,
            },
            AlterTable::RenameTable { table, new_name } => AlterV::RenameTable {
                table: table@,
                new_name: new_name@,
            },
            AlterTable::ClusterBy { table, key } => AlterV::ClusterBy {
                table: table@,
                key: position_views(key@),
            },
        }
    }
}

/// The parts of a record that can be missing behind the table's name.
#[derive(Debug, Clone, Copy, PartialEq, Eq, Structural)]
pub enum AlterField {
    NameLength,
    Name,
    NewNameLength,
    NewName,
    DataType,
    Nullable,
    KeyCount,
    KeyColumn,
}

/// Why bytes are not a change to a table; `op` is the operation that they begin with.
#[derive(Debug, Clone, Copy, PartialEq, Eq, Structural)]
pub enum AlterError {
    Empty,
    MissingTableNameLength,
    MissingTableName,
    InvalidTableName,
    Missing { op: u8, field: AlterField },
    InvalidName { op: u8 },
    InvalidNewName { op: u8 },
    InvalidDataType { op: u8 },
    InvalidDefaultExpr,
    UnknownOperation { op: u8 },
}

// ---------------------------------------------------------------------------
// Writing
// ---------------------------------------------------------------------------

/// The number of an operation.
pub open spec fn op_of(a: AlterV) -> u8 {
    match a {
        AlterV::AddColumn { .. } => 1,
        AlterV::DropColumn { .. } => 2,
        AlterV::RenameColumn { .. } => 3,
        AlterV::ModifyColumn { .. } => 4,
        AlterV::RenameTable { .. } => 5,
        AlterV::ClusterBy { .. } => 6,
    }
}

/// The table that a change is about.
pub open spec fn table_of(a: AlterV) -> Seq<char> {
    match a {
        AlterV::AddColumn { table, .. } => table,
        AlterV::DropColumn { table, .. } => table,
        AlterV::RenameColumn { table, .. } => table,
        AlterV::ModifyColumn { table, .. } => table,
        AlterV::RenameTable { table, .. } => table,
        AlterV::ClusterBy { table, .. } => table,
    }
}

/// What a record holds behind the table's name.
pub open spec fn detail_bytes(a: AlterV) -> Seq<u8> {
    match a {
        AlterV::AddColumn {
            table,
            column,
            data_type,
            nullable,
            default_expr,
            vector_dimensions,
        } => text16(column) + (type_bytes(data_type, vector_dimensions) + (flag_byte(nullable)
            + optional_text16(default_expr))),
        AlterV::DropColumn { table, column } => text16(column),
        AlterV::RenameColumn { table, old_name, new_name } => text16(old_name) + text16(new_name),
        AlterV::ModifyColumn { table, column, data_type, nullable, vector_dimensions } => text16(
            column,
        ) + (type_bytes(data_type, vector_dimensions) + flag_byte(nullable)),
        AlterV::RenameTable { table, new_name } => text16(new_name),
        AlterV::ClusterBy { table, key } => le_bytes(key.len(), 2) + positions_bytes(key),
    }
}

/// The record of a change: the operation, the table's name, and the details.
pub open spec fn alter_bytes(a: AlterV) -> Seq<u8> {
    seq![op_of(a)] + (text16(table_of(a)) + detail_bytes(a))
}

fn start_record(op: u8, table: &str) -> (out: Vec<u8>)
    ensures
        out@ == seq![op] + text16(table@),
{
    let mut out: Vec<u8> = Vec::new();
    out.push(op);
    assert(out@ =~= seq![op]);
    push_text16(&mut out, table);
    out
}

/// The record of an added column.
pub fn encode_add_column(
    table: &str,
    column: &str,
    data_type: DataType,
    nullable: bool,
    default_expr: &Option<String>,
    vector_dimensions: u16,
) -> (out: Vec<u8>)
    ensures
        out@ == alter_bytes(
            AlterV::AddColumn {
                table: table@,
                column: column@,
                data_type,
                nullable,
                default_expr: text_view(*default_expr),
                vector_dimensions: vector_dimensions as nat,
            },
        ),
{
    let mut out = start_record(1, table);
    push_text16(&mut out, column);
    push_type(&mut out, data_type, vector_dimensions);
    push_flag(&mut out, nullable);
    push_optional_text16(&mut out, default_expr);
    proof {
        let x0 = seq![1u8];
        let x1 = text16(table@);
        let y0 = text16(column@);
        let y1 = type_bytes(data_type, vector_dimensions as nat);
        let y2 = flag_byte(nullable);
        let y3 = optional_text16(text_view(*default_expr));
        lemma_join_assoc(x0 + x1 + y0 + y1, y2, y3);
        lemma_join_assoc(x0 + x1 + y0, y1, y2 + y3);
        lemma_join_assoc(x0 + x1, y0, y1 + (y2 + y3));
        lemma_join_assoc(x0, x1, y0 + (y1 + (y2 + y3)));
    }
    out
}

/// The record of a dropped column.
pub fn encode_drop_column(table: &str, column: &str) -> (out: Vec<u8>)
    ensures
        out@ == alter_bytes(AlterV::DropColumn { table: table@, column: column@ }),
{
    let mut out = start_record(2, table);
    push_text16(&mut out, column);
    proof {
        lemma_join_assoc(seq![2u8], text16(table@), text16(column@));
    }
    out
}

/// The record of a renamed column.
pub fn encode_rename_column(table: &str, old_name: &str, new_name: &str) -> (out: Vec<u8>)
    ensures
        out@ == alter_bytes(
            AlterV::RenameColumn { table: table@, old_name: old_name@, new_name: new_name@ },
        ),
{
    let mut out = start_record(3, table);
    push_text16(&mut out, old_name);
    push_text16(&mut out, new_name);
    proof {
        let x0 = seq![3u8];
        let x1 = text16(table@);
        lemma_join_assoc(x0 + x1, text16(old_name@), text16(new_name@));
        lemma_join_assoc(x0, x1, text16(old_name@) + text16(new_name@));
    }
    out
}

/// The record of a modified column.
pub fn encode_modify_column(
    table: &str,
    column: &str,
    data_type: DataType,
    nullable: bool,
    vector_dimensions: u16,
) -> (out: Vec<u8>)
    ensures
        out@ == alter_bytes(
            AlterV::ModifyColumn {
                table: table@,
                column: column@,
                data_type,
                nullable,
                vector_dimensions: vector_dimensions as nat,
            },
        ),
{
    let mut out = start_record(4, table);
    push_text16(&mut out, column);
    push_type(&mut out, data_type, vector_dimensions);
    push_flag(&mut out, nullable);
    proof {
        let x0 = seq![4u8];
        let x1 = text16(table@);
        let y0 = text16(column@);
        let y1 = type_bytes(data_type, vector_dimensions as nat);
        let y2 = flag_byte(nullable);
        lemma_join_assoc(x0 + x1 + y0, y1, y2);
        lemma_join_assoc(x0 + x1, y0, y1 + y2);
        lemma_join_assoc(x0, x1, y0 + (y1 + y2));
    }
    out
}

/// The record of a renamed table.
pub fn encode_rename_table(table: &str, new_name: &str) -> (out: Vec<u8>)
    ensures
        out@ == alter_bytes(AlterV::RenameTable { table: table@, new_name: new_name@ }),
{
    let mut out = start_record(5, table);
    push_text16(&mut out, new_name);
    proof {
        lemma_join_assoc(seq![5u8], text16(table@), text16(new_name@));
    }
    out
}

/// The record of a new clustering key.
pub fn encode_cluster_by(table: &str, key: &Vec<usize>) -> (out: Vec<u8>)
    ensures
        out@ == alter_bytes(AlterV::ClusterBy { table: table@, key: position_views(key@) }),
{
    let mut out = start_record(6, table);
    push_le(&mut out, key.len() as u64, 2);
    push_positions(&mut out, key);
    proof {
        let x0 = seq![6u8];
        let x1 = text16(table@);
        let y0 = le_bytes(key@.len(), 2);
        let y1 = positions_bytes(position_views(key@));
        lemma_join_assoc(x0 + x1, y0, y1);
        lemma_join_assoc(x0, x1, y0 + y1);
    }
    out
}

// ---------------------------------------------------------------------------
// Reading
// ---------------------------------------------------------------------------

/// A type with the dimensions of a vector; an unknown tag is refused.
pub open spec fn read_known_type(b: Seq<u8>, op: u8) -> Result<
    ((DataType, nat), Seq<u8>),
    AlterError,
> {
    if b.len() == 0 {
        Err(AlterError::Missing { op, field: AlterField::DataType })
    } else if b[0] > 7 {
        Err(AlterError::InvalidDataType { op })
    } else {
        let t = type_of_tag(b[0]);
        match split_le(b.skip(1), 2) {
            Some((dimensions, rest)) => if t == DataType::Vector {
                Ok(((t, dimensions), rest))
            } else {
                Ok(((t, 0), b.skip(1)))
            },
            None => Ok(((t, 0), b.skip(1))),
        }
    }
}

/// A column's name, its type, and whether it may be NULL.
pub open spec fn read_column_spec(b: Seq<u8>, op: u8) -> Result<
    ((Seq<char>, DataType, nat, bool), Seq<u8>),
    AlterError,
> {
    match read_name(
        b,
        AlterError::Missing { op, field: AlterField::NameLength },
        AlterError::Missing { op, field: AlterField::Name },
        AlterError::InvalidName { op },
    ) {
        Err(e) => Err(e),
        Ok((column, b1)) => match read_known_type(b1, op) {
            Err(e) => Err(e),
            Ok(((t, dimensions), b2)) => if b2.len() == 0 {
                Err(AlterError::Missing { op, field: AlterField::Nullable })
            } else {
                Ok(((column, t, dimensions, b2[0] != 0), b2.skip(1)))
            },
        },
    }
}

/// `count` positions, of any size.
pub open spec fn read_key(b: Seq<u8>, count: nat) -> Option<Seq<nat>>
    decreases count,
{
    if count == 0 {
        Some(Seq::empty())
    } else {
        match split_le(b, 2) {
            None => None,
            Some((p, b1)) => match read_key(b1, (count - 1) as nat) {
                None => None,
                Some(ps) => Some(seq![p] + ps),
            },
        }
    }
}

/// The name at the front of `b`, and the rest of it.
pub open spec fn read_new_name(b: Seq<u8>, op: u8) -> Result<(Seq<char>, Seq<u8>), AlterError> {
    read_name(
        b,
        AlterError::Missing { op, field: AlterField::NewNameLength },
        AlterError::Missing { op, field: AlterField::NewName },
        AlterError::InvalidNewName { op },
    )
}

/// The change to `table` by the operation `op` with the details `b`.
pub open spec fn read_detail(b: Seq<u8>, op: u8, table: Seq<char>) -> Result<AlterV, AlterError> {
    if op == 1 {
        match read_column_spec(b, op) {
            Err(e) => Err(e),
            Ok(((column, data_type, vector_dimensions, nullable), b1)) => match read_late_expr(
                b1,
                AlterError::InvalidDefaultExpr,
            ) {
                Err(e) => Err(e),
                Ok((default_expr, b2)) => Ok(
                    AlterV::AddColumn {
                        table,
                        column,
                        data_type,
                        nullable,
                        default_expr,
                        vector_dimensions,
                    },
                ),
            },
        }
    } else if op == 2 || op == 3 {
        match read_name(
            b,
            AlterError::Missing { op, field: AlterField::NameLength },
            AlterError::Missing { op, field: AlterField::Name },
            AlterError::InvalidName { op },
        ) {
            Err(e) => Err(e),
            Ok((name, b1)) => if op == 2 {
                Ok(AlterV::DropColumn { table, column: name })
            } else {
                match read_new_name(b1, op) {
                    Err(e) => Err(e),
                    Ok((new_name, b2)) => Ok(
                        AlterV::RenameColumn { table, old_name: name, new_name },
                    ),
                }
            },
        }
    } else if op == 4 {
        match read_column_spec(b, op) {
            Err(e) => Err(e),
            Ok(((column, data_type, vector_dimensions, nullable), b1)) => Ok(
                AlterV::ModifyColumn { table, column, data_type, nullable, vector_dimensions },
            ),
        }
    } else if op == 5 {
        match read_new_name(b, op) {
            Err(e) => Err(e),
            Ok((new_name, b1)) => Ok(AlterV::RenameTable { table, new_name }),
        }
    } else if op == 6 {
        match split_le(b, 2) {
            None => Err(AlterError::Missing { op, field: AlterField::KeyCount }),
            Some((count, b1)) => match read_key(b1, count) {
                None => Err(AlterError::Missing { op, field: AlterField::KeyColumn }),
                Some(key) => Ok(AlterV::ClusterBy { table, key }),
            },
        }
    } else {
        Err(AlterError::UnknownOperation { op })
    }
}

/// The change that a record holds.
pub open spec fn read_alter(b: Seq<u8>) -> Result<AlterV, AlterError> {
    if b.len() == 0 {
        Err(AlterError::Empty)
    } else {
        match read_name(
            b.skip(1),
            AlterError::MissingTableNameLength,
            AlterError::MissingTableName,
            AlterError::InvalidTableName,
        ) {
            Err(e) => Err(e),
            Ok((table, b1)) => read_detail(b1, b[0], table),
        }
    }
}

fn read_known_type_field(input: &[u8], op: u8) -> (r: Result<((DataType, u16), &[u8]), AlterError>)
    ensures
        match r {
            Ok(((t, d), rest)) => read_known_type(input@, op) == Ok::<
                ((DataType, nat), Seq<u8>),
                AlterError,
            >(((t, d as nat), rest@)),
            Err(e) => read_known_type(input@, op) == Err::<
                ((DataType, nat), Seq<u8>),
                AlterError,
            >(e),
        },
{
    if input.len() == 0 {
        return Err(AlterError::Missing { op, field: AlterField::DataType });
    }
    let t = match DataType::from_u8(input[0]) {
        Some(t) => t,
        None => {
            return Err(AlterError::InvalidDataType { op });
        },
    };
    let rest = skip_bytes(input, 1);
    match take_u16(rest) {
        Some((d, more)) => if t == DataType::Vector {
            Ok(((t, d), more))
        } else {
            Ok(((t, 0), rest))
        },
        None => Ok(((t, 0), rest)),
    }
}

fn read_column_spec_fields(input: &[u8], op: u8) -> (r: Result<
    ((String, DataType, u16, bool), &[u8]),
    AlterError,
>)
    ensures
        match r {
            Ok(((c, t, d, n), rest)) => read_column_spec(input@, op) == Ok::<
                ((Seq<char>, DataType, nat, bool), Seq<u8>),
                AlterError,
            >(((c@, t, d as nat, n), rest@)),
            Err(e) => read_column_spec(input@, op) == Err::<
                ((Seq<char>, DataType, nat, bool), Seq<u8>),
                AlterError,
            >(e),
        },
{
    let (column, b1) = match read_name_field(
        input,
        AlterError::Missing { op, field: AlterField::NameLength },
        AlterError::Missing { op, field: AlterField::Name },
        AlterError::InvalidName { op },
    ) {
        Ok(v) => v,
        Err(e) => {
            return Err(e);
        },
    };
    let ((t, d), b2) = match read_known_type_field(b1, op) {
        Ok(v) => v,
        Err(e) => {
            return Err(e);
        },
    };
    if b2.len() == 0 {
        return Err(AlterError::Missing { op, field: AlterField::Nullable });
    }
    Ok(((column, t, d, b2[0] != 0), skip_bytes(b2, 1)))
}

fn read_key_fields(input: &[u8], count: usize) -> (r: Option<Vec<usize>>)
    ensures
        match r {
            Some(ps) => read_key(input@, count as nat) == Some(position_views(ps@)),
            None => read_key(input@, count as nat) is None,
        },
{
    let mut key: Vec<usize> = Vec::new();
    let mut rest: &[u8] = input;
    let mut i: usize = 0;
    proof {
        assert(position_views(key@) =~= Seq::empty());
        match read_key(input@, count as nat) {
            Some(ps) => {
                assert(position_views(key@) + ps =~= ps);
            },
            None => {},
        }
    }
    while i < count
        invariant
            i <= count,
            read_key(input@, count as nat) == match read_key(rest@, (count - i) as nat) {
                Some(ps) => Some(position_views(key@) + ps),
                None => None,
            },
        decreases count - i,
    {
        match take_u16(rest) {
            None => {
                return None;
            },
            Some((p, more)) => {
                let ghost before = key@;
                key.push(p as usize);
                proof {
                    assert(position_views(key@) =~= position_views(before).push(p as nat));
                    match read_key(more@, (count - i - 1) as nat) {
                        Some(ps) => {
                            assert(position_views(before) + (seq![p as nat] + ps)
                                =~= position_views(key@) + ps);
                        },
                        None => {},
                    }
                }
                rest = more;
                i = i + 1;
            },
        }
    }
    assert(position_views(key@) + Seq::<nat>::empty() =~= position_views(key@));
    Some(key)
}

fn read_new_name_field(input: &[u8], op: u8) -> (r: Result<(String, &[u8]), AlterError>)
    ensures
        match r {
            Ok((s, rest)) => read_new_name(input@, op) == Ok::<(Seq<char>, Seq<u8>), AlterError>(
                (s@, rest@),
            ),
            Err(e) => read_new_name(input@, op) == Err::<(Seq<char>, Seq<u8>), AlterError>(e),
        },
{
    read_name_field(
        input,
        AlterError::Missing { op, field: AlterField::NewNameLength },
        AlterError::Missing { op, field: AlterField::NewName },
        AlterError::InvalidNewName { op },
    )
}

fn read_detail_fields(input: &[u8], op: u8, table: String) -> (r: Result<AlterTable, AlterError>)
    ensures
        match r {
            Ok(a) => read_detail(input@, op, table@) == Ok::<AlterV, AlterError>(a@),
            Err(e) => read_detail(input@, op, table@) == Err::<AlterV, AlterError>(e),
        },
{
    if op == 1 {
        match read_column_spec_fields(input, op) {
            Err(e) => Err(e),
            Ok(((column, data_type, vector_dimensions, nullable), b1)) => {
                match read_late_expr_field(b1, AlterError::InvalidDefaultExpr) {
                    Err(e) => Err(e),
                    Ok((default_expr, _)) => Ok(
                        AlterTable::AddColumn {
                            table,
                            column,
                            data_type,
                            nullable,
                            default_expr,
                            vector_dimensions,
                        },
                    ),
                }
            },
        }
    } else if op == 2 || op == 3 {
        match read_name_field(
            input,
            AlterError::Missing { op, field: AlterField::NameLength },
            AlterError::Missing { op, field: AlterField::Name },
            AlterError::InvalidName { op },
        ) {
            Err(e) => Err(e),
            Ok((name, b1)) => if op == 2 {
                Ok(AlterTable::DropColumn { table, column: name })
            } else {
                match read_new_name_field(b1, op) {
                    Err(e) => Err(e),
                    Ok((new_name, _)) => Ok(
                        AlterTable::RenameColumn { table, old_name: name, new_name },
                    ),
                }
            },
        }
    } else if op == 4 {
        match read_column_spec_fields(input, op) {
            Err(e) => Err(e),
            Ok(((column, data_type, vector_dimensions, nullable), _)) => Ok(
                AlterTable::ModifyColumn { table, column, data_type, nullable, vector_dimensions },
            ),
        }
    } else if op == 5 {
        match read_new_name_field(input, op) {
            Err(e) => Err(e),
            Ok((new_name, _)) => Ok(AlterTable::RenameTable { table, new_name }),
        }
    } else if op == 6 {
        match take_u16(input) {
            None => Err(AlterError::Missing { op, field: AlterField::KeyCount }),
            Some((count, b1)) => match read_key_fields(b1, count as usize) {
                None => Err(AlterError::Missing { op, field: AlterField::KeyColumn }),
                Some(key) => Ok(AlterTable::ClusterBy { table, key }),
            },
        }
    } else {
        Err(AlterError::UnknownOperation { op })
    }
}

/// Reads the record of a change to a table.
pub fn decode_alter_table(data: &[u8]) -> (r: Result<AlterTable, AlterError>)
    ensures
        match r {
            Ok(a) => read_alter(data@) == Ok::<AlterV, AlterError>(a@),
            Err(e) => read_alter(data@) == Err::<AlterV, AlterError>(e),
        },
{
    if data.len() == 0 {
        return Err(AlterError::Empty);
    }
    match read_name_field(
        skip_bytes(data, 1),
        AlterError::MissingTableNameLength,
        AlterError::MissingTableName,
        AlterError::InvalidTableName,
    ) {
        Err(e) => Err(e),
        Ok((table, b1)) => read_detail_fields(b1, data[0], table),
    }
}

// ---------------------------------------------------------------------------
// What is recorded is replayed
// ---------------------------------------------------------------------------

/// Whether every part of a change can be stored.
pub open spec fn storable_change(a: AlterV) -> bool {
    &&& fits16(table_of(a))
    &&& match a {
        AlterV::AddColumn {
            table,
            column,
            data_type,
            nullable,
            default_expr,
            vector_dimensions,
        } => fits16(column) && optional_fits16(default_expr) && vector_dimensions < 0x1_0000 && (
        data_type != DataType::Vector ==> vector_dimensions == 0),
        AlterV::DropColumn { table, column } => fits16(column),
        AlterV::RenameColumn { table, old_name, new_name } => fits16(old_name) && fits16(new_name),
        AlterV::ModifyColumn { table, column, data_type, nullable, vector_dimensions } => fits16(
            column,
        ) && vector_dimensions < 0x1_0000 && (data_type != DataType::Vector ==> vector_dimensions
            == 0),
        AlterV::RenameTable { table, new_name } => fits16(new_name),
        AlterV::ClusterBy { table, key } => key.len() < 0x1_0000 && forall|i: int|
            0 <= i < key.len() ==> #[trigger] key[i] < 0x1_0000,
    }
}

proof fn lemma_read_known_type(t: DataType, dimensions: nat, rest: Seq<u8>, op: u8)
    requires
        dimensions < 0x1_0000,
        t != DataType::Vector ==> dimensions == 0,
    ensures
        read_known_type(type_bytes(t, dimensions) + rest, op) == Ok::<
            ((DataType, nat), Seq<u8>),
            AlterError,
        >(((t, dimensions), rest)),
{
    let b = type_bytes(t, dimensions) + rest;
    assert(b[0] == type_tag(t));
    assert(type_of_tag(type_tag(t)) == t);
    if t == DataType::Vector {
        lemma_byte_range();
        lemma_split_le(dimensions, 2, rest);
        assert(b.skip(1) =~= le_bytes(dimensions, 2) + rest);
    } else {
        assert(b.skip(1) =~= rest);
    }
}

proof fn lemma_read_column_spec(
    column: Seq<char>,
    t: DataType,
    dimensions: nat,
    nullable: bool,
    rest: Seq<u8>,
    op: u8,
)
    requires
        fits16(column),
        dimensions < 0x1_0000,
        t != DataType::Vector ==> dimensions == 0,
    ensures
        read_column_spec(
            text16(column) + (type_bytes(t, dimensions) + (flag_byte(nullable) + rest)),
            op,
        ) == Ok::<((Seq<char>, DataType, nat, bool), Seq<u8>), AlterError>(
            ((column, t, dimensions, nullable), rest),
        ),
{
    let r1 = flag_byte(nullable) + rest;
    let r0 = type_bytes(t, dimensions) + r1;
    lemma_read_name(
        column,
        r0,
        AlterError::Missing { op, field: AlterField::NameLength },
        AlterError::Missing { op, field: AlterField::Name },
        AlterError::InvalidName { op },
    );
    lemma_read_known_type(t, dimensions, r1, op);
    assert(r1.skip(1) =~= rest);
}

proof fn lemma_read_key(ps: Seq<nat>)
    requires
        forall|k: int| 0 <= k < ps.len() ==> #[trigger] ps[k] < 0x1_0000,
    ensures
        read_key(positions_bytes(ps), ps.len()) == Some(ps),
    decreases ps.len(),
{
    if ps.len() == 0 {
        assert(ps =~= Seq::empty());
    } else {
        let more = ps.skip(1);
        lemma_byte_range();
        lemma_split_le(ps[0], 2, positions_bytes(more));
        assert(forall|i: int| 0 <= i < more.len() ==> #[trigger] more[i] == ps[i + 1]);
        lemma_read_key(more);
        assert(seq![ps[0]] + more =~= ps);
    }
}

proof fn lemma_read_detail(a: AlterV)
    requires
        storable_change(a),
    ensures
        read_detail(detail_bytes(a), op_of(a), table_of(a)) == Ok::<AlterV, AlterError>(a),
{
    let op = op_of(a);
    let nothing = Seq::<u8>::empty();
    let e1 = AlterError::Missing { op, field: AlterField::NameLength };
    let e2 = AlterError::Missing { op, field: AlterField::Name };
    let e3 = AlterError::InvalidName { op };
    let n1 = AlterError::Missing { op, field: AlterField::NewNameLength };
    let n2 = AlterError::Missing { op, field: AlterField::NewName };
    let n3 = AlterError::InvalidNewName { op };
    match a {
        AlterV::AddColumn {
            table,
            column,
            data_type,
            nullable,
            default_expr,
            vector_dimensions,
        } => {
            let rest = optional_text16(default_expr);
            lemma_read_column_spec(column, data_type, vector_dimensions, nullable, rest, op);
            lemma_join_nothing(rest);
            lemma_read_late_expr(default_expr, nothing, AlterError::InvalidDefaultExpr);
        },
        AlterV::DropColumn { table, column } => {
            lemma_join_nothing(text16(column));
            lemma_read_name(column, nothing, e1, e2, e3);
        },
        AlterV::RenameColumn { table, old_name, new_name } => {
            lemma_read_name(old_name, text16(new_name), e1, e2, e3);
            lemma_join_nothing(text16(new_name));
            lemma_read_name(new_name, nothing, n1, n2, n3);
        },
        AlterV::ModifyColumn { table, column, data_type, nullable, vector_dimensions } => {
            lemma_join_nothing(flag_byte(nullable));
            lemma_read_column_spec(column, data_type, vector_dimensions, nullable, nothing, op);
        },
        AlterV::RenameTable { table, new_name } => {
            lemma_join_nothing(text16(new_name));
            lemma_read_name(new_name, nothing, n1, n2, n3);
        },
        AlterV::ClusterBy { table, key } => {
            lemma_byte_range();
            lemma_split_le(key.len(), 2, positions_bytes(key));
            lemma_read_key(key);
        },
    }
}

/// A change is replayed as it was recorded.
pub proof fn alter_round_trip(a: AlterV)
    requires
        storable_change(a),
    ensures
        read_alter(alter_bytes(a)) == Ok::<AlterV, AlterError>(a),
{
    let b = alter_bytes(a);
    assert(b[0] == op_of(a));
    assert(b.skip(1) =~= text16(table_of(a)) + detail_bytes(a));
    lemma_read_name(
        table_of(a),
        detail_bytes(a),
        AlterError::MissingTableNameLength,
        AlterError::MissingTableName,
        AlterError::InvalidTableName,
    );
    lemma_read_detail(a);
}

} // verus!
