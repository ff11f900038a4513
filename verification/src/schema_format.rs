//! The stored forms of a schema.
//!
//! Both forms begin with the table's name and its columns and end with three sections, each of
//! which older files and log records lack: the foreign keys, the encoded default values, and the
//! clustering key. A snapshot has the two times between the columns and the sections.

use crate::bytes::{
    i64_bits, i64_of, le_bytes, lemma_byte_range, lemma_i64_round_trip, lemma_join_assoc,
    lemma_join_nothing, lemma_le_bytes_len, lemma_split_bytes, lemma_split_le, split_bytes, split_le,
};
use crate::schema::{
    ColumnV, DataType, ForeignKeyV, SchemaV, action_of_tag, action_tag, type_of_tag, type_tag,
};
use crate::text::{lemma_utf8_round_trip, unicode_lowercase};
use vstd::prelude::*;
use vstd::utf8::*;

verus! {

/// The parts of a stored column that can be missing.
#[derive(Debug, Clone, Copy, PartialEq, Eq, Structural)]
pub enum ColumnField {
    NameLength,
    Name,
    DataType,
    Nullable,
    PrimaryKey,
    AutoIncrement,
    DefaultExprLength,
    DefaultExpr,
    CheckExprLength,
    CheckExpr,
}

/// Why bytes are not a stored schema.
#[derive(Debug, Clone, Copy, PartialEq, Eq, Structural)]
pub enum SchemaError {
    TooShort,
    MissingTableNameLength,
    MissingTableName,
    InvalidTableName,
    MissingColumnCount,
    MissingColumnField { column: usize, field: ColumnField },
    InvalidColumnName,
    InvalidDefaultExpr,
    InvalidCheckExpr,
    TruncatedForeignKey,
    TruncatedClusterKey,
    ClusterKeyPastEnd,
}

/// The form of the columns: a snapshot has every field of each, a log record may end early.
#[derive(Debug, Clone, Copy, PartialEq, Eq, Structural)]
pub enum SchemaForm {
    Log,
    Snapshot,
}

// ---------------------------------------------------------------------------
// Writing
// ---------------------------------------------------------------------------

/// A text behind its length in two bytes.
#[verifier::opaque]
pub open spec fn text16(s: Seq<char>) -> Seq<u8> {
    le_bytes(encode_utf8(s).len(), 2) + encode_utf8(s)
}

/// An optional text behind its length in two bytes; none has the length 0.
pub open spec fn optional_text16(o: Option<Seq<char>>) -> Seq<u8> {
    match o {
        Some(s) => text16(s),
        None => le_bytes(0, 2),
    }
}

/// A flag in one byte.
pub open spec fn flag_byte(b: bool) -> Seq<u8> {
    seq![if b { 1u8 } else { 0u8 }]
}

/// The tag of a type, and the dimensions of a vector.
pub open spec fn type_bytes(t: DataType, dimensions: nat) -> Seq<u8> {
    if t == DataType::Vector {
        seq![type_tag(t)] + le_bytes(dimensions, 2)
    } else {
        seq![type_tag(t)]
    }
}

/// A stored column.
pub open spec fn column_bytes(c: ColumnV) -> Seq<u8> {
    text16(c.name) + (type_bytes(c.data_type, c.vector_dimensions) + (flag_byte(c.nullable) + (
    flag_byte(c.primary_key) + (flag_byte(c.auto_increment) + (optional_text16(c.default_expr)
        + optional_text16(c.check_expr))))))
}

/// Stored columns, one behind the other.
pub open spec fn columns_bytes(cs: Seq<ColumnV>) -> Seq<u8>
    decreases cs.len(),
{
    if cs.len() == 0 {
        Seq::empty()
    } else {
        column_bytes(cs[0]) + columns_bytes(cs.skip(1))
    }
}

/// A stored foreign key.
pub open spec fn foreign_key_bytes(k: ForeignKeyV) -> Seq<u8> {
    le_bytes(k.column_index, 2) + (text16(k.column_name) + (text16(k.referenced_table) + (text16(
        k.referenced_column,
    ) + seq![action_tag(k.on_delete), action_tag(k.on_update)])))
}

/// Stored foreign keys, one behind the other.
pub open spec fn foreign_keys_bytes(ks: Seq<ForeignKeyV>) -> Seq<u8>
    decreases ks.len(),
{
    if ks.len() == 0 {
        Seq::empty()
    } else {
        foreign_key_bytes(ks[0]) + foreign_keys_bytes(ks.skip(1))
    }
}

/// An encoded default value behind its length in two bytes; none has the length 0.
pub open spec fn default_bytes(o: Option<Seq<u8>>) -> Seq<u8> {
    match o {
        Some(b) => le_bytes(b.len(), 2) + b,
        None => le_bytes(0, 2),
    }
}

/// The encoded default values of columns, one behind the other.
pub open spec fn defaults_bytes(cs: Seq<ColumnV>) -> Seq<u8>
    decreases cs.len(),
{
    if cs.len() == 0 {
        Seq::empty()
    } else {
        default_bytes(cs[0].default_value) + defaults_bytes(cs.skip(1))
    }
}

/// Positions in two bytes each.
pub open spec fn positions_bytes(ps: Seq<nat>) -> Seq<u8>
    decreases ps.len(),
{
    if ps.len() == 0 {
        Seq::empty()
    } else {
        le_bytes(ps[0], 2) + positions_bytes(ps.skip(1))
    }
}

/// The table's name and its columns.
pub open spec fn head_bytes(s: SchemaV) -> Seq<u8> {
    text16(s.table_name) + (le_bytes(s.columns.len(), 2) + columns_bytes(s.columns))
}

/// The two times of a snapshot's schema.
pub open spec fn times_bytes(s: SchemaV) -> Seq<u8> {
    le_bytes(i64_bits(s.created_at), 8) + le_bytes(i64_bits(s.updated_at), 8)
}

/// The section of the foreign keys.
pub open spec fn foreign_keys_section(s: SchemaV) -> Seq<u8> {
    le_bytes(s.foreign_keys.len(), 2) + foreign_keys_bytes(s.foreign_keys)
}

/// The section of the encoded default values.
pub open spec fn defaults_section(s: SchemaV) -> Seq<u8> {
    le_bytes(s.columns.len(), 2) + defaults_bytes(s.columns)
}

/// The section of the clustering key.
pub open spec fn cluster_key_section(s: SchemaV) -> Seq<u8> {
    le_bytes(s.cluster_key.len(), 2) + positions_bytes(s.cluster_key)
}

/// The first `n` sections: foreign keys, default values, clustering key.
pub open spec fn sections_bytes(s: SchemaV, n: nat) -> Seq<u8> {
    if n == 0 {
        Seq::empty()
    } else if n == 1 {
        foreign_keys_section(s)
    } else if n == 2 {
        foreign_keys_section(s) + defaults_section(s)
    } else {
        foreign_keys_section(s) + (defaults_section(s) + cluster_key_section(s))
    }
}

/// A schema as a log record holds it, with the first `n` sections.
pub open spec fn log_schema_bytes(s: SchemaV, n: nat) -> Seq<u8> {
    head_bytes(s) + sections_bytes(s, n)
}

/// A schema as a snapshot holds it, with the first `n` sections.
pub open spec fn snapshot_schema_bytes(s: SchemaV, n: nat) -> Seq<u8> {
    head_bytes(s) + (times_bytes(s) + sections_bytes(s, n))
}

// ---------------------------------------------------------------------------
// Reading
// ---------------------------------------------------------------------------

/// A length in two bytes and that much UTF-8, with the error for each way to fail.
#[verifier::opaque]
pub open spec fn read_name<E>(b: Seq<u8>, no_length: E, no_text: E, not_utf8: E) -> Result<
    (Seq<char>, Seq<u8>),
    E,
> {
    match split_le(b, 2) {
        None => Err(no_length),
        Some((n, b1)) => match split_bytes(b1, n) {
            None => Err(no_text),
            Some((text, b2)) => if valid_utf8(text) {
                Ok((decode_utf8(text), b2))
            } else {
                Err(not_utf8)
            },
        },
    }
}

/// An expression of a snapshot's column; the length 0 stands for none.
pub open spec fn read_expr(
    b: Seq<u8>,
    no_length: SchemaError,
    no_text: SchemaError,
    not_utf8: SchemaError,
) -> Result<(Option<Seq<char>>, Seq<u8>), SchemaError> {
    match split_le(b, 2) {
        None => Err(no_length),
        Some((n, b1)) => if n == 0 {
            Ok((None, b1))
        } else {
            match read_name(b, no_length, no_text, not_utf8) {
                Ok((text, b2)) => Ok((Some(text), b2)),
                Err(e) => Err(e),
            }
        },
    }
}

/// An expression of a log record's column: none where the record ends before it, and none where
/// the text does not fit behind its length.
pub open spec fn read_late_expr<E>(b: Seq<u8>, not_utf8: E) -> Result<
    (Option<Seq<char>>, Seq<u8>),
    E,
> {
    match split_le(b, 2) {
        None => Ok((None, b)),
        Some((n, b1)) => if n == 0 {
            Ok((None, b1))
        } else {
            match split_bytes(b1, n) {
                None => Ok((None, b1)),
                Some((text, b2)) => if valid_utf8(text) {
                    Ok((Some(decode_utf8(text)), b2))
                } else {
                    Err(not_utf8)
                },
            }
        },
    }
}

/// A flag in one byte.
pub open spec fn read_flag(b: Seq<u8>, missing: SchemaError) -> Result<
    (bool, Seq<u8>),
    SchemaError,
> {
    if b.len() == 0 {
        Err(missing)
    } else {
        Ok((b[0] != 0, b.skip(1)))
    }
}

/// A type, and the dimensions of a vector where two more bytes follow.
pub open spec fn read_type(b: Seq<u8>, missing: SchemaError) -> Result<
    ((DataType, nat), Seq<u8>),
    SchemaError,
> {
    if b.len() == 0 {
        Err(missing)
    } else {
        let t = type_of_tag(b[0]);
        match split_le(b.skip(1), 2) {
            Some((dimensions, rest)) => if t == DataType::Vector {
                Ok(((t, dimensions), rest))
            } else {
                Ok(((t, 0), b.skip(1)))
            },
            None => Ok(((t, 0), b.skip(1))),
        }
    }
}

/// The three flags of a column; in a log record the third may be missing and is then `false`.
pub open spec fn read_flags(b: Seq<u8>, i: usize, form: SchemaForm) -> Result<
    ((bool, bool, bool), Seq<u8>),
    SchemaError,
> {
    match read_flag(b, missing_field(i, ColumnField::Nullable)) {
        Err(e) => Err(e),
        Ok((nullable, b1)) => match read_flag(b1, missing_field(i, ColumnField::PrimaryKey)) {
            Err(e) => Err(e),
            Ok((primary_key, b2)) => match read_flag(
                b2,
                missing_field(i, ColumnField::AutoIncrement),
            ) {
                Err(e) => if form == SchemaForm::Log {
                    Ok(((nullable, primary_key, false), b2))
                } else {
                    Err(e)
                },
                Ok((auto_increment, b3)) => Ok(((nullable, primary_key, auto_increment), b3)),
            },
        },
    }
}

/// That `field` of the column at position `i` is missing.
pub open spec fn missing_field(i: usize, field: ColumnField) -> SchemaError {
    SchemaError::MissingColumnField { column: i, field }
}

/// The default expression and the check constraint of a column.
pub open spec fn read_exprs(b: Seq<u8>, i: usize, form: SchemaForm) -> Result<
    ((Option<Seq<char>>, Option<Seq<char>>), Seq<u8>),
    SchemaError,
> {
    let first = if form == SchemaForm::Log {
        read_late_expr(b, SchemaError::InvalidDefaultExpr)
    } else {
        read_expr(
            b,
            missing_field(i, ColumnField::DefaultExprLength),
            missing_field(i, ColumnField::DefaultExpr),
            SchemaError::InvalidDefaultExpr,
        )
    };
    match first {
        Err(e) => Err(e),
        Ok((default_expr, b1)) => {
            let second = if form == SchemaForm::Log {
                read_late_expr(b1, SchemaError::InvalidCheckExpr)
            } else {
                read_expr(
                    b1,
                    missing_field(i, ColumnField::CheckExprLength),
                    missing_field(i, ColumnField::CheckExpr),
                    SchemaError::InvalidCheckExpr,
                )
            };
            match second {
                Err(e) => Err(e),
                Ok((check_expr, b2)) => Ok(((default_expr, check_expr), b2)),
            }
        },
    }
}

/// The column at position `i`.
pub open spec fn read_column(b: Seq<u8>, i: usize, form: SchemaForm) -> Result<
    (ColumnV, Seq<u8>),
    SchemaError,
> {
    match read_name(
        b,
        missing_field(i, ColumnField::NameLength),
        missing_field(i, ColumnField::Name),
        SchemaError::InvalidColumnName,
    ) {
        Err(e) => Err(e),
        Ok((name, b1)) => match read_type(b1, missing_field(i, ColumnField::DataType)) {
            Err(e) => Err(e),
            Ok(((data_type, dimensions), b2)) => match read_flags(b2, i, form) {
                Err(e) => Err(e),
                Ok(((nullable, primary_key, auto_increment), b3)) => match read_exprs(b3, i, form) {
                    Err(e) => Err(e),
                    Ok(((default_expr, check_expr), b4)) => Ok(
                        (
                            ColumnV {
                                id: i as nat,
                                name,
                                name_lower: unicode_lowercase(name),
                                data_type,
                                nullable,
                                primary_key,
                                auto_increment,
                                default_expr,
                                default_value: None,
                                check_expr,
                                vector_dimensions: dimensions,
                            },
                            b4,
                        ),
                    ),
                },
            },
        },
    }
}

/// The columns from position `i` up to `count`.
pub open spec fn read_columns(b: Seq<u8>, i: usize, count: usize, form: SchemaForm) -> Result<
    (Seq<ColumnV>, Seq<u8>),
    SchemaError,
>
    decreases count - i,
{
    if i >= count {
        Ok((Seq::empty(), b))
    } else {
        match read_column(b, i, form) {
            Err(e) => Err(e),
            Ok((c, b1)) => match read_columns(b1, (i + 1) as usize, count, form) {
                Err(e) => Err(e),
                Ok((cs, b2)) => Ok((seq![c] + cs, b2)),
            },
        }
    }
}

/// A text behind its length in two bytes; what is not UTF-8 stands for the empty text.
#[verifier::opaque]
pub open spec fn read_lenient_text(b: Seq<u8>) -> Option<(Seq<char>, Seq<u8>)> {
    match split_le(b, 2) {
        None => None,
        Some((n, b1)) => match split_bytes(b1, n) {
            None => None,
            Some((text, b2)) => if valid_utf8(text) {
                Some((decode_utf8(text), b2))
            } else {
                Some((Seq::empty(), b2))
            },
        },
    }
}

/// A foreign key; none where the bytes end within it.
pub open spec fn read_foreign_key(b: Seq<u8>) -> Option<(ForeignKeyV, Seq<u8>)> {
    match split_le(b, 2) {
        None => None,
        Some((column_index, b1)) => match read_lenient_text(b1) {
            None => None,
            Some((column_name, b2)) => match read_lenient_text(b2) {
                None => None,
                Some((referenced_table, b3)) => match read_lenient_text(b3) {
                    None => None,
                    Some((referenced_column, b4)) => if b4.len() < 2 {
                        None
                    } else {
                        Some(
                            (
                                ForeignKeyV {
                                    column_index,
                                    column_name,
                                    referenced_table,
                                    referenced_column,
                                    on_delete: action_of_tag(b4[0]),
                                    on_update: action_of_tag(b4[1]),
                                },
                                b4.skip(2),
                            ),
                        )
                    },
                },
            },
        },
    }
}

/// `count` foreign keys; none where the bytes end within them.
pub open spec fn read_foreign_keys(b: Seq<u8>, count: nat) -> Option<(Seq<ForeignKeyV>, Seq<u8>)>
    decreases count,
{
    if count == 0 {
        Some((Seq::empty(), b))
    } else {
        match read_foreign_key(b) {
            None => None,
            Some((k, b1)) => match read_foreign_keys(b1, (count - 1) as nat) {
                None => None,
                Some((ks, b2)) => Some((seq![k] + ks, b2)),
            },
        }
    }
}

/// `count` encoded default values: none for a column behind the end of the bytes, and none for a
/// value that does not fit behind its length.
pub open spec fn read_defaults(b: Seq<u8>, count: nat) -> (Seq<Option<Seq<u8>>>, Seq<u8>)
    decreases count,
{
    if count == 0 {
        (Seq::empty(), b)
    } else {
        match split_le(b, 2) {
            None => (Seq::new(count, |i: int| None), b),
            Some((n, b1)) => match split_bytes(b1, n) {
                Some((value, b2)) => if n > 0 {
                    let (vs, b3) = read_defaults(b2, (count - 1) as nat);
                    (seq![Some(value)] + vs, b3)
                } else {
                    let (vs, b3) = read_defaults(b1, (count - 1) as nat);
                    (seq![None] + vs, b3)
                },
                None => {
                    let (vs, b3) = read_defaults(b1, (count - 1) as nat);
                    (seq![None] + vs, b3)
                },
            },
        }
    }
}

/// `columns` with `values` as their encoded default values, as far as there are any.
pub open spec fn with_defaults(columns: Seq<ColumnV>, values: Seq<Option<Seq<u8>>>) -> Seq<
    ColumnV,
> {
    Seq::new(
        columns.len(),
        |i: int|
            if i < values.len() {
                ColumnV { default_value: values[i], ..columns[i] }
            } else {
                columns[i]
            },
    )
}

/// `count` positions below `limit`.
pub open spec fn read_positions(b: Seq<u8>, count: nat, limit: nat) -> Result<
    Seq<nat>,
    SchemaError,
>
    decreases count,
{
    if count == 0 {
        Ok(Seq::empty())
    } else {
        match split_le(b, 2) {
            None => Err(SchemaError::TruncatedClusterKey),
            Some((p, b1)) => if p >= limit {
                Err(SchemaError::ClusterKeyPastEnd)
            } else {
                match read_positions(b1, (count - 1) as nat, limit) {
                    Err(e) => Err(e),
                    Ok(ps) => Ok(seq![p] + ps),
                }
            },
        }
    }
}

/// The table's name and its columns.
pub open spec fn read_head(b: Seq<u8>, form: SchemaForm) -> Result<
    ((Seq<char>, Seq<ColumnV>), Seq<u8>),
    SchemaError,
> {
    if b.len() < 4 {
        Err(SchemaError::TooShort)
    } else {
        match read_name(
            b,
            SchemaError::MissingTableNameLength,
            SchemaError::MissingTableName,
            SchemaError::InvalidTableName,
        ) {
            Err(e) => Err(e),
            Ok((name, b1)) => match split_le(b1, 2) {
                None => Err(SchemaError::MissingColumnCount),
                Some((count, b2)) => match read_columns(b2, 0, count as usize, form) {
                    Err(e) => Err(e),
                    Ok((columns, b3)) => Ok(((name, columns), b3)),
                },
            },
        }
    }
}

/// A time in eight bytes; `now` where it is missing or not after the epoch.
pub open spec fn read_time(b: Seq<u8>, now: int) -> (int, Seq<u8>) {
    match split_le(b, 8) {
        None => (now, b),
        Some((bits, rest)) => if i64_of(bits) > 0 {
            (i64_of(bits), rest)
        } else {
            (now, rest)
        },
    }
}

/// The sections behind the columns `columns`: foreign keys, columns with their default values, and
/// the clustering key.
pub open spec fn read_sections(b: Seq<u8>, columns: Seq<ColumnV>) -> Result<
    (Seq<ForeignKeyV>, Seq<ColumnV>, Seq<nat>),
    SchemaError,
> {
    let keys = match split_le(b, 2) {
        None => Some((Seq::empty(), b)),
        Some((count, b1)) => read_foreign_keys(b1, count),
    };
    match keys {
        None => Err(SchemaError::TruncatedForeignKey),
        Some((foreign_keys, b2)) => {
            let (values, b4) = match split_le(b2, 2) {
                None => (Seq::empty(), b2),
                Some((count, b3)) => read_defaults(
                    b3,
                    if count < columns.len() {
                        count
                    } else {
                        columns.len()
                    },
                ),
            };
            let key = match split_le(b4, 2) {
                None => Ok(Seq::empty()),
                Some((count, b5)) => read_positions(b5, count, columns.len()),
            };
            match key {
                Err(e) => Err(e),
                Ok(cluster_key) => Ok((foreign_keys, with_defaults(columns, values), cluster_key)),
            }
        },
    }
}

/// The schema in a log record; its times are `now`.
pub open spec fn read_log_schema(b: Seq<u8>, now: int) -> Result<SchemaV, SchemaError> {
    match read_head(b, SchemaForm::Log) {
        Err(e) => Err(e),
        Ok(((name, columns), b1)) => assemble(name, columns, now, now, b1),
    }
}

/// The schema in a snapshot; `now` stands in for a time that it lacks.
pub open spec fn read_snapshot_schema(b: Seq<u8>, now: int) -> Result<SchemaV, SchemaError> {
    match read_head(b, SchemaForm::Snapshot) {
        Err(e) => Err(e),
        Ok(((name, columns), b1)) => {
            let (created_at, b2) = read_time(b1, now);
            let (updated_at, b3) = read_time(b2, now);
            assemble(name, columns, created_at, updated_at, b3)
        },
    }
}

/// The schema with the given head and times, and with the sections in `b`.
pub open spec fn assemble(
    name: Seq<char>,
    columns: Seq<ColumnV>,
    created_at: int,
    updated_at: int,
    b: Seq<u8>,
) -> Result<SchemaV, SchemaError> {
    match read_sections(b, columns) {
        Err(e) => Err(e),
        Ok((foreign_keys, columns, cluster_key)) => Ok(
            SchemaV {
                table_name: name,
                table_name_lower: unicode_lowercase(name),
                columns,
                foreign_keys,
                created_at,
                updated_at,
                cluster_key,
            },
        ),
    }
}

// ---------------------------------------------------------------------------
// What is written is read back
// ---------------------------------------------------------------------------

/// Whether a text fits behind a length of two bytes.
pub open spec fn fits16(s: Seq<char>) -> bool {
    encode_utf8(s).len() < 0x1_0000
}

/// Whether an optional text can be told from none: it is not empty, and it fits.
pub open spec fn optional_fits16(o: Option<Seq<char>>) -> bool {
    match o {
        Some(s) => fits16(s) && encode_utf8(s).len() > 0,
        None => true,
    }
}

/// Whether every field of `c`, the column at position `i`, can be stored.
pub open spec fn storable_column(c: ColumnV, i: int) -> bool {
    &&& c.id == i
    &&& c.name_lower == unicode_lowercase(c.name)
    &&& fits16(c.name)
    &&& optional_fits16(c.default_expr)
    &&& optional_fits16(c.check_expr)
    &&& c.vector_dimensions < 0x1_0000
    &&& c.data_type != DataType::Vector ==> c.vector_dimensions == 0
    &&& match c.default_value {
        Some(b) => 0 < b.len() < 0x1_0000,
        None => true,
    }
}

/// Whether every field of `k` can be stored.
pub open spec fn storable_foreign_key(k: ForeignKeyV) -> bool {
    &&& k.column_index < 0x1_0000
    &&& fits16(k.column_name)
    &&& fits16(k.referenced_table)
    &&& fits16(k.referenced_column)
}

/// Whether every part of `s` can be stored: the counts and lengths fit in two bytes, no optional
/// part is present but empty, positions are those of columns, and derived names are as derived.
pub open spec fn storable(s: SchemaV) -> bool {
    &&& fits16(s.table_name)
    &&& s.table_name_lower == unicode_lowercase(s.table_name)
    &&& s.columns.len() < 0x1_0000
    &&& s.foreign_keys.len() < 0x1_0000
    &&& s.cluster_key.len() < 0x1_0000
    &&& forall|i: int| 0 <= i < s.columns.len() ==> storable_column(#[trigger] s.columns[i], i)
    &&& forall|i: int|
        0 <= i < s.foreign_keys.len() ==> storable_foreign_key(#[trigger] s.foreign_keys[i])
    &&& forall|i: int| 0 <= i < s.cluster_key.len() ==> #[trigger] s.cluster_key[i] < s.columns.len()
}

/// `s` with only what its first `n` sections hold.
pub open spec fn with_sections(s: SchemaV, n: nat) -> SchemaV {
    SchemaV {
        foreign_keys: if n >= 1 {
            s.foreign_keys
        } else {
            Seq::empty()
        },
        columns: if n >= 2 {
            s.columns
        } else {
            bare_columns(s.columns)
        },
        cluster_key: if n >= 3 {
            s.cluster_key
        } else {
            Seq::empty()
        },
        ..s
    }
}

/// `c` without its encoded default value.
pub open spec fn bare_column(c: ColumnV) -> ColumnV {
    ColumnV { default_value: None, ..c }
}

/// `cs` without their encoded default values.
pub open spec fn bare_columns(cs: Seq<ColumnV>) -> Seq<ColumnV> {
    cs.map_values(|c: ColumnV| bare_column(c))
}

pub proof fn lemma_read_name<E>(s: Seq<char>, rest: Seq<u8>, e1: E, e2: E, e3: E)
    requires
        fits16(s),
    ensures
        read_name(text16(s) + rest, e1, e2, e3) == Ok::<(Seq<char>, Seq<u8>), E>((s, rest)),
        read_lenient_text(text16(s) + rest) == Some((s, rest)),
{
    reveal(text16);
    reveal(read_name);
    reveal(read_lenient_text);
    let b = encode_utf8(s);
    lemma_byte_range();
    lemma_utf8_round_trip(s);
    lemma_split_le(b.len(), 2, b + rest);
    lemma_split_bytes(b, rest);
    assert(text16(s) + rest =~= le_bytes(b.len(), 2) + (b + rest));
}

proof fn lemma_text16_len(s: Seq<char>)
    ensures
        text16(s).len() >= 2,
{
    reveal(text16);
    lemma_le_bytes_len(encode_utf8(s).len(), 2);
}

proof fn lemma_read_exprs(d: Option<Seq<char>>, c: Option<Seq<char>>, rest: Seq<u8>, i: usize, form: SchemaForm)
    requires
        optional_fits16(d),
        optional_fits16(c),
    ensures
        read_exprs((optional_text16(d) + optional_text16(c)) + rest, i, form) == Ok::<
            ((Option<Seq<char>>, Option<Seq<char>>), Seq<u8>),
            SchemaError,
        >(((d, c), rest)),
{
    lemma_read_optional(
        d,
        optional_text16(c) + rest,
        missing_field(i, ColumnField::DefaultExprLength),
        missing_field(i, ColumnField::DefaultExpr),
        SchemaError::InvalidDefaultExpr,
    );
    lemma_read_optional(
        c,
        rest,
        missing_field(i, ColumnField::CheckExprLength),
        missing_field(i, ColumnField::CheckExpr),
        SchemaError::InvalidCheckExpr,
    );
    assert((optional_text16(d) + optional_text16(c)) + rest =~= optional_text16(d) + (
    optional_text16(c) + rest));
}

pub(crate) proof fn lemma_read_optional(
    o: Option<Seq<char>>,
    rest: Seq<u8>,
    e1: SchemaError,
    e2: SchemaError,
    e3: SchemaError,
)
    requires
        optional_fits16(o),
    ensures
        read_expr(optional_text16(o) + rest, e1, e2, e3) == Ok::<
            (Option<Seq<char>>, Seq<u8>),
            SchemaError,
        >((o, rest)),
        read_late_expr(optional_text16(o) + rest, e3) == Ok::<
            (Option<Seq<char>>, Seq<u8>),
            SchemaError,
        >((o, rest)),
{
    lemma_byte_range();
    lemma_read_late_expr(o, rest, e3);
    match o {
        Some(s) => {
            reveal(text16);
            let b = encode_utf8(s);
            lemma_read_name(s, rest, e1, e2, e3);
            lemma_split_le(b.len(), 2, b + rest);
            assert(text16(s) + rest =~= le_bytes(b.len(), 2) + (b + rest));
        },
        None => {
            lemma_split_le(0, 2, rest);
        },
    }
}

pub proof fn lemma_read_late_expr<E>(o: Option<Seq<char>>, rest: Seq<u8>, e: E)
    requires
        optional_fits16(o),
    ensures
        read_late_expr(optional_text16(o) + rest, e) == Ok::<(Option<Seq<char>>, Seq<u8>), E>(
            (o, rest),
        ),
{
    lemma_byte_range();
    match o {
        Some(s) => {
            reveal(text16);
            let b = encode_utf8(s);
            lemma_split_le(b.len(), 2, b + rest);
            lemma_split_bytes(b, rest);
            lemma_utf8_round_trip(s);
            assert(text16(s) + rest =~= le_bytes(b.len(), 2) + (b + rest));
        },
        None => {
            lemma_split_le(0, 2, rest);
        },
    }
}

pub(crate) proof fn lemma_read_flag(v: bool, rest: Seq<u8>, e: SchemaError)
    ensures
        read_flag(flag_byte(v) + rest, e) == Ok::<(bool, Seq<u8>), SchemaError>((v, rest)),
{
    assert((flag_byte(v) + rest).skip(1) =~= rest);
}

pub(crate) proof fn lemma_read_type(t: DataType, dimensions: nat, rest: Seq<u8>, e: SchemaError)
    requires
        dimensions < 0x1_0000,
        t != DataType::Vector ==> dimensions == 0,
    ensures
        read_type(type_bytes(t, dimensions) + rest, e) == Ok::<
            ((DataType, nat), Seq<u8>),
            SchemaError,
        >(((t, dimensions), rest)),
{
    let b = type_bytes(t, dimensions) + rest;
    assert(b[0] == type_tag(t));
    assert(type_of_tag(type_tag(t)) == t);
    if t == DataType::Vector {
        lemma_byte_range();
        lemma_split_le(dimensions, 2, rest);
        assert(b.skip(1) =~= le_bytes(dimensions, 2) + rest);
    } else {
        assert(b.skip(1) =~= rest);
    }
}

pub(crate) proof fn lemma_read_column(c: ColumnV, rest: Seq<u8>, i: usize, form: SchemaForm)
    requires
        storable_column(c, i as int),
    ensures
        read_column(column_bytes(c) + rest, i, form) == Ok::<(ColumnV, Seq<u8>), SchemaError>(
            (bare_column(c), rest),
        ),
{
    let x4 = optional_text16(c.default_expr) + optional_text16(c.check_expr);
    let x3 = flag_byte(c.auto_increment) + x4;
    let x2 = flag_byte(c.primary_key) + x3;
    let x1 = flag_byte(c.nullable) + x2;
    let x0 = type_bytes(c.data_type, c.vector_dimensions) + x1;
    let r4 = x4 + rest;
    let r3 = flag_byte(c.auto_increment) + r4;
    let r2 = flag_byte(c.primary_key) + r3;
    let r1 = flag_byte(c.nullable) + r2;
    let r0 = type_bytes(c.data_type, c.vector_dimensions) + r1;
    lemma_join_assoc(text16(c.name), x0, rest);
    lemma_join_assoc(type_bytes(c.data_type, c.vector_dimensions), x1, rest);
    lemma_join_assoc(flag_byte(c.nullable), x2, rest);
    lemma_join_assoc(flag_byte(c.primary_key), x3, rest);
    lemma_join_assoc(flag_byte(c.auto_increment), x4, rest);
    lemma_read_name(
        c.name,
        r0,
        missing_field(i, ColumnField::NameLength),
        missing_field(i, ColumnField::Name),
        SchemaError::InvalidColumnName,
    );
    lemma_read_type(
        c.data_type,
        c.vector_dimensions,
        r1,
        missing_field(i, ColumnField::DataType),
    );
    lemma_read_flag(c.nullable, r2, missing_field(i, ColumnField::Nullable));
    lemma_read_flag(c.primary_key, r3, missing_field(i, ColumnField::PrimaryKey));
    lemma_read_flag(c.auto_increment, r4, missing_field(i, ColumnField::AutoIncrement));
    lemma_read_exprs(c.default_expr, c.check_expr, rest, i, form);
}

proof fn lemma_read_columns(cs: Seq<ColumnV>, rest: Seq<u8>, i: usize, form: SchemaForm)
    requires
        i <= cs.len() < 0x1_0000,
        forall|k: int| 0 <= k < cs.len() ==> storable_column(#[trigger] cs[k], k),
    ensures
        read_columns(columns_bytes(cs.skip(i as int)) + rest, i, cs.len() as usize, form) == Ok::<
            (Seq<ColumnV>, Seq<u8>),
            SchemaError,
        >((bare_columns(cs.skip(i as int)), rest)),
    decreases cs.len() - i,
{
    let tail = cs.skip(i as int);
    if i < cs.len() {
        let more = cs.skip(i + 1);
        assert(tail.skip(1) =~= more);
        assert(tail[0] == cs[i as int]);
        assert(columns_bytes(tail) + rest =~= column_bytes(cs[i as int]) + (columns_bytes(more)
            + rest));
        lemma_read_column(cs[i as int], columns_bytes(more) + rest, i, form);
        lemma_read_columns(cs, rest, (i + 1) as usize, form);
        assert(bare_columns(tail) =~= seq![bare_column(cs[i as int])] + bare_columns(more));
    } else {
        assert(columns_bytes(tail) + rest =~= rest);
        assert(bare_columns(tail) =~= Seq::empty());
    }
}

proof fn lemma_read_foreign_key(k: ForeignKeyV, rest: Seq<u8>)
    requires
        storable_foreign_key(k),
    ensures
        read_foreign_key(foreign_key_bytes(k) + rest) == Some((k, rest)),
{
    let tags = seq![action_tag(k.on_delete), action_tag(k.on_update)];
    let x2 = text16(k.referenced_column) + tags;
    let x1 = text16(k.referenced_table) + x2;
    let x0 = text16(k.column_name) + x1;
    let r3 = tags + rest;
    let r2 = text16(k.referenced_column) + r3;
    let r1 = text16(k.referenced_table) + r2;
    let r0 = text16(k.column_name) + r1;
    lemma_join_assoc(le_bytes(k.column_index, 2), x0, rest);
    lemma_join_assoc(text16(k.column_name), x1, rest);
    lemma_join_assoc(text16(k.referenced_table), x2, rest);
    lemma_join_assoc(text16(k.referenced_column), tags, rest);
    lemma_byte_range();
    lemma_split_le(k.column_index, 2, r0);
    let e = SchemaError::TooShort;
    lemma_read_name(k.column_name, r1, e, e, e);
    lemma_read_name(k.referenced_table, r2, e, e, e);
    lemma_read_name(k.referenced_column, r3, e, e, e);
    assert(r3.skip(2) =~= rest);
    assert(r3[0] == tags[0] && r3[1] == tags[1]);
    assert(action_of_tag(tags[0]) == k.on_delete);
    assert(action_of_tag(tags[1]) == k.on_update);
}

pub(crate) proof fn lemma_read_foreign_keys(ks: Seq<ForeignKeyV>, rest: Seq<u8>)
    requires
        forall|k: int| 0 <= k < ks.len() ==> storable_foreign_key(#[trigger] ks[k]),
    ensures
        read_foreign_keys(foreign_keys_bytes(ks) + rest, ks.len()) == Some((ks, rest)),
    decreases ks.len(),
{
    if ks.len() == 0 {
        assert(foreign_keys_bytes(ks) + rest =~= rest);
        assert(ks =~= Seq::empty());
    } else {
        let more = ks.skip(1);
        assert(storable_foreign_key(ks[0]));
        lemma_join_assoc(foreign_key_bytes(ks[0]), foreign_keys_bytes(more), rest);
        lemma_read_foreign_key(ks[0], foreign_keys_bytes(more) + rest);
        assert(forall|i: int| 0 <= i < more.len() ==> #[trigger] more[i] == ks[i + 1]);
        lemma_read_foreign_keys(more, rest);
        assert(seq![ks[0]] + more =~= ks);
    }
}

/// The encoded default values of columns.
pub open spec fn default_values(cs: Seq<ColumnV>) -> Seq<Option<Seq<u8>>> {
    cs.map_values(|c: ColumnV| c.default_value)
}

pub(crate) proof fn lemma_read_defaults(cs: Seq<ColumnV>, rest: Seq<u8>)
    requires
        forall|k: int|
            0 <= k < cs.len() ==> match (#[trigger] cs[k]).default_value {
                Some(b) => 0 < b.len() < 0x1_0000,
                None => true,
            },
    ensures
        read_defaults(defaults_bytes(cs) + rest, cs.len()) == (default_values(cs), rest),
    decreases cs.len(),
{
    if cs.len() == 0 {
        assert(defaults_bytes(cs) + rest =~= rest);
        assert(default_values(cs) =~= Seq::empty());
    } else {
        let more = cs.skip(1);
        let r1 = defaults_bytes(more) + rest;
        lemma_byte_range();
        assert(defaults_bytes(cs) + rest =~= default_bytes(cs[0].default_value) + r1);
        assert(forall|i: int| 0 <= i < more.len() ==> #[trigger] more[i] == cs[i + 1]);
        lemma_read_defaults(more, rest);
        assert(default_values(cs) =~= seq![cs[0].default_value] + default_values(more));
        match cs[0].default_value {
            Some(b) => {
                lemma_split_le(b.len(), 2, b + r1);
                lemma_split_bytes(b, r1);
                assert(default_bytes(cs[0].default_value) + r1 =~= le_bytes(b.len(), 2) + (b + r1));
            },
            None => {
                lemma_split_le(0, 2, r1);
                lemma_split_bytes(Seq::empty(), r1);
                assert(Seq::<u8>::empty() + r1 =~= r1);
            },
        }
    }
}

pub proof fn lemma_read_positions(ps: Seq<nat>, limit: nat, rest: Seq<u8>)
    requires
        limit <= 0x1_0000,
        forall|k: int| 0 <= k < ps.len() ==> #[trigger] ps[k] < limit,
    ensures
        read_positions(positions_bytes(ps) + rest, ps.len(), limit) == Ok::<
            Seq<nat>,
            SchemaError,
        >(ps),
    decreases ps.len(),
{
    if ps.len() == 0 {
        assert(ps =~= Seq::empty());
    } else {
        let more = ps.skip(1);
        let r1 = positions_bytes(more) + rest;
        lemma_byte_range();
        assert(positions_bytes(ps) + rest =~= le_bytes(ps[0], 2) + r1);
        lemma_split_le(ps[0], 2, r1);
        assert(forall|i: int| 0 <= i < more.len() ==> #[trigger] more[i] == ps[i + 1]);
        lemma_read_positions(more, limit, rest);
        assert(seq![ps[0]] + more =~= ps);
    }
}

pub(crate) proof fn lemma_read_head(s: SchemaV, rest: Seq<u8>, form: SchemaForm)
    requires
        storable(s),
    ensures
        read_head(head_bytes(s) + rest, form) == Ok::<
            ((Seq<char>, Seq<ColumnV>), Seq<u8>),
            SchemaError,
        >(((s.table_name, bare_columns(s.columns)), rest)),
{
    let r1 = columns_bytes(s.columns) + rest;
    let r0 = le_bytes(s.columns.len(), 2) + r1;
    assert(head_bytes(s) + rest =~= text16(s.table_name) + r0);
    lemma_read_name(
        s.table_name,
        r0,
        SchemaError::MissingTableNameLength,
        SchemaError::MissingTableName,
        SchemaError::InvalidTableName,
    );
    lemma_byte_range();
    lemma_split_le(s.columns.len(), 2, r1);
    lemma_text16_len(s.table_name);
    lemma_le_bytes_len(s.columns.len(), 2);
    assert(s.columns.skip(0) =~= s.columns);
    lemma_read_columns(s.columns, rest, 0, form);
}

pub(crate) proof fn lemma_read_sections(s: SchemaV, n: nat)
    requires
        storable(s),
        n <= 3,
    ensures
        read_sections(sections_bytes(s, n), bare_columns(s.columns)) == Ok::<
            (Seq<ForeignKeyV>, Seq<ColumnV>, Seq<nat>),
            SchemaError,
        >((with_sections(s, n).foreign_keys, with_sections(s, n).columns, with_sections(s, n).cluster_key)),
{
    lemma_byte_range();
    let columns = bare_columns(s.columns);
    let nothing = Seq::<u8>::empty();
    assert(split_le(nothing, 2) is None);
    let key = positions_bytes(s.cluster_key);
    let r3 = if n == 3 { cluster_key_section(s) } else { nothing };
    let r2 = if n >= 2 { defaults_section(s) + r3 } else { nothing };
    let r1 = if n >= 1 { foreign_keys_section(s) + r2 } else { nothing };
    lemma_join_nothing(defaults_section(s));
    lemma_join_nothing(foreign_keys_section(s));
    assert(sections_bytes(s, n) == r1);
    if n >= 1 {
        lemma_read_foreign_keys(s.foreign_keys, r2);
        lemma_join_assoc(
            le_bytes(s.foreign_keys.len(), 2),
            foreign_keys_bytes(s.foreign_keys),
            r2,
        );
        lemma_split_le(s.foreign_keys.len(), 2, foreign_keys_bytes(s.foreign_keys) + r2);
    }
    if n >= 2 {
        assert forall|k: int| 0 <= k < s.columns.len() implies match (
        #[trigger] s.columns[k]).default_value {
            Some(b) => 0 < b.len() < 0x1_0000,
            None => true,
        } by {
            assert(storable_column(s.columns[k], k));
        }
        lemma_read_defaults(s.columns, r3);
        lemma_join_assoc(le_bytes(s.columns.len(), 2), defaults_bytes(s.columns), r3);
        lemma_split_le(s.columns.len(), 2, defaults_bytes(s.columns) + r3);
        assert(with_defaults(columns, default_values(s.columns)) =~= s.columns);
    } else {
        assert(with_defaults(columns, Seq::empty()) =~= columns);
    }
    if n == 3 {
        lemma_read_positions(s.cluster_key, columns.len(), nothing);
        lemma_join_nothing(key);
        lemma_split_le(s.cluster_key.len(), 2, key);
    }
}

proof fn lemma_read_time(t: int, rest: Seq<u8>, now: int)
    requires
        0 < t <= i64::MAX,
    ensures
        read_time(le_bytes(i64_bits(t), 8) + rest, now) == (t, rest),
{
    lemma_i64_round_trip(t);
    lemma_split_le(i64_bits(t), 8, rest);
}

/// A schema that a log record holds is read back as it was written, but for its times. A record
/// that ends after its first `n` sections gives what those hold: older records, which lack the
/// later sections, can be read.
pub proof fn log_schema_round_trip(s: SchemaV, n: nat, now: int)
    requires
        storable(s),
        n <= 3,
    ensures
        read_log_schema(log_schema_bytes(s, n), now) == Ok::<SchemaV, SchemaError>(
            SchemaV { created_at: now, updated_at: now, ..with_sections(s, n) },
        ),
{
    lemma_read_head(s, sections_bytes(s, n), SchemaForm::Log);
    lemma_read_sections(s, n);
}

/// A schema that a snapshot holds is read back as it was written, where its times are after the
/// epoch. A snapshot that ends after its first `n` sections gives what those hold: older
/// snapshots, which lack the later sections, can be read.
pub proof fn snapshot_schema_round_trip(s: SchemaV, n: nat, now: int)
    requires
        storable(s),
        n <= 3,
        0 < s.created_at <= i64::MAX,
        0 < s.updated_at <= i64::MAX,
    ensures
        read_snapshot_schema(snapshot_schema_bytes(s, n), now) == Ok::<SchemaV, SchemaError>(
            with_sections(s, n),
        ),
{
    let sections = sections_bytes(s, n);
    lemma_read_head(s, times_bytes(s) + sections, SchemaForm::Snapshot);
    let second = le_bytes(i64_bits(s.updated_at), 8) + sections;
    lemma_join_assoc(
        le_bytes(i64_bits(s.created_at), 8),
        le_bytes(i64_bits(s.updated_at), 8),
        sections,
    );
    lemma_read_time(s.created_at, second, now);
    lemma_read_time(s.updated_at, sections, now);
    lemma_read_sections(s, n);
}

} // verus!
