//! Writing schemas to log records and snapshots, and reading them back.

use crate::bytes::{
    i64_bits, i64_from_bits, i64_to_bits, le_bytes, lemma_join_assoc, lemma_join_nothing,
    push_bytes, push_le, skip_bytes, take_bytes, take_u16, take_u64,
};
use crate::schema::{
    ColumnV, DataType, ForeignKeyAction, ForeignKeyConstraint, ForeignKeyV, Schema, SchemaColumn,
    SchemaV, action_tag, blob_view, column_views, copy_blob, foreign_key_views, position_views,
    text_view, type_tag,
};
use crate::schema_format::{
    ColumnField, SchemaError, SchemaForm, assemble, cluster_key_section, column_bytes,
    columns_bytes, default_bytes, defaults_bytes, defaults_section, flag_byte, foreign_key_bytes,
    foreign_keys_bytes, foreign_keys_section, head_bytes, log_schema_bytes, optional_text16,
    positions_bytes, read_column, read_columns, read_defaults, read_expr, read_exprs, read_flag,
    read_flags, read_foreign_key, read_foreign_keys, read_head, read_late_expr, read_lenient_text,
    read_log_schema, read_name, read_positions, read_snapshot_schema, read_time, read_type,
    sections_bytes, snapshot_schema_bytes, text16, times_bytes, type_bytes, with_defaults,
};
use crate::text::utf8_string;
use vstd::prelude::*;
use vstd::string::*;
use vstd::utf8::*;

verus! {

// ---------------------------------------------------------------------------
// Writing
// ---------------------------------------------------------------------------

/// Appends a text behind its length in two bytes.
pub fn push_text16(out: &mut Vec<u8>, s: &str)
    ensures
        final(out)@ == old(out)@ + text16(s@),
{
    reveal(text16);
    let bytes = s.as_bytes();
    push_le(out, bytes.len() as u64, 2);
    push_bytes(out, bytes);
    proof {
        lemma_join_assoc(old(out)@, le_bytes(bytes@.len(), 2), bytes@);
    }
}

/// Appends an optional text behind its length in two bytes.
pub fn push_optional_text16(out: &mut Vec<u8>, o: &Option<String>)
    ensures
        final(out)@ == old(out)@ + optional_text16(text_view(*o)),
{
    match o {
        Some(s) => push_text16(out, s.as_str()),
        None => push_le(out, 0, 2),
    }
}

/// Appends a flag in one byte.
pub fn push_flag(out: &mut Vec<u8>, b: bool)
    ensures
        final(out)@ == old(out)@ + flag_byte(b),
{
    out.push(
        if b {
            1
        } else {
            0
        },
    );
    assert(out@ =~= old(out)@ + flag_byte(b));
}

/// Appends the tag of a type, and the dimensions of a vector.
pub fn push_type(out: &mut Vec<u8>, t: DataType, dimensions: u16)
    ensures
        final(out)@ == old(out)@ + type_bytes(t, dimensions as nat),
{
    out.push(t.as_u8());
    assert(out@ =~= old(out)@ + seq![type_tag(t)]);
    if t == DataType::Vector {
        push_le(out, dimensions as u64, 2);
        proof {
            lemma_join_assoc(old(out)@, seq![type_tag(t)], le_bytes(dimensions as nat, 2));
        }
    }
}

fn push_column(out: &mut Vec<u8>, c: &SchemaColumn)
    ensures
        final(out)@ == old(out)@ + column_bytes(c@),
{
    let ghost start = out@;
    let ghost v = c@;
    push_text16(out, c.name.as_str());
    push_type(out, c.data_type, c.vector_dimensions);
    push_flag(out, c.nullable);
    push_flag(out, c.primary_key);
    push_flag(out, c.auto_increment);
    push_optional_text16(out, &c.default_expr);
    push_optional_text16(out, &c.check_expr);
    proof {
        let y0 = text16(v.name);
        let y1 = type_bytes(v.data_type, v.vector_dimensions);
        let y2 = flag_byte(v.nullable);
        let y3 = flag_byte(v.primary_key);
        let y4 = flag_byte(v.auto_increment);
        let y5 = optional_text16(v.default_expr);
        let y6 = optional_text16(v.check_expr);
        lemma_join_assoc(start + y0 + y1 + y2 + y3 + y4, y5, y6);
        lemma_join_assoc(start + y0 + y1 + y2 + y3, y4, y5 + y6);
        lemma_join_assoc(start + y0 + y1 + y2, y3, y4 + (y5 + y6));
        lemma_join_assoc(start + y0 + y1, y2, y3 + (y4 + (y5 + y6)));
        lemma_join_assoc(start + y0, y1, y2 + (y3 + (y4 + (y5 + y6))));
        lemma_join_assoc(start, y0, y1 + (y2 + (y3 + (y4 + (y5 + y6)))));
    }
}

fn push_columns(out: &mut Vec<u8>, columns: &Vec<SchemaColumn>)
    ensures
        final(out)@ == old(out)@ + columns_bytes(column_views(columns@)),
{
    let ghost views = column_views(columns@);
    let mut i: usize = 0;
    assert(views.skip(0) =~= views);
    while i < columns.len()
        invariant
            i <= columns@.len(),
            views == column_views(columns@),
            out@ + columns_bytes(views.skip(i as int)) == old(out)@ + columns_bytes(views),
        decreases columns@.len() - i,
    {
        let ghost before = out@;
        push_column(out, &columns[i]);
        proof {
            let tail = views.skip(i as int);
            assert(tail.skip(1) =~= views.skip(i + 1));
            assert(tail[0] == columns@[i as int]@);
            lemma_join_assoc(before, column_bytes(tail[0]), columns_bytes(tail.skip(1)));
        }
        i = i + 1;
    }
    proof {
        lemma_join_nothing(out@);
        assert(columns_bytes(views.skip(i as int)) =~= Seq::empty());
    }
}

fn push_foreign_key(out: &mut Vec<u8>, k: &ForeignKeyConstraint)
    ensures
        final(out)@ == old(out)@ + foreign_key_bytes(k@),
{
    let ghost start = out@;
    let ghost v = k@;
    push_le(out, k.column_index as u64, 2);
    push_text16(out, k.column_name.as_str());
    push_text16(out, k.referenced_table.as_str());
    push_text16(out, k.referenced_column.as_str());
    let ghost mid = out@;
    out.push(k.on_delete.as_u8());
    out.push(k.on_update.as_u8());
    proof {
        let y0 = le_bytes(v.column_index, 2);
        let y1 = text16(v.column_name);
        let y2 = text16(v.referenced_table);
        let y3 = text16(v.referenced_column);
        let y4 = seq![action_tag(v.on_delete), action_tag(v.on_update)];
        assert(out@ =~= mid + y4);
        lemma_join_assoc(start + y0 + y1 + y2, y3, y4);
        lemma_join_assoc(start + y0 + y1, y2, y3 + y4);
        lemma_join_assoc(start + y0, y1, y2 + (y3 + y4));
        lemma_join_assoc(start, y0, y1 + (y2 + (y3 + y4)));
    }
}

fn push_foreign_keys(out: &mut Vec<u8>, keys: &Vec<ForeignKeyConstraint>)
    ensures
        final(out)@ == old(out)@ + foreign_keys_bytes(foreign_key_views(keys@)),
{
    let ghost views = foreign_key_views(keys@);
    let mut i: usize = 0;
    assert(views.skip(0) =~= views);
    while i < keys.len()
        invariant
            i <= keys@.len(),
            views == foreign_key_views(keys@),
            out@ + foreign_keys_bytes(views.skip(i as int)) == old(out)@ + foreign_keys_bytes(
                views,
            ),
        decreases keys@.len() - i,
    {
        let ghost before = out@;
        push_foreign_key(out, &keys[i]);
        proof {
            let tail = views.skip(i as int);
            assert(tail.skip(1) =~= views.skip(i + 1));
            assert(tail[0] == keys@[i as int]@);
            lemma_join_assoc(before, foreign_key_bytes(tail[0]), foreign_keys_bytes(tail.skip(1)));
        }
        i = i + 1;
    }
    proof {
        lemma_join_nothing(out@);
        assert(foreign_keys_bytes(views.skip(i as int)) =~= Seq::empty());
    }
}

fn push_default(out: &mut Vec<u8>, o: &Option<Vec<u8>>)
    ensures
        final(out)@ == old(out)@ + default_bytes(blob_view(*o)),
{
    match o {
        Some(b) => {
            push_le(out, b.len() as u64, 2);
            push_bytes(out, b.as_slice());
            proof {
                lemma_join_assoc(old(out)@, le_bytes(b@.len(), 2), b@);
            }
        },
        None => push_le(out, 0, 2),
    }
}

fn push_defaults(out: &mut Vec<u8>, columns: &Vec<SchemaColumn>)
    ensures
        final(out)@ == old(out)@ + defaults_bytes(column_views(columns@)),
{
    let ghost views = column_views(columns@);
    let mut i: usize = 0;
    assert(views.skip(0) =~= views);
    while i < columns.len()
        invariant
            i <= columns@.len(),
            views == column_views(columns@),
            out@ + defaults_bytes(views.skip(i as int)) == old(out)@ + defaults_bytes(views),
        decreases columns@.len() - i,
    {
        let ghost before = out@;
        push_default(out, &columns[i].default_value);
        proof {
            let tail = views.skip(i as int);
            assert(tail.skip(1) =~= views.skip(i + 1));
            assert(tail[0] == columns@[i as int]@);
            lemma_join_assoc(
                before,
                default_bytes(tail[0].default_value),
                defaults_bytes(tail.skip(1)),
            );
        }
        i = i + 1;
    }
    proof {
        lemma_join_nothing(out@);
        assert(defaults_bytes(views.skip(i as int)) =~= Seq::empty());
    }
}

/// Appends positions in two bytes each.
pub fn push_positions(out: &mut Vec<u8>, positions: &Vec<usize>)
    ensures
        final(out)@ == old(out)@ + positions_bytes(position_views(positions@)),
{
    let ghost views = position_views(positions@);
    let mut i: usize = 0;
    assert(views.skip(0) =~= views);
    while i < positions.len()
        invariant
            i <= positions@.len(),
            views == position_views(positions@),
            out@ + positions_bytes(views.skip(i as int)) == old(out)@ + positions_bytes(views),
        decreases positions@.len() - i,
    {
        let ghost before = out@;
        push_le(out, positions[i] as u64, 2);
        proof {
            let tail = views.skip(i as int);
            assert(tail.skip(1) =~= views.skip(i + 1));
            assert(tail[0] == positions@[i as int] as nat);
            lemma_join_assoc(before, le_bytes(tail[0], 2), positions_bytes(tail.skip(1)));
        }
        i = i + 1;
    }
    proof {
        lemma_join_nothing(out@);
        assert(positions_bytes(views.skip(i as int)) =~= Seq::empty());
    }
}

fn push_head(out: &mut Vec<u8>, schema: &Schema)
    ensures
        final(out)@ == old(out)@ + head_bytes(schema@),
{
    let ghost start = out@;
    let ghost v = schema@;
    push_text16(out, schema.table_name.as_str());
    push_le(out, schema.columns.len() as u64, 2);
    push_columns(out, &schema.columns);
    proof {
        let y0 = text16(v.table_name);
        let y1 = le_bytes(v.columns.len(), 2);
        let y2 = columns_bytes(v.columns);
        lemma_join_assoc(start + y0, y1, y2);
        lemma_join_assoc(start, y0, y1 + y2);
    }
}

fn push_sections(out: &mut Vec<u8>, schema: &Schema)
    ensures
        final(out)@ == old(out)@ + sections_bytes(schema@, 3),
{
    let ghost start = out@;
    let ghost v = schema@;
    push_le(out, schema.foreign_keys.len() as u64, 2);
    push_foreign_keys(out, &schema.foreign_keys);
    proof {
        lemma_join_assoc(start, le_bytes(v.foreign_keys.len(), 2), foreign_keys_bytes(v.foreign_keys));
    }
    let ghost second = out@;
    push_le(out, schema.columns.len() as u64, 2);
    push_defaults(out, &schema.columns);
    proof {
        lemma_join_assoc(second, le_bytes(v.columns.len(), 2), defaults_bytes(v.columns));
    }
    let ghost third = out@;
    push_le(out, schema.cluster_key.len() as u64, 2);
    push_positions(out, &schema.cluster_key);
    proof {
        lemma_join_assoc(third, le_bytes(v.cluster_key.len(), 2), positions_bytes(v.cluster_key));
        lemma_join_assoc(start + foreign_keys_section(v), defaults_section(v), cluster_key_section(v));
        lemma_join_assoc(
            start,
            foreign_keys_section(v),
            defaults_section(v) + cluster_key_section(v),
        );
    }
}

/// The schema as a log record holds it. A length or a count of 2^16 or more is stored by its low
/// two bytes.
pub fn serialize_schema(schema: &Schema) -> (buf: Vec<u8>)
    ensures
        buf@ == log_schema_bytes(schema@, 3),
{
    let mut buf: Vec<u8> = Vec::new();
    push_head(&mut buf, schema);
    push_sections(&mut buf, schema);
    assert(buf@ =~= log_schema_bytes(schema@, 3));
    buf
}

/// The schema as a snapshot holds it. A length or a count of 2^16 or more is stored by its low two
/// bytes.
pub fn serialize_snapshot_schema(schema: &Schema) -> (buf: Vec<u8>)
    ensures
        buf@ == snapshot_schema_bytes(schema@, 3),
{
    let mut buf: Vec<u8> = Vec::new();
    push_head(&mut buf, schema);
    let ghost head = buf@;
    push_le(&mut buf, i64_to_bits(schema.created_at), 8);
    push_le(&mut buf, i64_to_bits(schema.updated_at), 8);
    push_sections(&mut buf, schema);
    proof {
        let v = schema@;
        let y1 = le_bytes(i64_bits(v.created_at), 8);
        let y2 = le_bytes(i64_bits(v.updated_at), 8);
        lemma_join_assoc(head, y1, y2);
        lemma_join_assoc(head, times_bytes(v), sections_bytes(v, 3));
        assert(head =~= head_bytes(v));
    }
    buf
}

// ---------------------------------------------------------------------------
// Reading
// ---------------------------------------------------------------------------

/// Reads a length in two bytes and that much UTF-8.
pub fn read_name_field<E>(input: &[u8], no_length: E, no_text: E, not_utf8: E) -> (r: Result<
    (String, &[u8]),
    E,
>)
    ensures
        match r {
            Ok((s, rest)) => read_name(input@, no_length, no_text, not_utf8) == Ok::<
                (Seq<char>, Seq<u8>),
                E,
            >((s@, rest@)),
            Err(e) => read_name(input@, no_length, no_text, not_utf8) == Err::<
                (Seq<char>, Seq<u8>),
                E,
            >(e),
        },
{
    reveal(read_name);
    match take_u16(input) {
        None => Err(no_length),
        Some((n, b1)) => match take_bytes(b1, n as usize) {
            None => Err(no_text),
            Some((text, b2)) => match utf8_string(text) {
                Some(s) => Ok((s, b2)),
                None => Err(not_utf8),
            },
        },
    }
}

fn read_expr_field(
    input: &[u8],
    no_length: SchemaError,
    no_text: SchemaError,
    not_utf8: SchemaError,
) -> (r: Result<(Option<String>, &[u8]), SchemaError>)
    ensures
        match r {
            Ok((s, rest)) => read_expr(input@, no_length, no_text, not_utf8) == Ok::<
                (Option<Seq<char>>, Seq<u8>),
                SchemaError,
            >((text_view(s), rest@)),
            Err(e) => read_expr(input@, no_length, no_text, not_utf8) == Err::<
                (Option<Seq<char>>, Seq<u8>),
                SchemaError,
            >(e),
        },
{
    match take_u16(input) {
        None => Err(no_length),
        Some((n, b1)) => if n == 0 {
            Ok((None, b1))
        } else {
            match read_name_field(input, no_length, no_text, not_utf8) {
                Ok((s, b2)) => Ok((Some(s), b2)),
                Err(e) => Err(e),
            }
        },
    }
}

/// Reads an expression that may be missing at the end.
pub fn read_late_expr_field<E>(input: &[u8], not_utf8: E) -> (r: Result<
    (Option<String>, &[u8]),
    E,
>)
    ensures
        match r {
            Ok((s, rest)) => read_late_expr(input@, not_utf8) == Ok::<
                (Option<Seq<char>>, Seq<u8>),
                E,
            >((text_view(s), rest@)),
            Err(e) => read_late_expr(input@, not_utf8) == Err::<
                (Option<Seq<char>>, Seq<u8>),
                E,
            >(e),
        },
{
    match take_u16(input) {
        None => Ok((None, input)),
        Some((n, b1)) => if n == 0 {
            Ok((None, b1))
        } else {
            match take_bytes(b1, n as usize) {
                None => Ok((None, b1)),
                Some((text, b2)) => match utf8_string(text) {
                    Some(s) => Ok((Some(s), b2)),
                    None => Err(not_utf8),
                },
            }
        },
    }
}

fn read_flag_field(input: &[u8], missing: SchemaError) -> (r: Result<(bool, &[u8]), SchemaError>)
    ensures
        match r {
            Ok((v, rest)) => read_flag(input@, missing) == Ok::<(bool, Seq<u8>), SchemaError>(
                (v, rest@),
            ),
            Err(e) => read_flag(input@, missing) == Err::<(bool, Seq<u8>), SchemaError>(e),
        },
{
    if input.len() == 0 {
        Err(missing)
    } else {
        Ok((input[0] != 0, skip_bytes(input, 1)))
    }
}

fn read_type_field(input: &[u8], missing: SchemaError) -> (r: Result<
    ((DataType, u16), &[u8]),
    SchemaError,
>)
    ensures
        match r {
            Ok(((t, d), rest)) => read_type(input@, missing) == Ok::<
                ((DataType, nat), Seq<u8>),
                SchemaError,
            >(((t, d as nat), rest@)),
            Err(e) => read_type(input@, missing) == Err::<((DataType, nat), Seq<u8>), SchemaError>(
                e,
            ),
        },
{
    if input.len() == 0 {
        return Err(missing);
    }
    let t = DataType::from_tag(input[0]);
    let rest = skip_bytes(input, 1);
    match take_u16(rest) {
        Some((d, more)) => if t == DataType::Vector {
            Ok(((t, d), more))
        } else {
            Ok(((t, 0), rest))
        },
        None => Ok(((t, 0), rest)),
    }
}

fn read_flag_fields(input: &[u8], i: usize, form: SchemaForm) -> (r: Result<
    ((bool, bool, bool), &[u8]),
    SchemaError,
>)
    ensures
        match r {
            Ok((v, rest)) => read_flags(input@, i, form) == Ok::<
                ((bool, bool, bool), Seq<u8>),
                SchemaError,
            >((v, rest@)),
            Err(e) => read_flags(input@, i, form) == Err::<
                ((bool, bool, bool), Seq<u8>),
                SchemaError,
            >(e),
        },
{
    let missing = SchemaError::MissingColumnField { column: i, field: ColumnField::Nullable };
    let (nullable, b1) = match read_flag_field(input, missing) {
        Ok(v) => v,
        Err(e) => {
            return Err(e);
        },
    };
    let missing = SchemaError::MissingColumnField { column: i, field: ColumnField::PrimaryKey };
    let (primary_key, b2) = match read_flag_field(b1, missing) {
        Ok(v) => v,
        Err(e) => {
            return Err(e);
        },
    };
    let missing = SchemaError::MissingColumnField { column: i, field: ColumnField::AutoIncrement };
    match read_flag_field(b2, missing) {
        Ok((auto_increment, b3)) => Ok(((nullable, primary_key, auto_increment), b3)),
        Err(e) => if form == SchemaForm::Log {
            Ok(((nullable, primary_key, false), b2))
        } else {
            Err(e)
        },
    }
}

fn read_expr_fields(input: &[u8], i: usize, form: SchemaForm) -> (r: Result<
    ((Option<String>, Option<String>), &[u8]),
    SchemaError,
>)
    ensures
        match r {
            Ok(((d, c), rest)) => read_exprs(input@, i, form) == Ok::<
                ((Option<Seq<char>>, Option<Seq<char>>), Seq<u8>),
                SchemaError,
            >(((text_view(d), text_view(c)), rest@)),
            Err(e) => read_exprs(input@, i, form) == Err::<
                ((Option<Seq<char>>, Option<Seq<char>>), Seq<u8>),
                SchemaError,
            >(e),
        },
{
    let first = if form == SchemaForm::Log {
        read_late_expr_field(input, SchemaError::InvalidDefaultExpr)
    } else {
        read_expr_field(
            input,
            SchemaError::MissingColumnField { column: i, field: ColumnField::DefaultExprLength },
            SchemaError::MissingColumnField { column: i, field: ColumnField::DefaultExpr },
            SchemaError::InvalidDefaultExpr,
        )
    };
    let (default_expr, b1) = match first {
        Ok(v) => v,
        Err(e) => {
            return Err(e);
        },
    };
    let second = if form == SchemaForm::Log {
        read_late_expr_field(b1, SchemaError::InvalidCheckExpr)
    } else {
        read_expr_field(
            b1,
            SchemaError::MissingColumnField { column: i, field: ColumnField::CheckExprLength },
            SchemaError::MissingColumnField { column: i, field: ColumnField::CheckExpr },
            SchemaError::InvalidCheckExpr,
        )
    };
    match second {
        Ok((check_expr, b2)) => Ok(((default_expr, check_expr), b2)),
        Err(e) => Err(e),
    }
}

fn read_column_fields(input: &[u8], i: usize, form: SchemaForm) -> (r: Result<
    (SchemaColumn, &[u8]),
    SchemaError,
>)
    ensures
        match r {
            Ok((c, rest)) => read_column(input@, i, form) == Ok::<
                (ColumnV, Seq<u8>),
                SchemaError,
            >((c@, rest@)),
            Err(e) => read_column(input@, i, form) == Err::<(ColumnV, Seq<u8>), SchemaError>(e),
        },
{
    let (name, b1) = match read_name_field(
        input,
        SchemaError::MissingColumnField { column: i, field: ColumnField::NameLength },
        SchemaError::MissingColumnField { column: i, field: ColumnField::Name },
        SchemaError::InvalidColumnName,
    ) {
        Ok(v) => v,
        Err(e) => {
            return Err(e);
        },
    };
    let missing = SchemaError::MissingColumnField { column: i, field: ColumnField::DataType };
    let ((data_type, dimensions), b2) = match read_type_field(b1, missing) {
        Ok(v) => v,
        Err(e) => {
            return Err(e);
        },
    };
    let ((nullable, primary_key, auto_increment), b3) = match read_flag_fields(b2, i, form) {
        Ok(v) => v,
        Err(e) => {
            return Err(e);
        },
    };
    let ((default_expr, check_expr), b4) = match read_expr_fields(b3, i, form) {
        Ok(v) => v,
        Err(e) => {
            return Err(e);
        },
    };
    let mut column = SchemaColumn::with_constraints(
        i,
        name.as_str(),
        data_type,
        nullable,
        primary_key,
        auto_increment,
        default_expr,
        check_expr,
    );
    column.vector_dimensions = dimensions;
    Ok((column, b4))
}

fn read_column_list(input: &[u8], count: usize, form: SchemaForm) -> (r: Result<
    (Vec<SchemaColumn>, &[u8]),
    SchemaError,
>)
    ensures
        match r {
            Ok((cs, rest)) => read_columns(input@, 0, count, form) == Ok::<
                (Seq<ColumnV>, Seq<u8>),
                SchemaError,
            >((column_views(cs@), rest@)) && cs@.len() == count,
            Err(e) => read_columns(input@, 0, count, form) == Err::<
                (Seq<ColumnV>, Seq<u8>),
                SchemaError,
            >(e),
        },
{
    let mut columns: Vec<SchemaColumn> = Vec::new();
    let mut rest: &[u8] = input;
    let mut i: usize = 0;
    proof {
        let whole = read_columns(input@, 0, count, form);
        assert(column_views(columns@) =~= Seq::empty());
        match whole {
            Ok((cs, r)) => {
                assert(column_views(columns@) + cs =~= cs);
            },
            Err(e) => {},
        }
    }
    while i < count
        invariant
            i <= count,
            columns@.len() == i,
            read_columns(input@, 0, count, form) == match read_columns(rest@, i, count, form) {
                Ok((cs, r)) => Ok::<(Seq<ColumnV>, Seq<u8>), SchemaError>(
                    (column_views(columns@) + cs, r),
                ),
                Err(e) => Err(e),
            },
        decreases count - i,
    {
        match read_column_fields(rest, i, form) {
            Err(e) => {
                return Err(e);
            },
            Ok((c, more)) => {
                let ghost before = columns@;
                columns.push(c);
                proof {
                    assert(column_views(columns@) =~= column_views(before).push(c@));
                    match read_columns(more@, (i + 1) as usize, count, form) {
                        Ok((cs, r)) => {
                            assert(column_views(before) + (seq![c@] + cs) =~= column_views(columns@)
                                + cs);
                        },
                        Err(e) => {},
                    }
                }
                rest = more;
                i = i + 1;
            },
        }
    }
    assert(column_views(columns@) + Seq::<ColumnV>::empty() =~= column_views(columns@));
    Ok((columns, rest))
}

fn read_lenient_text_field(input: &[u8]) -> (r: Option<(String, &[u8])>)
    ensures
        match r {
            Some((s, rest)) => read_lenient_text(input@) == Some((s@, rest@)),
            None => read_lenient_text(input@) is None,
        },
{
    reveal(read_lenient_text);
    match take_u16(input) {
        None => None,
        Some((n, b1)) => match take_bytes(b1, n as usize) {
            None => None,
            Some((text, b2)) => match utf8_string(text) {
                Some(s) => Some((s, b2)),
                None => Some((String::new(), b2)),
            },
        },
    }
}

fn read_foreign_key_fields(input: &[u8]) -> (r: Option<(ForeignKeyConstraint, &[u8])>)
    ensures
        match r {
            Some((k, rest)) => read_foreign_key(input@) == Some((k@, rest@)),
            None => read_foreign_key(input@) is None,
        },
{
    let (column_index, b1) = match take_u16(input) {
        Some(v) => v,
        None => {
            return None;
        },
    };
    let (column_name, b2) = match read_lenient_text_field(b1) {
        Some(v) => v,
        None => {
            return None;
        },
    };
    let (referenced_table, b3) = match read_lenient_text_field(b2) {
        Some(v) => v,
        None => {
            return None;
        },
    };
    let (referenced_column, b4) = match read_lenient_text_field(b3) {
        Some(v) => v,
        None => {
            return None;
        },
    };
    if b4.len() < 2 {
        return None;
    }
    let key = ForeignKeyConstraint {
        column_index: column_index as usize,
        column_name,
        referenced_table,
        referenced_column,
        on_delete: ForeignKeyAction::from_tag(b4[0]),
        on_update: ForeignKeyAction::from_tag(b4[1]),
    };
    Some((key, skip_bytes(b4, 2)))
}

fn read_foreign_key_list(input: &[u8], count: usize) -> (r: Option<
    (Vec<ForeignKeyConstraint>, &[u8]),
>)
    ensures
        match r {
            Some((ks, rest)) => read_foreign_keys(input@, count as nat) == Some(
                (foreign_key_views(ks@), rest@),
            ),
            None => read_foreign_keys(input@, count as nat) is None,
        },
{
    let mut keys: Vec<ForeignKeyConstraint> = Vec::new();
    let mut rest: &[u8] = input;
    let mut i: usize = 0;
    proof {
        assert(foreign_key_views(keys@) =~= Seq::empty());
        match read_foreign_keys(input@, count as nat) {
            Some((ks, r)) => {
                assert(foreign_key_views(keys@) + ks =~= ks);
            },
            None => {},
        }
    }
    while i < count
        invariant
            i <= count,
            read_foreign_keys(input@, count as nat) == match read_foreign_keys(
                rest@,
                (count - i) as nat,
            ) {
                Some((ks, r)) => Some((foreign_key_views(keys@) + ks, r)),
                None => None,
            },
        decreases count - i,
    {
        match read_foreign_key_fields(rest) {
            None => {
                return None;
            },
            Some((k, more)) => {
                let ghost before = keys@;
                keys.push(k);
                proof {
                    assert(foreign_key_views(keys@) =~= foreign_key_views(before).push(k@));
                    match read_foreign_keys(more@, (count - i - 1) as nat) {
                        Some((ks, r)) => {
                            assert(foreign_key_views(before) + (seq![k@] + ks)
                                =~= foreign_key_views(keys@) + ks);
                        },
                        None => {},
                    }
                }
                rest = more;
                i = i + 1;
            },
        }
    }
    assert(foreign_key_views(keys@) + Seq::<ForeignKeyV>::empty() =~= foreign_key_views(keys@));
    Some((keys, rest))
}

/// The views of a list of optional byte strings.
pub open spec fn blob_views(values: Seq<Option<Vec<u8>>>) -> Seq<Option<Seq<u8>>> {
    values.map_values(|o: Option<Vec<u8>>| blob_view(o))
}

fn read_default_list(input: &[u8], count: usize) -> (r: (Vec<Option<Vec<u8>>>, &[u8]))
    ensures
        (blob_views(r.0@), r.1@) == read_defaults(input@, count as nat),
        r.0@.len() == count,
{
    let mut values: Vec<Option<Vec<u8>>> = Vec::new();
    let mut rest: &[u8] = input;
    let mut i: usize = 0;
    proof {
        assert(blob_views(values@) =~= Seq::empty());
        assert(blob_views(values@) + read_defaults(input@, count as nat).0 =~= read_defaults(
            input@,
            count as nat,
        ).0);
    }
    while i < count
        invariant
            i <= count,
            values@.len() == i,
            read_defaults(input@, count as nat) == (
                blob_views(values@) + read_defaults(rest@, (count - i) as nat).0,
                read_defaults(rest@, (count - i) as nat).1,
            ),
        decreases count - i,
    {
        let ghost before = values@;
        let ghost tail = read_defaults(rest@, (count - i) as nat);
        let mut value: Option<Vec<u8>> = None;
        let mut next: &[u8] = rest;
        match take_u16(rest) {
            None => {
                proof {
                    assert(tail == (Seq::new((count - i) as nat, |k: int| None::<Seq<u8>>), rest@));
                    assert(read_defaults(rest@, (count - i - 1) as nat).0 =~= Seq::new(
                        (count - i - 1) as nat,
                        |k: int| None::<Seq<u8>>,
                    ));
                    assert(tail.0 =~= seq![None::<Seq<u8>>] + read_defaults(
                        rest@,
                        (count - i - 1) as nat,
                    ).0);
                }
            },
            Some((n, b1)) => {
                next = b1;
                if n > 0 {
                    match take_bytes(b1, n as usize) {
                        Some((bytes, b2)) => {
                            value = Some(vstd::slice::slice_to_vec(bytes));
                            next = b2;
                        },
                        None => {},
                    }
                }
            },
        }
        assert(tail == (
            seq![blob_view(value)] + read_defaults(next@, (count - i - 1) as nat).0,
            read_defaults(next@, (count - i - 1) as nat).1,
        ));
        values.push(value);
        proof {
            let more = read_defaults(next@, (count - i - 1) as nat).0;
            assert(blob_views(values@) =~= blob_views(before).push(blob_view(value)));
            assert(blob_views(before) + (seq![blob_view(value)] + more) =~= blob_views(values@)
                + more);
        }
        rest = next;
        i = i + 1;
    }
    assert(blob_views(values@) + Seq::<Option<Seq<u8>>>::empty() =~= blob_views(values@));
    (values, rest)
}

/// Splits `count` positions below `limit` off the front of `input`.
pub fn read_position_list(input: &[u8], count: usize, limit: usize) -> (r: Result<
    Vec<usize>,
    SchemaError,
>)
    ensures
        match r {
            Ok(ps) => read_positions(input@, count as nat, limit as nat) == Ok::<
                Seq<nat>,
                SchemaError,
            >(position_views(ps@)),
            Err(e) => read_positions(input@, count as nat, limit as nat) == Err::<
                Seq<nat>,
                SchemaError,
            >(e),
        },
{
    let mut positions: Vec<usize> = Vec::new();
    let mut rest: &[u8] = input;
    let mut i: usize = 0;
    proof {
        assert(position_views(positions@) =~= Seq::empty());
        match read_positions(input@, count as nat, limit as nat) {
            Ok(ps) => {
                assert(position_views(positions@) + ps =~= ps);
            },
            Err(e) => {},
        }
    }
    while i < count
        invariant
            i <= count,
            read_positions(input@, count as nat, limit as nat) == match read_positions(
                rest@,
                (count - i) as nat,
                limit as nat,
            ) {
                Ok(ps) => Ok::<Seq<nat>, SchemaError>(position_views(positions@) + ps),
                Err(e) => Err(e),
            },
        decreases count - i,
    {
        match take_u16(rest) {
            None => {
                return Err(SchemaError::TruncatedClusterKey);
            },
            Some((p, more)) => {
                if p as usize >= limit {
                    return Err(SchemaError::ClusterKeyPastEnd);
                }
                let ghost before = positions@;
                positions.push(p as usize);
                proof {
                    assert(position_views(positions@) =~= position_views(before).push(p as nat));
                    match read_positions(more@, (count - i - 1) as nat, limit as nat) {
                        Ok(ps) => {
                            assert(position_views(before) + (seq![p as nat] + ps)
                                =~= position_views(positions@) + ps);
                        },
                        Err(e) => {},
                    }
                }
                rest = more;
                i = i + 1;
            },
        }
    }
    assert(position_views(positions@) + Seq::<nat>::empty() =~= position_views(positions@));
    Ok(positions)
}

fn set_defaults(columns: Vec<SchemaColumn>, values: Vec<Option<Vec<u8>>>) -> (r: Vec<SchemaColumn>)
    requires
        values@.len() <= columns@.len(),
    ensures
        column_views(r@) == with_defaults(column_views(columns@), blob_views(values@)),
{
    let mut columns = columns;
    let ghost start = columns@;
    let mut i: usize = 0;
    while i < values.len()
        invariant
            i <= values@.len() <= start.len(),
            columns@.len() == start.len(),
            forall|k: int|
                0 <= k < start.len() ==> (#[trigger] columns@[k])@ == if k < i {
                    (ColumnV { default_value: blob_view(values@[k]), ..start[k]@ })
                } else {
                    start[k]@
                },
        decreases values@.len() - i,
    {
        let mut column = columns[i].duplicate();
        column.default_value = copy_blob(&values[i]);
        columns.set(i, column);
        i = i + 1;
    }
    assert(column_views(columns@) =~= with_defaults(column_views(start), blob_views(values@)));
    columns
}

fn read_head_fields(input: &[u8], form: SchemaForm) -> (r: Result<
    ((String, Vec<SchemaColumn>), &[u8]),
    SchemaError,
>)
    ensures
        match r {
            Ok(((name, columns), rest)) => read_head(input@, form) == Ok::<
                ((Seq<char>, Seq<ColumnV>), Seq<u8>),
                SchemaError,
            >(((name@, column_views(columns@)), rest@)),
            Err(e) => read_head(input@, form) == Err::<
                ((Seq<char>, Seq<ColumnV>), Seq<u8>),
                SchemaError,
            >(e),
        },
{
    if input.len() < 4 {
        return Err(SchemaError::TooShort);
    }
    let (name, b1) = match read_name_field(
        input,
        SchemaError::MissingTableNameLength,
        SchemaError::MissingTableName,
        SchemaError::InvalidTableName,
    ) {
        Ok(v) => v,
        Err(e) => {
            return Err(e);
        },
    };
    let (count, b2) = match take_u16(b1) {
        Some(v) => v,
        None => {
            return Err(SchemaError::MissingColumnCount);
        },
    };
    match read_column_list(b2, count as usize, form) {
        Ok((columns, b3)) => Ok(((name, columns), b3)),
        Err(e) => Err(e),
    }
}

fn finish_schema(
    name: String,
    columns: Vec<SchemaColumn>,
    created_at: i64,
    updated_at: i64,
    input: &[u8],
) -> (r: Result<Schema, SchemaError>)
    ensures
        match r {
            Ok(s) => assemble(
                name@,
                column_views(columns@),
                created_at as int,
                updated_at as int,
                input@,
            ) == Ok::<SchemaV, SchemaError>(s@),
            Err(e) => assemble(
                name@,
                column_views(columns@),
                created_at as int,
                updated_at as int,
                input@,
            ) == Err::<SchemaV, SchemaError>(e),
        },
{
    let ghost views = column_views(columns@);
    let count: usize = columns.len();
    let (foreign_keys, b2) = match take_u16(input) {
        None => {
            let none: Vec<ForeignKeyConstraint> = Vec::new();
            assert(foreign_key_views(none@) =~= Seq::empty());
            (none, input)
        },
        Some((n, b1)) => match read_foreign_key_list(b1, n as usize) {
            Some(v) => v,
            None => {
                return Err(SchemaError::TruncatedForeignKey);
            },
        },
    };
    let (values, b4) = match take_u16(b2) {
        None => {
            let none: Vec<Option<Vec<u8>>> = Vec::new();
            assert(blob_views(none@) =~= Seq::empty());
            (none, b2)
        },
        Some((n, b3)) => {
            let wanted: usize = if (n as usize) < count {
                n as usize
            } else {
                count
            };
            read_default_list(b3, wanted)
        },
    };
    let cluster_key = match take_u16(b4) {
        None => {
            let none: Vec<usize> = Vec::new();
            assert(position_views(none@) =~= Seq::empty());
            none
        },
        Some((n, b5)) => match read_position_list(b5, n as usize, count) {
            Ok(v) => v,
            Err(e) => {
                return Err(e);
            },
        },
    };
    let columns = set_defaults(columns, values);
    let mut schema = Schema::with_timestamps_and_foreign_keys(
        name,
        columns,
        foreign_keys,
        created_at,
        updated_at,
    );
    schema.cluster_key = cluster_key;
    Ok(schema)
}

/// Reads a schema from a log record. Parts that older records lack at their end are filled in;
/// both times are `now`. Default values are in their stored bytes: those that are no value are dropped
/// where the defaults are settled.
pub fn deserialize_schema(data: &[u8], now: i64) -> (r: Result<Schema, SchemaError>)
    ensures
        match r {
            Ok(s) => read_log_schema(data@, now as int) == Ok::<SchemaV, SchemaError>(s@),
            Err(e) => read_log_schema(data@, now as int) == Err::<SchemaV, SchemaError>(e),
        },
{
    match read_head_fields(data, SchemaForm::Log) {
        Ok(((name, columns), rest)) => finish_schema(name, columns, now, now, rest),
        Err(e) => Err(e),
    }
}

fn read_time_field(input: &[u8], now: i64) -> (r: (i64, &[u8]))
    ensures
        (r.0 as int, r.1@) == read_time(input@, now as int),
{
    match take_u64(input) {
        None => (now, input),
        Some((bits, rest)) => {
            let nanos: i64 = i64_from_bits(bits);
            if nanos > 0 {
                (nanos, rest)
            } else {
                (now, rest)
            }
        },
    }
}

/// Reads a schema from a snapshot. Sections that older snapshots lack at their end are filled in;
/// a time that is missing or not after the epoch is `now`. Default values are in their stored bytes:
/// those that are no value are dropped where the defaults are settled.
pub fn deserialize_snapshot_schema(data: &[u8], now: i64) -> (r: Result<Schema, SchemaError>)
    ensures
        match r {
            Ok(s) => read_snapshot_schema(data@, now as int) == Ok::<SchemaV, SchemaError>(s@),
            Err(e) => read_snapshot_schema(data@, now as int) == Err::<SchemaV, SchemaError>(e),
        },
{
    match read_head_fields(data, SchemaForm::Snapshot) {
        Ok(((name, columns), rest)) => {
            let (created_at, b2) = read_time_field(rest, now);
            let (updated_at, b3) = read_time_field(b2, now);
            finish_schema(name, columns, created_at, updated_at, b3)
        },
        Err(e) => Err(e),
    }
}

} // verus!
