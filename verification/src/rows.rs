//! Rows, and how one that is older than its table's schema is brought up to it.

use crate::schema::{ColumnV, DataType, Schema};
use vstd::prelude::*;

verus! {

/// A value of a row: NULL of some type, or the encoded form of another value.
#[derive(Debug)]
pub enum ColumnValue {
    Null(DataType),
    Encoded(Vec<u8>),
}

/// A value, with its encoded form as a sequence.
pub enum ValueV {
    Null(DataType),
    Encoded(Seq<u8>),
}

impl View for ColumnValue {
    type V = ValueV;

    open spec fn view(&self) -> ValueV {
        match *self {
            ColumnValue::Null(t) => ValueV::Null(t),
            ColumnValue::Encoded(b) => ValueV::Encoded(b@),
        }
    }
}

/// The views of a row's values.
pub open spec fn value_views(row: Seq<ColumnValue>) -> Seq<ValueV> {
    row.map_values(|v: ColumnValue| v@)
}

/// The value of a column in a row that was written before the column was added: its default, or
/// NULL.
pub open spec fn filler(c: ColumnV) -> ValueV {
    match c.default_value {
        Some(b) => ValueV::Encoded(b),
        None => ValueV::Null(c.data_type),
    }
}

/// A row with a value for every column: as it is where it has enough, else with the fillers of the
/// columns that it lacks.
pub open spec fn padded(row: Seq<ValueV>, columns: Seq<ColumnV>) -> Seq<ValueV> {
    if row.len() >= columns.len() {
        row
    } else {
        row + Seq::new(
            (columns.len() - row.len()) as nat,
            |i: int| filler(columns[row.len() + i]),
        )
    }
}

/// A row with exactly one value for every column.
pub open spec fn normalized(row: Seq<ValueV>, columns: Seq<ColumnV>) -> Seq<ValueV> {
    if row.len() > columns.len() {
        row.take(columns.len() as int)
    } else {
        padded(row, columns)
    }
}

/// Gives a row the fillers of the columns that it lacks.
pub fn pad_row(row: &mut Vec<ColumnValue>, schema: &Schema)
    ensures
        value_views(final(row)@) == padded(value_views(old(row)@), schema@.columns),
{
    let ghost start = value_views(row@);
    let ghost columns = schema@.columns;
    while row.len() < schema.columns.len()
        invariant
            columns == schema@.columns,
            start == value_views(old(row)@),
            row@.len() >= start.len(),
            row@.len() <= columns.len() || row@.len() == start.len(),
            value_views(row@) == start + Seq::new(
                (row@.len() - start.len()) as nat,
                |i: int| filler(columns[start.len() + i]),
            ),
        decreases schema.columns@.len() - row@.len(),
    {
        let i: usize = row.len();
        let value = match &schema.columns[i].default_value {
            Some(b) => ColumnValue::Encoded(vstd::slice::slice_to_vec(b.as_slice())),
            None => ColumnValue::Null(schema.columns[i].data_type),
        };
        let ghost before = row@;
        let ghost v = value@;
        row.push(value);
        proof {
            assert(columns[i as int] == schema.columns@[i as int]@);
            assert(v == filler(columns[i as int]));
            assert(value_views(row@) =~= value_views(before).push(v));
            assert(value_views(row@) =~= start + Seq::new(
                (row@.len() - start.len()) as nat,
                |k: int| filler(columns[start.len() + k]),
            ));
        }
    }
    proof {
        assert(start.len() == old(row)@.len());
        if start.len() >= columns.len() {
            assert(start + Seq::new(
                (row@.len() - start.len()) as nat,
                |i: int| filler(columns[start.len() + i]),
            ) =~= start);
        }
    }
}

/// Gives a row exactly one value for every column.
pub fn normalize_row(row: &mut Vec<ColumnValue>, schema: &Schema)
    ensures
        value_views(final(row)@) == normalized(value_views(old(row)@), schema@.columns),
{
    if row.len() > schema.columns.len() {
        let n: usize = schema.columns.len();
        row.truncate(n);
        assert(value_views(row@) =~= value_views(old(row)@).take(n as int));
    } else {
        pad_row(row, schema);
    }
}

/// A normalized row has one value for every column, and keeps the values that it had.
pub proof fn normalized_row_fits(row: Seq<ValueV>, columns: Seq<ColumnV>)
    ensures
        normalized(row, columns).len() == columns.len(),
        forall|i: int|
            0 <= i < row.len() && i < columns.len() ==> #[trigger] normalized(row, columns)[i]
                == row[i],
        forall|i: int|
            row.len() <= i < columns.len() ==> #[trigger] normalized(row, columns)[i] == filler(
                columns[i],
            ),
        normalized(normalized(row, columns), columns) == normalized(row, columns),
{
    let n = normalized(row, columns);
    assert(normalized(n, columns) =~= n);
}

} // verus!
