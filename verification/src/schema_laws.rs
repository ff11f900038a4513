//! What is refused where a stored schema is cut short or names a column that it lacks.

use crate::bytes::{
    le_bytes, lemma_byte_range, lemma_join_assoc, lemma_join_nothing, lemma_le_bytes_len,
    lemma_split_le, split_le,
};
use crate::schema::{ColumnV, DataType, ForeignKeyV, SchemaV};
use crate::schema_format::{
    ColumnField, SchemaError, SchemaForm, bare_columns, cluster_key_section, column_bytes,
    columns_bytes, defaults_bytes, defaults_section, fits16, flag_byte, foreign_keys_bytes,
    head_bytes, lemma_read_column, lemma_read_defaults, lemma_read_flag,
    lemma_read_foreign_keys, lemma_read_head, lemma_read_name, lemma_read_optional,
    lemma_read_sections, lemma_read_type, log_schema_bytes, missing_field, optional_fits16,
    optional_text16, positions_bytes, read_column, read_columns, read_expr, read_exprs, read_flags,
    read_head, read_log_schema, read_name, read_positions, read_sections, read_snapshot_schema,
    read_type, sections_bytes, snapshot_schema_bytes, storable, storable_column, storable_foreign_key, text16,
    times_bytes, type_bytes, with_sections,
};
use crate::text::{lemma_utf8_round_trip, unicode_lowercase};
use vstd::prelude::*;
use vstd::utf8::*;

verus! {

// ---------------------------------------------------------------------------
// What is stored of a column
// ---------------------------------------------------------------------------

/// An optional text as it is read back: an empty one is none.
pub open spec fn kept_text(o: Option<Seq<char>>) -> Option<Seq<char>> {
    match o {
        Some(t) => if t.len() > 0 {
            Some(t)
        } else {
            None
        },
        None => None,
    }
}

/// `c`, a column at position `i`, as it is stored.
pub open spec fn stored_column(c: ColumnV, i: int) -> ColumnV {
    ColumnV {
        id: i as nat,
        name_lower: unicode_lowercase(c.name),
        default_expr: kept_text(c.default_expr),
        check_expr: kept_text(c.check_expr),
        vector_dimensions: if c.data_type == DataType::Vector {
            c.vector_dimensions
        } else {
            0
        },
        ..c
    }
}

/// Columns as they are stored.
pub open spec fn stored_columns(cs: Seq<ColumnV>) -> Seq<ColumnV> {
    Seq::new(cs.len(), |i: int| stored_column(cs[i], i))
}

/// Whether the lengths of the column's texts and a vector's dimensions fit in two bytes.
pub open spec fn column_fits(c: ColumnV) -> bool {
    &&& fits16(c.name)
    &&& c.default_expr matches Some(t) ==> fits16(t)
    &&& c.check_expr matches Some(t) ==> fits16(t)
    &&& c.data_type == DataType::Vector ==> c.vector_dimensions < 0x1_0000
}

/// Whether the length of the table's name, the number of columns and what is stored of each fit.
pub open spec fn head_fits(s: SchemaV) -> bool {
    &&& fits16(s.table_name)
    &&& s.columns.len() < 0x1_0000
    &&& forall|i: int| 0 <= i < s.columns.len() ==> column_fits(#[trigger] s.columns[i])
}

proof fn lemma_kept_text(o: Option<Seq<char>>)
    requires
        o matches Some(t) ==> fits16(t),
    ensures
        optional_fits16(kept_text(o)),
        optional_text16(kept_text(o)) == optional_text16(o),
{
    if let Some(t) = o {
        reveal(text16);
        lemma_utf8_round_trip(t);
        if t.len() == 0 {
            assert(encode_utf8(t) =~= Seq::empty());
            assert(text16(t) =~= le_bytes(0, 2));
        }
    }
}

proof fn lemma_same_columns(cs: Seq<ColumnV>, ds: Seq<ColumnV>)
    requires
        cs.len() == ds.len(),
        forall|i: int| 0 <= i < cs.len() ==> column_bytes(#[trigger] cs[i]) == column_bytes(ds[i]),
    ensures
        columns_bytes(cs) == columns_bytes(ds),
    decreases cs.len(),
{
    if cs.len() > 0 {
        assert(column_bytes(cs[0]) == column_bytes(ds[0]));
        assert forall|i: int| 0 <= i < cs.skip(1).len() implies column_bytes(
            #[trigger] cs.skip(1)[i],
        ) == column_bytes(ds.skip(1)[i]) by {
            assert(column_bytes(cs[i + 1]) == column_bytes(ds[i + 1]));
        }
        lemma_same_columns(cs.skip(1), ds.skip(1));
    }
}

proof fn lemma_stored_columns(cs: Seq<ColumnV>)
    requires
        forall|i: int| 0 <= i < cs.len() ==> column_fits(#[trigger] cs[i]),
    ensures
        columns_bytes(stored_columns(cs)) == columns_bytes(cs),
        columns_bytes(bare_columns(stored_columns(cs))) == columns_bytes(cs),
{
    assert forall|i: int| 0 <= i < cs.len() implies column_bytes(#[trigger] cs[i]) == column_bytes(
        stored_columns(cs)[i],
    ) && column_bytes(cs[i]) == column_bytes(bare_columns(stored_columns(cs))[i]) by {
        lemma_kept_text(cs[i].default_expr);
        lemma_kept_text(cs[i].check_expr);
    }
    lemma_same_columns(cs, stored_columns(cs));
    lemma_same_columns(cs, bare_columns(stored_columns(cs)));
}

/// `s` as it is stored, with nothing for the sections.
spec fn without_sections(s: SchemaV) -> SchemaV {
    SchemaV {
        table_name_lower: unicode_lowercase(s.table_name),
        columns: bare_columns(stored_columns(s.columns)),
        foreign_keys: Seq::empty(),
        cluster_key: Seq::empty(),
        ..s
    }
}

proof fn lemma_without_sections(s: SchemaV)
    requires
        head_fits(s),
    ensures
        storable(without_sections(s)),
        head_bytes(without_sections(s)) == head_bytes(s),
        without_sections(s).columns.len() == s.columns.len(),
{
    let bare = without_sections(s);
    lemma_stored_columns(s.columns);
    assert forall|i: int| 0 <= i < bare.columns.len() implies storable_column(
        #[trigger] bare.columns[i],
        i,
    ) by {
        assert(column_fits(s.columns[i]));
        lemma_kept_text(s.columns[i].default_expr);
        lemma_kept_text(s.columns[i].check_expr);
    }
}

// ---------------------------------------------------------------------------
// A snapshot that is cut within its columns
// ---------------------------------------------------------------------------

proof fn lemma_cut_join(a: Seq<u8>, b: Seq<u8>, n: int)
    requires
        0 <= n <= a.len() + b.len(),
    ensures
        n < a.len() ==> (a + b).take(n) == a.take(n),
        n >= a.len() ==> (a + b).take(n) == a + b.take(n - a.len()),
{
    if n < a.len() {
        assert((a + b).take(n) =~= a.take(n));
    } else {
        assert((a + b).take(n) =~= a + b.take(n - a.len()));
    }
}

proof fn lemma_cut_name<E>(s: Seq<char>, n: int, e1: E, e2: E, e3: E)
    requires
        fits16(s),
        0 <= n < text16(s).len(),
    ensures
        read_name(text16(s).take(n), e1, e2, e3) is Err,
{
    reveal(text16);
    reveal(read_name);
    let b = encode_utf8(s);
    lemma_byte_range();
    lemma_le_bytes_len(b.len(), 2);
    lemma_cut_join(le_bytes(b.len(), 2), b, n);
    if n >= 2 {
        lemma_split_le(b.len(), 2, b.take(n - 2));
    }
}

proof fn lemma_cut_optional(o: Option<Seq<char>>, n: int, e1: SchemaError, e2: SchemaError, e3: SchemaError)
    requires
        optional_fits16(o),
        0 <= n < optional_text16(o).len(),
    ensures
        read_expr(optional_text16(o).take(n), e1, e2, e3) is Err,
{
    lemma_byte_range();
    match o {
        Some(s) => {
            lemma_cut_name(s, n, e1, e2, e3);
            reveal(text16);
            let b = encode_utf8(s);
            lemma_le_bytes_len(b.len(), 2);
            lemma_cut_join(le_bytes(b.len(), 2), b, n);
            if n >= 2 {
                lemma_split_le(b.len(), 2, b.take(n - 2));
            }
        },
        None => {
            lemma_le_bytes_len(0, 2);
        },
    }
}

proof fn lemma_cut_exprs(d: Option<Seq<char>>, c: Option<Seq<char>>, n: int, i: usize)
    requires
        optional_fits16(d),
        optional_fits16(c),
        0 <= n < (optional_text16(d) + optional_text16(c)).len(),
    ensures
        read_exprs((optional_text16(d) + optional_text16(c)).take(n), i, SchemaForm::Snapshot) is Err,
{
    let x = optional_text16(d);
    let y = optional_text16(c);
    let (e1, e2, e3) = (
        missing_field(i, ColumnField::DefaultExprLength),
        missing_field(i, ColumnField::DefaultExpr),
        SchemaError::InvalidDefaultExpr,
    );
    lemma_cut_join(x, y, n);
    if n < x.len() {
        lemma_cut_optional(d, n, e1, e2, e3);
    } else {
        lemma_read_optional(d, y.take(n - x.len()), e1, e2, e3);
        lemma_cut_optional(
            c,
            n - x.len(),
            missing_field(i, ColumnField::CheckExprLength),
            missing_field(i, ColumnField::CheckExpr),
            SchemaError::InvalidCheckExpr,
        );
    }
}

/// The flags and expressions of a column.
spec fn behind_type(c: ColumnV) -> Seq<u8> {
    flag_byte(c.nullable) + (flag_byte(c.primary_key) + (flag_byte(c.auto_increment) + (
    optional_text16(c.default_expr) + optional_text16(c.check_expr))))
}

proof fn lemma_cut_behind_type(c: ColumnV, n: int, i: usize)
    requires
        storable_column(c, i as int),
        0 <= n < behind_type(c).len(),
    ensures
        match read_flags(behind_type(c).take(n), i, SchemaForm::Snapshot) {
            Err(e) => true,
            Ok((flags, b)) => read_exprs(b, i, SchemaForm::Snapshot) is Err,
        },
{
    let x = optional_text16(c.default_expr) + optional_text16(c.check_expr);
    let t3 = flag_byte(c.auto_increment) + x;
    let t2 = flag_byte(c.primary_key) + t3;
    lemma_cut_join(flag_byte(c.nullable), t2, n);
    if n >= 1 {
        lemma_read_flag(c.nullable, t2.take(n - 1), missing_field(i, ColumnField::Nullable));
        lemma_cut_join(flag_byte(c.primary_key), t3, n - 1);
    }
    if n >= 2 {
        lemma_read_flag(c.primary_key, t3.take(n - 2), missing_field(i, ColumnField::PrimaryKey));
        lemma_cut_join(flag_byte(c.auto_increment), x, n - 2);
    }
    if n >= 3 {
        lemma_read_flag(
            c.auto_increment,
            x.take(n - 3),
            missing_field(i, ColumnField::AutoIncrement),
        );
        lemma_cut_exprs(c.default_expr, c.check_expr, n - 3, i);
    }
}

proof fn lemma_cut_column(c: ColumnV, n: int, i: usize)
    requires
        storable_column(c, i as int),
        0 <= n < column_bytes(c).len(),
    ensures
        read_column(column_bytes(c).take(n), i, SchemaForm::Snapshot) is Err,
{
    let name = text16(c.name);
    let kind = type_bytes(c.data_type, c.vector_dimensions);
    let tail = behind_type(c);
    let (e1, e2, e3) = (
        missing_field(i, ColumnField::NameLength),
        missing_field(i, ColumnField::Name),
        SchemaError::InvalidColumnName,
    );
    assert(column_bytes(c) == name + (kind + tail));
    lemma_cut_join(name, kind + tail, n);
    if n < name.len() {
        lemma_cut_name(c.name, n, e1, e2, e3);
    } else {
        let m = n - name.len();
        let b = (kind + tail).take(m);
        let missing = missing_field(i, ColumnField::DataType);
        lemma_read_name(c.name, b, e1, e2, e3);
        lemma_cut_join(kind, tail, m);
        lemma_le_bytes_len(c.vector_dimensions, 2);
        if m >= kind.len() {
            lemma_read_type(
                c.data_type,
                c.vector_dimensions,
                tail.take(m - kind.len()),
                missing,
            );
            lemma_cut_behind_type(c, m - kind.len(), i);
        } else if m > 0 {
            assert(c.data_type == DataType::Vector);
            assert(b.skip(1).len() < 2);
            assert(split_le(b.skip(1), 2) is None);
            assert(read_type(b, missing) is Ok);
            assert(read_flags(b.skip(1), i, SchemaForm::Snapshot) is Err);
        }
    }
}

proof fn lemma_cut_columns(cs: Seq<ColumnV>, n: int, i: usize)
    requires
        i <= cs.len() < 0x1_0000,
        forall|k: int| 0 <= k < cs.len() ==> storable_column(#[trigger] cs[k], k),
        0 <= n < columns_bytes(cs.skip(i as int)).len(),
    ensures
        read_columns(
            columns_bytes(cs.skip(i as int)).take(n),
            i,
            cs.len() as usize,
            SchemaForm::Snapshot,
        ) is Err,
    decreases cs.len() - i,
{
    let tail = cs.skip(i as int);
    assert(i < cs.len());
    let more = cs.skip(i + 1);
    assert(tail.skip(1) =~= more);
    let c = cs[i as int];
    assert(columns_bytes(tail) == column_bytes(c) + columns_bytes(more));
    lemma_cut_join(column_bytes(c), columns_bytes(more), n);
    if n < column_bytes(c).len() {
        lemma_cut_column(c, n, i);
    } else {
        let m = n - column_bytes(c).len();
        lemma_read_column(c, columns_bytes(more).take(m), i, SchemaForm::Snapshot);
        lemma_cut_columns(cs, m, (i + 1) as usize);
    }
}

proof fn lemma_cut_head(s: SchemaV, n: int)
    requires
        storable(s),
        0 <= n < head_bytes(s).len(),
    ensures
        read_head(head_bytes(s).take(n), SchemaForm::Snapshot) is Err,
{
    let name = text16(s.table_name);
    let count = le_bytes(s.columns.len(), 2);
    let columns = columns_bytes(s.columns);
    let (e1, e2, e3) = (
        SchemaError::MissingTableNameLength,
        SchemaError::MissingTableName,
        SchemaError::InvalidTableName,
    );
    lemma_byte_range();
    lemma_le_bytes_len(s.columns.len(), 2);
    lemma_cut_join(name, count + columns, n);
    if n < name.len() {
        lemma_cut_name(s.table_name, n, e1, e2, e3);
    } else {
        let m = n - name.len();
        let b = (count + columns).take(m);
        lemma_read_name(s.table_name, b, e1, e2, e3);
        lemma_cut_join(count, columns, m);
        if m >= 2 {
            lemma_split_le(s.columns.len(), 2, columns.take(m - 2));
            assert(s.columns.skip(0) =~= s.columns);
            lemma_cut_columns(s.columns, m - 2, 0);
        }
    }
}

/// A snapshot's schema that is cut before the end of its last column, whose check constraint is its
/// last field, is refused. One that is cut exactly there is read: older snapshots end there, have
/// none of the sections, and have no times, for which `now` stands in.
pub proof fn snapshot_schema_needs_its_columns(s: SchemaV, sections: nat, n: int, now: int)
    requires
        head_fits(s),
        0 <= n <= head_bytes(s).len(),
    ensures
        n < head_bytes(s).len() ==> read_snapshot_schema(
            snapshot_schema_bytes(s, sections).take(n),
            now,
        ) is Err,
        n == head_bytes(s).len() ==> read_snapshot_schema(
            snapshot_schema_bytes(s, sections).take(n),
            now,
        ) == Ok::<SchemaV, SchemaError>(
            (SchemaV {
                table_name: s.table_name,
                table_name_lower: unicode_lowercase(s.table_name),
                columns: bare_columns(stored_columns(s.columns)),
                foreign_keys: Seq::empty(),
                created_at: now,
                updated_at: now,
                cluster_key: Seq::empty(),
            }),
        ),
{
    let bare = without_sections(s);
    lemma_without_sections(s);
    let behind = times_bytes(s) + sections_bytes(s, sections);
    lemma_cut_join(head_bytes(s), behind, n);
    if n < head_bytes(s).len() {
        lemma_cut_head(bare, n);
    } else {
        let nothing = Seq::<u8>::empty();
        assert(behind.take(0) =~= nothing);
        lemma_read_head(bare, nothing, SchemaForm::Snapshot);
        lemma_read_sections(bare, 0);
        assert(bare_columns(bare.columns) =~= bare.columns);
        assert(with_sections(bare, 0).columns =~= bare.columns);
    }
}

// ---------------------------------------------------------------------------
// A clustering key that names a column past the end
// ---------------------------------------------------------------------------

proof fn lemma_positions_past_end(ps: Seq<nat>, limit: nat, rest: Seq<u8>)
    requires
        forall|k: int| 0 <= k < ps.len() ==> #[trigger] ps[k] < 0x1_0000,
        exists|k: int| 0 <= k < ps.len() && #[trigger] ps[k] >= limit,
    ensures
        read_positions(positions_bytes(ps) + rest, ps.len(), limit) == Err::<Seq<nat>, SchemaError>(
            SchemaError::ClusterKeyPastEnd,
        ),
    decreases ps.len(),
{
    let more = ps.skip(1);
    let r1 = positions_bytes(more) + rest;
    lemma_byte_range();
    assert(positions_bytes(ps) + rest =~= le_bytes(ps[0], 2) + r1);
    lemma_split_le(ps[0], 2, r1);
    if ps[0] < limit {
        let k = choose|k: int| 0 <= k < ps.len() && #[trigger] ps[k] >= limit;
        assert(more[k - 1] == ps[k]);
        assert(forall|i: int| 0 <= i < more.len() ==> #[trigger] more[i] == ps[i + 1]);
        lemma_positions_past_end(more, limit, rest);
    }
}

/// Whether every part of a schema but for the clustering key can be stored, and that key's positions
/// fit in two bytes each.
pub open spec fn sections_fit(s: SchemaV) -> bool {
    &&& head_fits(s)
    &&& forall|i: int|
        0 <= i < s.columns.len() ==> ((#[trigger] s.columns[i]).default_value matches Some(b) ==> 0
            < b.len() < 0x1_0000)
    &&& s.foreign_keys.len() < 0x1_0000
    &&& forall|i: int|
        0 <= i < s.foreign_keys.len() ==> storable_foreign_key(#[trigger] s.foreign_keys[i])
    &&& s.cluster_key.len() < 0x1_0000
    &&& forall|k: int| 0 <= k < s.cluster_key.len() ==> #[trigger] s.cluster_key[k] < 0x1_0000
}

proof fn lemma_sections_past_end(s: SchemaV, columns: Seq<ColumnV>)
    requires
        sections_fit(s),
        columns.len() == s.columns.len(),
        exists|k: int|
            0 <= k < s.cluster_key.len() && #[trigger] s.cluster_key[k] >= s.columns.len(),
    ensures
        read_sections(sections_bytes(s, 3), columns) == Err::<
            (Seq<ForeignKeyV>, Seq<ColumnV>, Seq<nat>),
            SchemaError,
        >(SchemaError::ClusterKeyPastEnd),
{
    lemma_byte_range();
    let r3 = cluster_key_section(s);
    let r2 = defaults_section(s) + r3;
    lemma_read_foreign_keys(s.foreign_keys, r2);
    lemma_join_assoc(le_bytes(s.foreign_keys.len(), 2), foreign_keys_bytes(s.foreign_keys), r2);
    lemma_split_le(s.foreign_keys.len(), 2, foreign_keys_bytes(s.foreign_keys) + r2);
    lemma_read_defaults(s.columns, r3);
    lemma_join_assoc(le_bytes(s.columns.len(), 2), defaults_bytes(s.columns), r3);
    lemma_split_le(s.columns.len(), 2, defaults_bytes(s.columns) + r3);
    let key = positions_bytes(s.cluster_key);
    lemma_join_nothing(key);
    lemma_positions_past_end(s.cluster_key, s.columns.len(), Seq::empty());
    lemma_split_le(s.cluster_key.len(), 2, key);
}

/// A log record whose clustering key names a column past the end is refused, whatever else the
/// schema is, as far as it can be stored.
pub proof fn key_past_the_columns_is_refused(s: SchemaV, now: int)
    requires
        sections_fit(s),
        exists|k: int|
            0 <= k < s.cluster_key.len() && #[trigger] s.cluster_key[k] >= s.columns.len(),
    ensures
        read_log_schema(log_schema_bytes(s, 3), now) == Err::<SchemaV, SchemaError>(
            SchemaError::ClusterKeyPastEnd,
        ),
{
    let bare = without_sections(s);
    lemma_without_sections(s);
    lemma_read_head(bare, sections_bytes(s, 3), SchemaForm::Log);
    lemma_sections_past_end(s, bare_columns(bare.columns));
}

} // verus!
