//! Where things stand in the files, what is refused, and what can be stored.

use crate::alter_table::{AlterV, storable_change};
use crate::bytes::{
    i64_bits, le_bytes, le_value, lemma_byte_range, lemma_i64_round_trip, lemma_le_round_trip,
    lemma_le_value_bound, lemma_split_le,
};
use crate::compression::lz4_decompressed;
use crate::names::lemma_name_parts;
use crate::schema::{
    ColumnV, DataType, ForeignKeyAction, SchemaV, action_of_tag, action_tag, first_primary_key,
    type_of_tag, type_tag,
};
use crate::schema_format::{read_time, storable, storable_column};
use crate::snapshot_format::{
    FileHeader, Footer, FormatError, footer_bytes, footer_len, header_bytes, header_len,
    lemma_footer_len, lemma_header_len, new_header, read_footer, read_header,
};
use crate::snapshot_meta::{meta_lsn, text_lsn};
use crate::snapshot_reader::{
    ReaderV, checksum_len, decodes_to, gave_rows, intact, readable_rows, row_at, unloaded_row,
    with_given,
};
use crate::snapshot_writer::{
    Piece, SnapshotRow, index_of, row_total, stands_for, took_row, took_rows, txns_of,
};
use crate::text::{decimal, trimmed, unicode_lowercase};
use crate::text_laws::{lemma_decimal, written_numbers_are_read_back};
use vstd::prelude::*;
use vstd::string::*;
use vstd::utf8::*;

verus! {

// ---------------------------------------------------------------------------
// Tags
// ---------------------------------------------------------------------------

/// Each type and each action is found again under its tag; an unknown tag stands for no type, and for
/// the action to restrict.
pub proof fn tags_are_read_back(t: DataType, a: ForeignKeyAction, tag: u8)
    ensures
        type_of_tag(type_tag(t)) == t,
        type_tag(t) <= 7,
        tag > 7 ==> type_of_tag(tag) == DataType::Null,
        action_of_tag(action_tag(a)) == a,
        action_tag(a) <= 3,
        tag > 3 ==> action_of_tag(tag) == ForeignKeyAction::Restrict,
        type_tag(DataType::Null) == 0,
        type_tag(DataType::Integer) == 1,
        type_tag(DataType::Float) == 2,
        type_tag(DataType::Text) == 3,
        type_tag(DataType::Boolean) == 4,
        type_tag(DataType::Timestamp) == 5,
        type_tag(DataType::Json) == 6,
        type_tag(DataType::Vector) == 7,
        action_tag(ForeignKeyAction::Restrict) == 0,
        action_tag(ForeignKeyAction::Cascade) == 1,
        action_tag(ForeignKeyAction::SetNull) == 2,
        action_tag(ForeignKeyAction::NoAction) == 3,
{
}

/// The primary key that is found is the first column that is one.
pub proof fn first_primary_key_is_found(columns: Seq<ColumnV>)
    ensures
        match first_primary_key(columns) {
            Some(p) => {
                &&& p < columns.len()
                &&& columns[p as int].primary_key
                &&& forall|i: int| 0 <= i < p ==> !(#[trigger] columns[i]).primary_key
            },
            None => forall|i: int| 0 <= i < columns.len() ==> !(#[trigger] columns[i]).primary_key,
        },
    decreases columns.len(),
{
    if columns.len() > 0 && !columns[0].primary_key {
        let rest = columns.skip(1);
        first_primary_key_is_found(rest);
        match first_primary_key(rest) {
            Some(p) => {
                assert(rest[p as int] == columns[p as int + 1]);
                assert forall|i: int| 0 <= i < p + 1 implies !(#[trigger] columns[i]).primary_key by {
                    if i > 0 {
                        assert(rest[i - 1] == columns[i]);
                    }
                }
            },
            None => {
                assert forall|i: int| 0 <= i < columns.len() implies !(
                #[trigger] columns[i]).primary_key by {
                    if i > 0 {
                        assert(rest[i - 1] == columns[i]);
                    }
                }
            },
        }
    }
}

// ---------------------------------------------------------------------------
// What can be stored
// ---------------------------------------------------------------------------

/// A schema can be stored where its counts and the lengths of its texts fit in two bytes, no optional
/// text or value is empty, columns are numbered by their places, names in lower case are those of the
/// names, only vectors have dimensions, and the clustering key names columns. Nothing more is asked.
pub proof fn ordinary_schema_is_storable(s: SchemaV)
    requires
        encode_utf8(s.table_name).len() <= 65_535,
        s.table_name_lower == unicode_lowercase(s.table_name),
        s.columns.len() <= 65_535,
        s.foreign_keys.len() <= 65_535,
        s.cluster_key.len() <= 65_535,
        forall|i: int|
            0 <= i < s.columns.len() ==> {
                let c = #[trigger] s.columns[i];
                &&& c.id == i
                &&& c.name_lower == unicode_lowercase(c.name)
                &&& encode_utf8(c.name).len() <= 65_535
                &&& c.default_expr is Some ==> 0 < encode_utf8(c.default_expr->Some_0).len()
                    <= 65_535
                &&& c.check_expr is Some ==> 0 < encode_utf8(c.check_expr->Some_0).len() <= 65_535
                &&& c.default_value is Some ==> 0 < (c.default_value->Some_0).len() <= 65_535
                &&& c.vector_dimensions <= 65_535
                &&& c.data_type == DataType::Vector || c.vector_dimensions == 0
            },
        forall|i: int|
            0 <= i < s.foreign_keys.len() ==> {
                let f = #[trigger] s.foreign_keys[i];
                &&& f.column_index <= 65_535
                &&& encode_utf8(f.column_name).len() <= 65_535
                &&& encode_utf8(f.referenced_table).len() <= 65_535
                &&& encode_utf8(f.referenced_column).len() <= 65_535
            },
        forall|i: int|
            0 <= i < s.cluster_key.len() ==> #[trigger] s.cluster_key[i] < s.columns.len(),
    ensures
        storable(s),
{
    assert forall|i: int| 0 <= i < s.columns.len() implies storable_column(
        #[trigger] s.columns[i],
        i,
    ) by {}
}

/// A change can be recorded where the lengths of its texts, and its numbers, fit in two bytes, a
/// default is not empty, and only a vector has dimensions. Nothing more is asked.
pub proof fn ordinary_change_is_storable(
    table: Seq<char>,
    column: Seq<char>,
    new_name: Seq<char>,
    data_type: DataType,
    nullable: bool,
    default_expr: Option<Seq<char>>,
    dimensions: nat,
    key: Seq<nat>,
)
    requires
        encode_utf8(table).len() <= 65_535,
        encode_utf8(column).len() <= 65_535,
        encode_utf8(new_name).len() <= 65_535,
        default_expr is Some ==> 0 < encode_utf8(default_expr->Some_0).len() <= 65_535,
        dimensions <= 65_535,
        data_type == DataType::Vector || dimensions == 0,
        key.len() <= 65_535,
        forall|i: int| 0 <= i < key.len() ==> #[trigger] key[i] <= 65_535,
    ensures
        storable_change(
            (AlterV::AddColumn {
                table,
                column,
                data_type,
                nullable,
                default_expr,
                vector_dimensions: dimensions,
            }),
        ),
        storable_change((AlterV::DropColumn { table, column })),
        storable_change((AlterV::RenameColumn { table, old_name: column, new_name })),
        storable_change(
            (AlterV::ModifyColumn {
                table,
                column,
                data_type,
                nullable,
                vector_dimensions: dimensions,
            }),
        ),
        storable_change((AlterV::RenameTable { table, new_name })),
        storable_change((AlterV::ClusterBy { table, key })),
{
}

/// A time of a schema is the one that was stored where that is after the epoch, and the present
/// otherwise; the bytes behind it are the rest.
pub proof fn stored_time_is_read(t: i64, rest: Seq<u8>, now: int)
    ensures
        t > 0 ==> read_time(le_bytes(i64_bits(t as int), 8) + rest, now) == (t as int, rest),
        t <= 0 ==> read_time(le_bytes(i64_bits(t as int), 8) + rest, now) == (now, rest),
        rest.len() < 8 ==> read_time(rest, now) == (now, rest),
{
    lemma_byte_range();
    lemma_i64_round_trip(t as int);
    lemma_split_le(i64_bits(t as int), 8, rest);
}

// ---------------------------------------------------------------------------
// Snapshot files
// ---------------------------------------------------------------------------

/// A header takes 64 bytes: at 0 the magic number, at 8 the version, at 12 the features, at 16 its
/// length, at 20 the time, at 28 the log position, at 36 that of the snapshot before, at 44 the
/// version of the schema, and at 48 the compression; the rest is 0. Numbers stand low byte first.
pub proof fn header_fields_stand_in_place(h: FileHeader)
    ensures
        ({
            let b = header_bytes(h);
            &&& b.len() == 64
            &&& le_value(b.subrange(0, 8)) == h.magic
            &&& le_value(b.subrange(8, 12)) == h.version
            &&& le_value(b.subrange(12, 16)) == h.feature_flags
            &&& le_value(b.subrange(16, 20)) == h.header_size
            &&& h.creation_time >= 0 ==> le_value(b.subrange(20, 28)) == h.creation_time
            &&& le_value(b.subrange(28, 36)) == h.source_lsn
            &&& le_value(b.subrange(36, 44)) == h.prev_snap_lsn
            &&& le_value(b.subrange(44, 48)) == h.schema_version
            &&& b[48] == h.compression
            &&& forall|i: int| 49 <= i < 64 ==> #[trigger] b[i] == 0
        }),
{
    let b = header_bytes(h);
    lemma_byte_range();
    lemma_header_len(h);
    lemma_i64_round_trip(h.creation_time as int);
    lemma_le_round_trip(h.magic as nat, 8);
    lemma_le_round_trip(h.version as nat, 4);
    lemma_le_round_trip(h.feature_flags as nat, 4);
    lemma_le_round_trip(h.header_size as nat, 4);
    lemma_le_round_trip(i64_bits(h.creation_time as int), 8);
    lemma_le_round_trip(h.source_lsn as nat, 8);
    lemma_le_round_trip(h.prev_snap_lsn as nat, 8);
    lemma_le_round_trip(h.schema_version as nat, 4);
    assert(b.subrange(0, 8) =~= le_bytes(h.magic as nat, 8));
    assert(b.subrange(8, 12) =~= le_bytes(h.version as nat, 4));
    assert(b.subrange(12, 16) =~= le_bytes(h.feature_flags as nat, 4));
    assert(b.subrange(16, 20) =~= le_bytes(h.header_size as nat, 4));
    assert(b.subrange(20, 28) =~= le_bytes(i64_bits(h.creation_time as int), 8));
    assert(b.subrange(28, 36) =~= le_bytes(h.source_lsn as nat, 8));
    assert(b.subrange(36, 44) =~= le_bytes(h.prev_snap_lsn as nat, 8));
    assert(b.subrange(44, 48) =~= le_bytes(h.schema_version as nat, 4));
}

/// A footer takes 64 bytes: at 0 where the index begins, at 8 its length, at 16 the number of rows, at
/// 24 where the transactions begin, at 32 their number, at 40 the checksum of the rows, and at 56 the
/// magic number; the bytes between are 0.
pub proof fn footer_fields_stand_in_place(f: Footer)
    ensures
        ({
            let b = footer_bytes(f);
            &&& b.len() == 64
            &&& le_value(b.subrange(0, 8)) == f.index_offset
            &&& le_value(b.subrange(8, 16)) == f.index_size
            &&& le_value(b.subrange(16, 24)) == f.row_count
            &&& le_value(b.subrange(24, 32)) == f.txn_ids_offset
            &&& le_value(b.subrange(32, 40)) == f.txn_ids_count
            &&& le_value(b.subrange(40, 44)) == f.data_checksum
            &&& forall|i: int| 44 <= i < 56 ==> #[trigger] b[i] == 0
            &&& le_value(b.subrange(56, 64)) == f.magic
        }),
{
    let b = footer_bytes(f);
    lemma_byte_range();
    lemma_footer_len(f);
    lemma_le_round_trip(f.index_offset as nat, 8);
    lemma_le_round_trip(f.index_size as nat, 8);
    lemma_le_round_trip(f.row_count as nat, 8);
    lemma_le_round_trip(f.txn_ids_offset as nat, 8);
    lemma_le_round_trip(f.txn_ids_count as nat, 8);
    lemma_le_round_trip(f.data_checksum as nat, 4);
    lemma_le_round_trip(f.magic as nat, 8);
    assert(b.subrange(0, 8) =~= le_bytes(f.index_offset as nat, 8));
    assert(b.subrange(8, 16) =~= le_bytes(f.index_size as nat, 8));
    assert(b.subrange(16, 24) =~= le_bytes(f.row_count as nat, 8));
    assert(b.subrange(24, 32) =~= le_bytes(f.txn_ids_offset as nat, 8));
    assert(b.subrange(32, 40) =~= le_bytes(f.txn_ids_count as nat, 8));
    assert(b.subrange(40, 44) =~= le_bytes(f.data_checksum as nat, 4));
    assert(b.subrange(56, 64) =~= le_bytes(f.magic as nat, 8));
}

/// A new snapshot is of version 3, with a header of 64 bytes and neither features nor compression; it
/// has the time and the log position that were given.
pub proof fn new_header_is_as_given(creation_time: i64, source_lsn: u64)
    ensures
        ({
            let h = new_header(creation_time, source_lsn);
            &&& h.magic == 0x5354_5344_5653_4844
            &&& h.version == 3
            &&& h.header_size == 64
            &&& h.creation_time == creation_time
            &&& h.source_lsn == source_lsn
            &&& h.prev_snap_lsn == 0
            &&& h.feature_flags == 0
            &&& h.schema_version == 0
            &&& h.compression == 0
            &&& header_len(h) == 64
            &&& footer_len(h.version) == 64
            &&& checksum_len(h.version) == 4
        }),
{
}

/// A header is read just where there are 16 bytes that begin with the magic number, and 64 from version
/// 3 on; up to version 2 it has its version and features alone, and takes 16 bytes.
pub proof fn header_is_read_where_whole(b: Seq<u8>)
    ensures
        ({
            let r = read_header(b);
            let magic = le_value(b.subrange(0, 8));
            let version = le_value(b.subrange(8, 12));
            &&& r is Ok <==> b.len() >= 16 && magic == 0x5354_5344_5653_4844 && (version <= 2
                || b.len() >= 64)
            &&& b.len() < 16 ==> r == Err::<FileHeader, FormatError>(FormatError::HeaderTooShort)
            &&& version <= 2 ==> (r matches Ok(h) ==> h.version == version && header_len(h) == 16
                && h.creation_time == 0 && h.source_lsn == 0 && h.prev_snap_lsn == 0
                && h.schema_version == 0 && h.compression == 0 && h.feature_flags == le_value(
                b.subrange(12, 16),
            ))
            &&& version > 2 ==> (r matches Ok(h) ==> h.version == version && header_len(h)
                == le_value(b.subrange(16, 20)) && h.source_lsn == le_value(b.subrange(28, 36))
                && h.prev_snap_lsn == le_value(b.subrange(36, 44)))
        }),
{
    lemma_byte_range();
    if b.len() >= 16 {
        lemma_le_value_bound(b.subrange(8, 12));
        lemma_le_value_bound(b.subrange(12, 16));
        if b.len() >= 64 {
            lemma_le_value_bound(b.subrange(16, 20));
            lemma_le_value_bound(b.subrange(28, 36));
            lemma_le_value_bound(b.subrange(36, 44));
        }
    }
}

/// A footer is read just where there are enough bytes, 48 up to version 2 and 64 from version 3 on,
/// that end with the magic number of the version.
pub proof fn footer_is_read_where_whole(b: Seq<u8>, version: u32)
    ensures
        ({
            let r = read_footer(b, version);
            &&& version <= 2 ==> (r is Ok <==> b.len() >= 48 && le_value(b.subrange(40, 48))
                == 0x5354_5344_5653_4844)
            &&& version > 2 ==> (r is Ok <==> b.len() >= 64 && le_value(b.subrange(56, 64))
                == 0x5354_4E44_5354_454E)
            &&& r matches Ok(f) ==> {
                &&& f.index_offset == le_value(b.subrange(0, 8))
                &&& f.index_size == le_value(b.subrange(8, 16))
                &&& f.row_count == le_value(b.subrange(16, 24))
                &&& f.txn_ids_offset == le_value(b.subrange(24, 32))
                &&& f.txn_ids_count == le_value(b.subrange(32, 40))
                &&& version <= 2 ==> f.data_checksum == 0
                &&& version > 2 ==> f.data_checksum == le_value(b.subrange(40, 44))
            }
        }),
{
    lemma_byte_range();
    if b.len() >= 48 {
        lemma_le_value_bound(b.subrange(0, 8));
        lemma_le_value_bound(b.subrange(8, 16));
        lemma_le_value_bound(b.subrange(16, 24));
        lemma_le_value_bound(b.subrange(24, 32));
        lemma_le_value_bound(b.subrange(32, 40));
        lemma_le_value_bound(b.subrange(40, 44));
    }
}

/// A file is accepted just where its header and the footer at its end can be read, there is room for
/// both, and, from version 2 on, its last four bytes are the checksum.
pub proof fn intact_file_has_its_parts(b: Seq<u8>, computed: u32)
    ensures
        intact(b, computed) is Ok <==> {
            let h = read_header(b);
            &&& h is Ok
            &&& {
                let v = (h->Ok_0).version;
                let size: int = if v <= 2 {
                    48
                } else {
                    64
                };
                let tail: int = if v >= 2 {
                    4
                } else {
                    0
                };
                &&& b.len() >= header_len(h->Ok_0) + size
                &&& b.len() >= size + tail
                &&& read_footer(b.subrange(b.len() - size - tail, b.len() - tail), v) is Ok
                &&& tail == 4 ==> le_value(b.subrange(b.len() - 4, b.len() as int)) == computed
            }
        },
{
    reveal(intact);
    header_is_read_where_whole(b);
}

/// A row is stored compressed only where it has at least 64 bytes and that makes it shorter; whichever
/// way it is stored, its encoded form is what comes back.
pub proof fn stored_row_stands_for_its_form(payload: Seq<u8>, compressed: bool, encoded: Seq<u8>)
    requires
        stands_for(payload, compressed, encoded),
    ensures
        compressed ==> encoded.len() >= 64 && payload.len() < encoded.len()
            && lz4_decompressed(payload) == Some(encoded),
        !compressed ==> payload == encoded,
        payload.len() <= encoded.len(),
{
}

/// Every row has a form in which it may be stored: a short one, of fewer than 64 bytes, only as it is,
/// and a longer one as any block that is shorter and holds it, or as it is where some block that holds
/// it is no shorter.
pub proof fn row_may_be_stored_in_its_forms(payload: Seq<u8>, encoded: Seq<u8>)
    ensures
        encoded.len() < 64 ==> stands_for(encoded, false, encoded) && !stands_for(
            payload,
            true,
            encoded,
        ),
        encoded.len() >= 64 && lz4_decompressed(payload) == Some(encoded) && payload.len()
            < encoded.len() ==> stands_for(payload, true, encoded),
        encoded.len() >= 64 && lz4_decompressed(payload) == Some(encoded) && payload.len()
            >= encoded.len() ==> stands_for(encoded, false, encoded),
        encoded.len() >= 64 && stands_for(encoded, false, encoded) ==> exists|block: Seq<u8>|
            #[trigger] lz4_decompressed(block) == Some(encoded) && block.len() >= encoded.len(),
{
}

/// The rows that are given of a file are those of its index that can be read, in the order of the
/// index, each under its identity.
pub proof fn readable_rows_are_given(b: Seq<u8>, entries: Seq<(i64, u64)>)
    ensures
        forall|i: int|
            0 <= i < entries.len() && row_at(b, (#[trigger] entries[i]).1 as int) is Some
                ==> readable_rows(b, entries).contains(
                (entries[i].0, row_at(b, entries[i].1 as int)->Some_0),
            ),
        forall|k: int|
            0 <= k < readable_rows(b, entries).len() ==> exists|i: int|
                0 <= i < entries.len() && (#[trigger] entries[i]).0 == (
                #[trigger] readable_rows(b, entries)[k]).0 && row_at(b, entries[i].1 as int)
                    == Some(readable_rows(b, entries)[k].1),
        (forall|i: int|
            0 <= i < entries.len() ==> row_at(b, (#[trigger] entries[i]).1 as int) is Some)
            ==> readable_rows(b, entries).len() == entries.len(),
        readable_rows(b, entries).len() <= entries.len(),
    decreases entries.len(),
{
    if entries.len() > 0 {
        let before = entries.drop_last();
        let n = entries.len() - 1;
        let r0 = readable_rows(b, before);
        let r = readable_rows(b, entries);
        readable_rows_are_given(b, before);
        assert forall|i: int|
            0 <= i < entries.len() && row_at(
                b,
                (#[trigger] entries[i]).1 as int,
            ) is Some implies r.contains(
            (entries[i].0, row_at(b, entries[i].1 as int)->Some_0),
        ) by {
            let wanted = (entries[i].0, row_at(b, entries[i].1 as int)->Some_0);
            if i < n {
                assert(before[i] == entries[i]);
                assert(r0.contains(wanted));
                let k = choose|k: int| 0 <= k < r0.len() && r0[k] == wanted;
                assert(r[k] == wanted);
            } else {
                assert(r[r0.len() as int] == wanted);
            }
        }
        assert forall|k: int| 0 <= k < r.len() implies exists|i: int|
            0 <= i < entries.len() && (#[trigger] entries[i]).0 == (#[trigger] r[k]).0 && row_at(
                b,
                entries[i].1 as int,
            ) == Some(r[k].1) by {
            if k < r0.len() {
                assert(r[k] == r0[k]);
                let i = choose|i: int|
                    0 <= i < before.len() && (#[trigger] before[i]).0 == r0[k].0 && row_at(
                        b,
                        before[i].1 as int,
                    ) == Some(r0[k].1);
                assert(entries[i] == before[i]);
            } else {
                assert(entries[n].0 == r[k].0);
            }
        }
        if forall|i: int|
            0 <= i < entries.len() ==> row_at(b, (#[trigger] entries[i]).1 as int) is Some {
            assert(row_at(b, entries[n].1 as int) is Some);
            assert forall|i: int| 0 <= i < before.len() implies row_at(
                b,
                (#[trigger] before[i]).1 as int,
            ) is Some by {
                assert(row_at(b, entries[i].1 as int) is Some);
            }
        }
    }
}

/// A row stands in a file behind its length; one whose length, or that much of it, is not there is
/// not given. The highest bit of the length marks a compressed row.
pub proof fn row_stands_behind_its_length(b: Seq<u8>, offset: int)
    requires
        offset >= 0,
    ensures
        b.len() < offset + 4 ==> row_at(b, offset) is None,
        b.len() >= offset + 4 ==> {
            let n = le_value(b.subrange(offset, offset + 4));
            &&& n < 0x8000_0000 && b.len() >= offset + 4 + n ==> row_at(b, offset) == Some(
                b.subrange(offset + 4, offset + 4 + n),
            )
            &&& n >= 0x8000_0000 && b.len() >= offset + 4 + n - 0x8000_0000 ==> row_at(b, offset)
                == lz4_decompressed(
                b.subrange(offset + 4, offset + 4 + n - 0x8000_0000),
            )
            &&& n < 0x8000_0000 && b.len() < offset + 4 + n ==> row_at(b, offset) is None
        },
{
}

/// Rows that were given out count as loaded, with those that were before, and no others do; the rest
/// of the snapshot is as it was.
pub proof fn given_rows_are_loaded<D>(v: ReaderV, rows: Seq<(i64, D)>)
    ensures
        forall|id: i64| #[trigger]
            with_given(v, rows).loaded.contains(id) <==> v.loaded.contains(id) || exists|k: int|
                0 <= k < rows.len() && (#[trigger] rows[k]).0 == id,
        with_given(v, rows).data == v.data,
        with_given(v, rows).file == v.file,
    decreases rows.len(),
{
    if rows.len() > 0 {
        let before = rows.drop_last();
        let n = rows.len() - 1;
        given_rows_are_loaded(v, before);
        assert forall|id: i64| #[trigger] with_given(v, rows).loaded.contains(id)
            <==> v.loaded.contains(id) || exists|k: int|
            0 <= k < rows.len() && (#[trigger] rows[k]).0 == id by {
            if exists|k: int| 0 <= k < before.len() && (#[trigger] before[k]).0 == id {
                let k = choose|k: int| 0 <= k < before.len() && (#[trigger] before[k]).0 == id;
                assert(rows[k].0 == id);
            }
            if id == rows.last().0 {
                assert(rows[n].0 == id);
            }
            if exists|k: int| 0 <= k < rows.len() && (#[trigger] rows[k]).0 == id {
                let k = choose|k: int| 0 <= k < rows.len() && (#[trigger] rows[k]).0 == id;
                if k < n {
                    assert(before[k].0 == id);
                }
            }
        }
    }
}

/// Of rows that are asked for, each that is given was asked for, was not loaded before, has bytes and
/// was decoded from them; and none is given twice.
pub proof fn asked_rows_are_given_once<D, F: Fn(&[u8]) -> Option<D>>(
    v: ReaderV,
    row_ids: Seq<i64>,
    decode: F,
    rows: Seq<(i64, D)>,
)
    requires
        gave_rows(v, row_ids, decode, rows),
    ensures
        forall|k: int|
            0 <= k < rows.len() ==> {
                let (id, row) = #[trigger] rows[k];
                &&& row_ids.contains(id)
                &&& !v.loaded.contains(id)
                &&& v.file.index.contains_key(id)
                &&& row_at(v.data, v.file.index[id] as int) is Some
                &&& decodes_to(decode, row_at(v.data, v.file.index[id] as int)->Some_0, Some(row))
            },
        forall|k: int, m: int|
            0 <= k < m < rows.len() ==> (#[trigger] rows[k]).0 != (#[trigger] rows[m]).0,
        forall|i: int|
            0 <= i < row_ids.len() && !v.loaded.contains(#[trigger] row_ids[i])
                && v.file.index.contains_key(row_ids[i]) && row_at(
                v.data,
                v.file.index[row_ids[i]] as int,
            ) is Some ==> (exists|k: int|
                0 <= k < rows.len() && (#[trigger] rows[k]).0 == row_ids[i]) || decodes_to(
                decode,
                row_at(v.data, v.file.index[row_ids[i]] as int)->Some_0,
                None,
            ),
    decreases row_ids.len(),
{
    if row_ids.len() > 0 {
        let before = row_ids.drop_last();
        let n = row_ids.len() - 1;
        let id = row_ids.last();
        let gave_last = rows.len() > 0 && rows.last().0 == id && gave_rows(
            v,
            before,
            decode,
            rows.drop_last(),
        ) && match unloaded_row(with_given(v, rows.drop_last()), id) {
            Some(b) => decodes_to(decode, b, Some(rows.last().1)),
            None => false,
        };
        let first = if gave_last {
            rows.drop_last()
        } else {
            rows
        };
        asked_rows_are_given_once(v, before, decode, first);
        given_rows_are_loaded(v, first);
        assert forall|k: int| 0 <= k < rows.len() implies {
            let (x, row) = #[trigger] rows[k];
            &&& row_ids.contains(x)
            &&& !v.loaded.contains(x)
            &&& v.file.index.contains_key(x)
            &&& row_at(v.data, v.file.index[x] as int) is Some
            &&& decodes_to(decode, row_at(v.data, v.file.index[x] as int)->Some_0, Some(row))
        } by {
            if k < first.len() {
                assert(rows[k] == first[k]);
                assert(before.contains(first[k].0));
                let i = choose|i: int| 0 <= i < before.len() && before[i] == first[k].0;
                assert(row_ids[i] == first[k].0);
            } else {
                assert(row_ids[n] == id);
            }
        }
        assert forall|k: int, m: int| 0 <= k < m < rows.len() implies (#[trigger] rows[k]).0 != (
        #[trigger] rows[m]).0 by {
            assert(rows[k] == first[k]);
            if m < first.len() {
                assert(rows[m] == first[m]);
            } else {
                if first[k].0 == id {
                    assert(with_given(v, first).loaded.contains(id));
                }
            }
        }
        assert forall|i: int|
            0 <= i < row_ids.len() && !v.loaded.contains(#[trigger] row_ids[i])
                && v.file.index.contains_key(row_ids[i]) && row_at(
                v.data,
                v.file.index[row_ids[i]] as int,
            ) is Some implies (exists|k: int|
            0 <= k < rows.len() && (#[trigger] rows[k]).0 == row_ids[i]) || decodes_to(
            decode,
            row_at(v.data, v.file.index[row_ids[i]] as int)->Some_0,
            None,
        ) by {
            if i < n {
                assert(before[i] == row_ids[i]);
                if exists|k: int| 0 <= k < first.len() && (#[trigger] first[k]).0 == before[i] {
                    let k = choose|k: int|
                        0 <= k < first.len() && (#[trigger] first[k]).0 == before[i];
                    assert(rows[k] == first[k]);
                }
            } else if gave_last {
                assert(rows[rows.len() - 1].0 == id);
            } else {
                if with_given(v, rows).loaded.contains(id) {
                    let k = choose|k: int| 0 <= k < rows.len() && (#[trigger] rows[k]).0 == id;
                    assert(rows[k].0 == id);
                }
            }
        }
    }
}

/// The transactions of a snapshot are those of its rows, each with the time of its last row; the rows
/// are counted one by one, and each is in the index.
pub proof fn rows_are_noted(ps: Seq<Piece>)
    ensures
        forall|i: int|
            0 <= i < ps.len() && (#[trigger] ps[i]) is Row ==> txns_of(ps).contains_key(
                ps[i]->txn_id,
            ) && index_of(ps).contains_key(ps[i]->row_id),
        forall|i: int|
            0 <= i < ps.len() && (#[trigger] ps[i]) is Row && (forall|j: int|
                i < j < ps.len() && (#[trigger] ps[j]) is Row ==> ps[j]->txn_id != ps[i]->txn_id)
                ==> txns_of(ps)[ps[i]->txn_id] == ps[i]->create_time,
        ps.len() > 0 ==> row_total(ps) == row_total(ps.drop_last()) + if ps.last() is Row {
            1nat
        } else {
            0
        },
        ps.len() == 0 ==> row_total(ps) == 0,
    decreases ps.len(),
{
    if ps.len() > 0 {
        let before = ps.drop_last();
        let n = ps.len() - 1;
        rows_are_noted(before);
        assert forall|i: int| 0 <= i < ps.len() && (#[trigger] ps[i]) is Row implies txns_of(
            ps,
        ).contains_key(ps[i]->txn_id) && index_of(ps).contains_key(ps[i]->row_id) by {
            if i < n {
                assert(before[i] == ps[i]);
            }
        }
        assert forall|i: int|
            0 <= i < ps.len() && (#[trigger] ps[i]) is Row && (forall|j: int|
                i < j < ps.len() && (#[trigger] ps[j]) is Row ==> ps[j]->txn_id
                    != ps[i]->txn_id) implies txns_of(ps)[ps[i]->txn_id] == ps[i]->create_time by {
            if i < n {
                assert(before[i] == ps[i]);
                assert forall|j: int| i < j < before.len() && (#[trigger] before[j]) is Row implies
                    before[j]->txn_id != before[i]->txn_id by {
                    assert(ps[j] is Row);
                }
                assert(ps[n] is Row ==> ps[n]->txn_id != ps[i]->txn_id);
            }
        }
    }
}

// ---------------------------------------------------------------------------
// Metadata
// ---------------------------------------------------------------------------

/// The log position of a metadata file is read just where the file is long enough, begins with the
/// magic number, is of this version or an older one, and its checksum is right; else it is 0.
pub proof fn metadata_is_read_where_valid(data: Seq<u8>, computed: u32)
    ensures
        data.len() < 28 ==> meta_lsn(data, computed) == 0,
        data.len() >= 28 && le_value(data.subrange(0, 4)) != 0x5041_4E53 ==> meta_lsn(
            data,
            computed,
        ) == 0,
        data.len() >= 28 && le_value(data.subrange(4, 8)) > 1 ==> meta_lsn(data, computed) == 0,
        data.len() >= 28 && le_value(data.subrange(24, 28)) != computed ==> meta_lsn(data, computed)
            == 0,
        data.len() >= 28 && le_value(data.subrange(0, 4)) == 0x5041_4E53 && le_value(
            data.subrange(4, 8),
        ) <= 1 && le_value(data.subrange(24, 28)) == computed ==> meta_lsn(data, computed)
            == le_value(data.subrange(8, 16)),
{
}

/// The older text form of the metadata gives the number that it names.
pub proof fn text_metadata_is_read(v: nat)
    requires
        v <= u64::MAX,
    ensures
        text_lsn("{\"lsn\":"@ + decimal(v) + "}"@) == v,
{
    reveal_strlit("{\"lsn\":");
    reveal_strlit("}");
    let t = "{\"lsn\":"@ + decimal(v) + "}"@;
    let d = decimal(v);
    written_numbers_are_read_back(v);
    lemma_decimal(v);
    assert(t[0] == '{');
    assert(t.last() == '}');
    assert(trimmed(t) == t);
    lemma_name_parts("{\"lsn\":"@, d, "}"@);
    assert(d.last() == d[d.len() - 1]);
    assert(trimmed(d) == d);
}

/// A row that is written has one piece more in the file, which has the row's identity, its
/// transaction, its time and its encoded form; the pieces before it are as they were.
pub proof fn written_row_is_as_given(before: Seq<Piece>, after: Seq<Piece>, row: SnapshotRow)
    requires
        took_row(before, after, row),
    ensures
        after.len() == before.len() + 1,
        forall|i: int| 0 <= i < before.len() ==> #[trigger] after[i] == before[i],
        ({
            let p = after[before.len() as int];
            p is Row && p->row_id == row.row_id && p->txn_id == row.txn_id && p->create_time
                == row.create_time && p->encoded == row.encoded@
        }),
{
    assert forall|i: int| 0 <= i < before.len() implies #[trigger] after[i] == before[i] by {
        assert(after.drop_last()[i] == after[i]);
    }
}

/// Rows that are written one after the other have their pieces in that order, behind those that were
/// there, and each row is written once.
pub proof fn written_rows_are_as_given(
    before: Seq<Piece>,
    after: Seq<Piece>,
    rows: Seq<SnapshotRow>,
    i: int,
)
    requires
        took_rows(before, after, rows),
        0 <= i < rows.len(),
    ensures
        after.len() == before.len() + rows.len(),
        ({
            let p = after[before.len() + i];
            p is Row && p->row_id == rows[i].row_id && p->txn_id == rows[i].txn_id
                && p->create_time == rows[i].create_time && p->encoded == rows[i].encoded@
        }),
    decreases rows.len(),
{
    lemma_pieces(before, after, rows);
    if i < rows.len() - 1 {
        written_rows_are_as_given(before, after.drop_last(), rows.drop_last(), i);
    }
}

proof fn lemma_pieces(before: Seq<Piece>, after: Seq<Piece>, rows: Seq<SnapshotRow>)
    requires
        took_rows(before, after, rows),
    ensures
        after.len() == before.len() + rows.len(),
    decreases rows.len(),
{
    if rows.len() > 0 {
        lemma_pieces(before, after.drop_last(), rows.drop_last());
    }
}

} // verus!
