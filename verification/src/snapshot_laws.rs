//! What was put into a snapshot is what is read from it.

use crate::bytes::{
    byte_range, le_bytes, le_value, lemma_byte_range, lemma_i64_round_trip, lemma_join_assoc,
    lemma_join_nothing, lemma_le_bytes_len, lemma_le_bytes_of_value, lemma_le_round_trip,
    lemma_le_value_bound,
};
use crate::checksum::{changed_byte_breaks_the_seal, crc32, one_byte_apart};
use crate::listing::lists;
use crate::schema::{Schema, SchemaV};
use crate::schema_format::{
    snapshot_schema_bytes, snapshot_schema_round_trip, storable, with_sections,
};
use crate::snapshot_format::{
    FOOTER_MAGIC, FileHeader, Footer, FormatError, MAGIC_BYTES, field, footer_bytes, footer_round_trip,
    header_bytes, header_round_trip, lemma_footer_len, lemma_header_len, new_header, read_header,
};
use crate::snapshot_reader::{
    FileV, OpenError, ReaderV, file_crc, file_index, file_schema, index_entries, intact, read_file,
    row_at, unloaded_row, with_loaded,
};
use crate::snapshot_writer::{
    Piece, SnapshotRow, body_bytes, footer_of, holds_row, index_of, index_pairs, is_snapshot_file,
    lemma_body_bounds, lemma_pairs_len, pairs_bytes, piece_bytes, record_bytes, row_total,
    sealed_file, stands_for, took_rows, txn_pairs, txns_of, unsealed_file,
};
use vstd::prelude::*;

verus! {

proof fn lemma_took_rows_len(before: Seq<Piece>, after: Seq<Piece>, rows: Seq<SnapshotRow>)
    requires
        took_rows(before, after, rows),
    ensures
        after.len() == before.len() + rows.len(),
        row_total(after) == row_total(before) + rows.len(),
        after.take(before.len() as int) == before,
    decreases rows.len(),
{
    if rows.len() > 0 {
        lemma_took_rows_len(before, after.drop_last(), rows.drop_last());
        assert(after.take(before.len() as int) =~= after.drop_last().take(before.len() as int));
    } else {
        assert(after.take(before.len() as int) =~= before);
    }
}

/// Each row that was taken in has its place in the index, where its piece begins.
proof fn lemma_row_place(before: Seq<Piece>, after: Seq<Piece>, rows: Seq<SnapshotRow>, k: int)
    requires
        took_rows(before, after, rows),
        0 <= k < rows.len(),
    ensures
        after.len() == before.len() + rows.len(),
        holds_row(after[before.len() + k], rows[k]),
        index_of(after).contains_key(rows[k].row_id),
        index_of(after)[rows[k].row_id] == (64 + body_bytes(after.take(before.len() + k)).len()) as u64,
    decreases rows.len(),
{
    lemma_took_rows_len(before, after, rows);
    let shorter = after.drop_last();
    if k == rows.len() - 1 {
        assert(after.take(before.len() + k) =~= shorter);
    } else {
        lemma_row_place(before, shorter, rows.drop_last(), k);
        assert(after.take(before.len() + k) =~= shorter.take(before.len() + k));
        assert(rows.drop_last()[k] == rows[k]);
        assert(index_of(shorter).contains_key(rows[k].row_id));
    }
}

/// The pieces up to one of them, that piece, and the rest.
proof fn lemma_body_split(ps: Seq<Piece>, i: int) -> (rest: Seq<u8>)
    requires
        0 <= i < ps.len(),
    ensures
        body_bytes(ps) == body_bytes(ps.take(i)) + (piece_bytes(ps[i]) + rest),
    decreases ps.len(),
{
    if i == ps.len() - 1 {
        assert(ps.take(i) =~= ps.drop_last());
        lemma_join_nothing(piece_bytes(ps[i]));
        Seq::empty()
    } else {
        let rest = lemma_body_split(ps.drop_last(), i);
        assert(ps.drop_last().take(i) =~= ps.take(i));
        let last = piece_bytes(ps.last());
        lemma_join_assoc(body_bytes(ps.take(i)), piece_bytes(ps[i]) + rest, last);
        lemma_join_assoc(piece_bytes(ps[i]), rest, last);
        rest + last
    }
}

/// A row that stands behind some bytes is read from there.
proof fn lemma_row_at(
    front: Seq<u8>,
    payload: Seq<u8>,
    compressed: bool,
    encoded: Seq<u8>,
    rest: Seq<u8>,
)
    requires
        stands_for(payload, compressed, encoded),
        payload.len() < 0x8000_0000,
    ensures
        row_at(front + (record_bytes(payload, compressed) + rest), front.len() as int) == Some(
            encoded,
        ),
{
    let length = if compressed {
        payload.len() + 0x8000_0000
    } else {
        payload.len()
    };
    let b = front + (record_bytes(payload, compressed) + rest);
    let at = front.len() as int;
    lemma_byte_range();
    lemma_le_round_trip(length, 4);
    assert(b.subrange(at, at + 4) =~= le_bytes(length, 4));
    assert(b.subrange(at + 4, at + 4 + payload.len()) =~= payload);
}

proof fn lemma_pair_fields(es: Seq<(nat, nat)>, k: int)
    requires
        0 <= k < es.len(),
        forall|i: int|
            0 <= i < es.len() ==> (#[trigger] es[i]).0 < byte_range(8) && es[i].1 < byte_range(8),
    ensures
        field(pairs_bytes(es), 16 * k, 16 * k + 8) == es[k].0,
        field(pairs_bytes(es), 16 * k + 8, 16 * k + 16) == es[k].1,
    decreases es.len(),
{
    let b = pairs_bytes(es);
    let shorter = es.drop_last();
    lemma_pairs_len(es);
    lemma_pairs_len(shorter);
    if k == es.len() - 1 {
        lemma_le_round_trip(es[k].0, 8);
        lemma_le_round_trip(es[k].1, 8);
        assert(b.subrange(16 * k, 16 * k + 8) =~= le_bytes(es[k].0, 8));
        assert(b.subrange(16 * k + 8, 16 * k + 16) =~= le_bytes(es[k].1, 8));
    } else {
        assert forall|i: int| 0 <= i < shorter.len() implies (#[trigger] shorter[i]).0 < byte_range(
            8,
        ) && shorter[i].1 < byte_range(8) by {
            assert(shorter[i] == es[i]);
        }
        lemma_pair_fields(shorter, k);
        assert(b.subrange(16 * k, 16 * k + 8) =~= pairs_bytes(shorter).subrange(
            16 * k,
            16 * k + 8,
        ));
        assert(b.subrange(16 * k + 8, 16 * k + 16) =~= pairs_bytes(shorter).subrange(
            16 * k + 8,
            16 * k + 16,
        ));
    }
}

proof fn lemma_index_prefix(es: Seq<(i64, u64)>, n: nat)
    requires
        n <= es.len(),
        forall|i: int, j: int| 0 <= i < j < es.len() ==> (#[trigger] es[i]).0 < (#[trigger] es[j]).0,
    ensures
        forall|k: i64| #[trigger]
            index_entries(pairs_bytes(index_pairs(es)), n).contains_key(k) <==> exists|i: int|
                0 <= i < n && (#[trigger] es[i]).0 == k,
        forall|i: int|
            0 <= i < n ==> index_entries(pairs_bytes(index_pairs(es)), n)[(#[trigger] es[i]).0]
                == es[i].1,
    decreases n,
{
    if n > 0 {
        let b = pairs_bytes(index_pairs(es));
        let pairs = index_pairs(es);
        let last = es[n - 1];
        lemma_byte_range();
        assert forall|i: int| 0 <= i < pairs.len() implies (#[trigger] pairs[i]).0 < byte_range(8)
            && pairs[i].1 < byte_range(8) by {
            lemma_i64_round_trip(es[i].0 as int);
        }
        lemma_pair_fields(pairs, n - 1);
        lemma_i64_round_trip(last.0 as int);
        lemma_index_prefix(es, (n - 1) as nat);
        let before = index_entries(b, (n - 1) as nat);
        assert(index_entries(b, n) == before.insert(last.0, last.1));
        assert forall|k: i64| #[trigger] index_entries(b, n).contains_key(k) <==> exists|i: int|
            0 <= i < n && (#[trigger] es[i]).0 == k by {
            if index_entries(b, n).contains_key(k) && k != last.0 {
                let i = choose|i: int| 0 <= i < n - 1 && (#[trigger] es[i]).0 == k;
                assert(es[i].0 == k);
            }
            if k == last.0 {
                assert(es[n - 1].0 == k);
            }
            if exists|i: int| 0 <= i < n && (#[trigger] es[i]).0 == k {
                let i = choose|i: int| 0 <= i < n && (#[trigger] es[i]).0 == k;
                if i < n - 1 {
                    assert(before.contains_key(k));
                }
            }
        }
    }
}

/// An index section that lists a map is read as that map.
proof fn lemma_index_read(es: Seq<(i64, u64)>, m: Map<i64, u64>)
    requires
        lists(es, m),
    ensures
        index_entries(pairs_bytes(index_pairs(es)), es.len()) == m,
{
    reveal(lists);
    lemma_index_prefix(es, es.len());
    let read = index_entries(pairs_bytes(index_pairs(es)), es.len());
    assert(read =~= m) by {
        assert forall|k: i64| #[trigger] read.contains_key(k) <==> m.contains_key(k) by {
            if read.contains_key(k) {
                let i = choose|i: int| 0 <= i < es.len() && (#[trigger] es[i]).0 == k;
                assert(m.contains_key(es[i].0));
            }
        }
        assert forall|k: i64| #[trigger] read.contains_key(k) implies read[k] == m[k] by {
            let i = choose|i: int| 0 <= i < es.len() && (#[trigger] es[i]).0 == k;
            assert(read[es[i].0] == es[i].1);
            assert(m[es[i].0] == es[i].1);
        }
    }
}

/// A finished file is intact, and its header and footer are those that were written.
proof fn lemma_intact(
    header: FileHeader,
    ps: Seq<Piece>,
    index: Seq<(i64, u64)>,
    txns: Seq<(i64, i64)>,
)
    requires
        header.magic == MAGIC_BYTES,
        header.version > 2,
        header.header_size == 64,
    ensures
        ({
            let file = sealed_file(header, ps, index, txns);
            intact(file, file_crc(file)) == Ok::<(FileHeader, Footer), OpenError>(
                (header, footer_of(ps, index, txns)),
            )
        }),
{
    reveal(intact);
    let file = sealed_file(header, ps, index, txns);
    let unsealed = unsealed_file(header, ps, index, txns);
    let footer = footer_of(ps, index, txns);
    let tail = le_bytes(crc32(unsealed) as nat, 4);
    let body = body_bytes(ps) + pairs_bytes(index_pairs(index)) + pairs_bytes(txn_pairs(txns));
    lemma_byte_range();
    lemma_header_len(header);
    lemma_footer_len(footer);
    lemma_le_round_trip(crc32(unsealed) as nat, 4);
    let behind = body + footer_bytes(footer) + tail;
    assert(file =~= header_bytes(header) + behind);
    header_round_trip(header, behind);
    let n = file.len();
    assert(file.subrange(n - 68, n - 4) =~= footer_bytes(footer) + Seq::<u8>::empty());
    footer_round_trip(footer, header.version, Seq::empty());
    assert(file.subrange(n - 4, n as int) =~= tail);
    assert(file.take(n - 4) =~= unsealed);
    assert(read_header(file) == Ok::<FileHeader, FormatError>(header));
    assert(field(file, 8, 12) == header.version) by {
        lemma_le_round_trip(header.version as nat, 4);
        assert(file.subrange(8, 12) =~= le_bytes(header.version as nat, 4)) by {
            lemma_le_round_trip(header.magic as nat, 8);
        }
    }
}

/// The parts of a finished file, from the front.
proof fn lemma_file_parts(
    header: FileHeader,
    ps: Seq<Piece>,
    index: Seq<(i64, u64)>,
    txns: Seq<(i64, i64)>,
)
    ensures
        sealed_file(header, ps, index, txns) == header_bytes(header) + (body_bytes(ps) + (
        pairs_bytes(index_pairs(index)) + (pairs_bytes(txn_pairs(txns)) + (footer_bytes(
            footer_of(ps, index, txns),
        ) + le_bytes(crc32(unsealed_file(header, ps, index, txns)) as nat, 4))))),
        sealed_file(header, ps, index, txns).len() == 132 + body_bytes(ps).len() + 16 * index.len()
            + 16 * txns.len(),
{
    let a = header_bytes(header);
    let b = body_bytes(ps);
    let c = pairs_bytes(index_pairs(index));
    let d = pairs_bytes(txn_pairs(txns));
    let e = footer_bytes(footer_of(ps, index, txns));
    let f = le_bytes(crc32(unsealed_file(header, ps, index, txns)) as nat, 4);
    lemma_header_len(header);
    lemma_footer_len(footer_of(ps, index, txns));
    lemma_pairs_len(index_pairs(index));
    lemma_pairs_len(txn_pairs(txns));
    lemma_le_bytes_len(crc32(unsealed_file(header, ps, index, txns)) as nat, 4);
    lemma_join_assoc(a + b + c + d, e, f);
    lemma_join_assoc(a + b + c, d, e + f);
    lemma_join_assoc(a + b, c, d + (e + f));
    lemma_join_assoc(a, b, c + (d + (e + f)));
}

proof fn lemma_file_schema(
    header: FileHeader,
    s: SchemaV,
    ps: Seq<Piece>,
    end: Seq<u8>,
    now: int,
)
    requires
        storable(s),
        0 < s.created_at <= i64::MAX,
        0 < s.updated_at <= i64::MAX,
        snapshot_schema_bytes(s, 3).len() < 0x1_0000_0000,
        ps.len() > 0,
        ps.take(1) == seq![Piece::Schema(snapshot_schema_bytes(s, 3))],
    ensures
        file_schema(header_bytes(header) + (body_bytes(ps) + end), 64, now) == Ok::<
            SchemaV,
            OpenError,
        >(s),
{
    reveal(file_schema);
    let schema = snapshot_schema_bytes(s, 3);
    let rest = lemma_body_split(ps, 0);
    assert(ps[0] == ps.take(1)[0]);
    assert(ps.take(0) =~= Seq::empty());
    let length = le_bytes(schema.len(), 4);
    let body = length + schema + rest;
    assert(body_bytes(ps) =~= body);
    let file = header_bytes(header) + (body + end);
    let n = schema.len() as int;
    lemma_byte_range();
    lemma_header_len(header);
    lemma_le_round_trip(schema.len(), 4);
    assert(file.subrange(64, 68) =~= length);
    assert(file.subrange(68, 68 + n) =~= schema);
    snapshot_schema_round_trip(s, 3, now);
    assert(with_sections(s, 3) == s);
}

proof fn lemma_file_index(
    header: FileHeader,
    ps: Seq<Piece>,
    index: Seq<(i64, u64)>,
    footer: Footer,
    end: Seq<u8>,
)
    requires
        lists(index, index_of(ps)),
        footer.index_offset == 64 + body_bytes(ps).len(),
        footer.index_size == 16 * index.len(),
    ensures
        file_index(
            header_bytes(header) + (body_bytes(ps) + (pairs_bytes(index_pairs(index)) + end)),
            footer,
        ) == Ok::<Map<i64, u64>, OpenError>(index_of(ps)),
{
    reveal(file_index);
    let part = pairs_bytes(index_pairs(index));
    let body = body_bytes(ps);
    let file = header_bytes(header) + (body + (part + end));
    lemma_header_len(header);
    lemma_pairs_len(index_pairs(index));
    lemma_index_read(index, index_of(ps));
    if index.len() == 0 {
        reveal(lists);
        assert(index_of(ps) =~= Map::empty());
    } else {
        let from = 64 + body.len() as int;
        assert(file.subrange(from, from + 16 * index.len()) =~= part);
    }
}

proof fn lemma_file_read(
    header: FileHeader,
    s: SchemaV,
    ps: Seq<Piece>,
    index: Seq<(i64, u64)>,
    txns: Seq<(i64, i64)>,
    now: int,
)
    requires
        header.magic == MAGIC_BYTES,
        header.version > 2,
        header.header_size == 64,
        storable(s),
        0 < s.created_at <= i64::MAX,
        0 < s.updated_at <= i64::MAX,
        snapshot_schema_bytes(s, 3).len() < 0x1_0000_0000,
        ps.len() > 0,
        ps.take(1) == seq![Piece::Schema(snapshot_schema_bytes(s, 3))],
        lists(index, index_of(ps)),
        sealed_file(header, ps, index, txns).len() <= u64::MAX,
    ensures
        ({
            let file = sealed_file(header, ps, index, txns);
            read_file(file, file_crc(file), now) == Ok::<FileV, OpenError>(
                FileV {
                    header,
                    footer: footer_of(ps, index, txns),
                    schema: s,
                    index: index_of(ps),
                },
            )
        }),
{
    let footer = footer_of(ps, index, txns);
    let after_index = pairs_bytes(txn_pairs(txns)) + (footer_bytes(footer) + le_bytes(
        crc32(unsealed_file(header, ps, index, txns)) as nat,
        4,
    ));
    lemma_intact(header, ps, index, txns);
    lemma_file_parts(header, ps, index, txns);
    lemma_file_schema(header, s, ps, pairs_bytes(index_pairs(index)) + after_index, now);
    lemma_file_index(header, ps, index, footer, after_index);
}

proof fn lemma_file_row(
    header: FileHeader,
    before: Seq<Piece>,
    ps: Seq<Piece>,
    rows: Seq<SnapshotRow>,
    i: int,
    end: Seq<u8>,
)
    requires
        took_rows(before, ps, rows),
        0 <= i < rows.len(),
        rows[i].encoded@.len() < 0x8000_0000,
        64 + body_bytes(ps).len() <= u64::MAX,
    ensures
        index_of(ps).contains_key(rows[i].row_id),
        row_at(
            header_bytes(header) + (body_bytes(ps) + end),
            index_of(ps)[rows[i].row_id] as int,
        ) == Some(rows[i].encoded@),
{
    lemma_row_place(before, ps, rows, i);
    lemma_header_len(header);
    let k = before.len() + i;
    let rest = lemma_body_split(ps, k);
    let body = body_bytes(ps.take(k));
    let front = header_bytes(header) + body;
    match ps[k] {
        Piece::Schema(b) => {},
        Piece::Row { row_id, txn_id, create_time, encoded, payload, compressed } => {
            let record = record_bytes(payload, compressed);
            lemma_row_at(front, payload, compressed, encoded, rest + end);
            lemma_join_assoc(body, record + rest, end);
            lemma_join_assoc(record, rest, end);
            lemma_join_assoc(header_bytes(header), body, record + (rest + end));
        },
    }
}

proof fn lemma_file_rows(
    header: FileHeader,
    before: Seq<Piece>,
    ps: Seq<Piece>,
    rows: Seq<SnapshotRow>,
    end: Seq<u8>,
)
    requires
        took_rows(before, ps, rows),
        forall|i: int| 0 <= i < rows.len() ==> (#[trigger] rows[i]).encoded@.len() < 0x8000_0000,
        64 + body_bytes(ps).len() <= u64::MAX,
    ensures
        rows_in(header_bytes(header) + (body_bytes(ps) + end), index_of(ps), rows),
{
    reveal(rows_in);
    let file = header_bytes(header) + (body_bytes(ps) + end);
    assert forall|i: int| 0 <= i < rows.len() implies index_of(ps).contains_key(
        (#[trigger] rows[i]).row_id,
    ) && row_at(file, index_of(ps)[rows[i].row_id] as int) == Some(rows[i].encoded@) by {
        lemma_file_row(header, before, ps, rows, i, end);
    }
}

/// Whether a file with the given index has each of `rows` under its identity, by its encoded form.
#[verifier::opaque]
pub open spec fn rows_in(file: Seq<u8>, index: Map<i64, u64>, rows: Seq<SnapshotRow>) -> bool {
    forall|i: int|
        0 <= i < rows.len() ==> index.contains_key((#[trigger] rows[i]).row_id) && row_at(
            file,
            index[rows[i].row_id] as int,
        ) == Some(rows[i].encoded@)
}

/// A snapshot gives back what was put into it. Where a writer has put out the schema `s` and then
/// `rows`, none of them twice, the finished file opens; it gives the header, the schema, the number
/// of rows, and under each row's identity the row's encoded form.
pub proof fn snapshot_round_trip(
    file: Seq<u8>,
    creation_time: i64,
    source_lsn: u64,
    s: SchemaV,
    ps: Seq<Piece>,
    rows: Seq<SnapshotRow>,
    now: int,
)
    requires
        storable(s),
        0 < s.created_at <= i64::MAX,
        0 < s.updated_at <= i64::MAX,
        snapshot_schema_bytes(s, 3).len() < 0x1_0000_0000,
        forall|i: int| 0 <= i < rows.len() ==> (#[trigger] rows[i]).encoded@.len() < 0x8000_0000,
        took_rows(seq![Piece::Schema(snapshot_schema_bytes(s, 3))], ps, rows),
        is_snapshot_file(file, new_header(creation_time, source_lsn), ps),
        file.len() <= u64::MAX,
    ensures
        read_file(file, file_crc(file), now) is Ok,
        ({
            let f = read_file(file, file_crc(file), now)->Ok_0;
            &&& f.header == new_header(creation_time, source_lsn)
            &&& f.schema == s
            &&& f.footer.row_count == rows.len()
            &&& f.index == index_of(ps)
            &&& rows_in(file, f.index, rows)
        }),
{
    let header = new_header(creation_time, source_lsn);
    let first = seq![Piece::Schema(snapshot_schema_bytes(s, 3))];
    let (index, txns) = choose|index: Seq<(i64, u64)>, txns: Seq<(i64, i64)>|
        #![trigger sealed_file(header, ps, index, txns)]
        lists(index, index_of(ps)) && lists(txns, txns_of(ps)) && file == sealed_file(
            header,
            ps,
            index,
            txns,
        );
    lemma_took_rows_len(first, ps, rows);
    lemma_file_parts(header, ps, index, txns);
    lemma_file_read(header, s, ps, index, txns, now);
    assert(row_total(first) == 0) by {
        reveal_with_fuel(row_total, 2);
    }
    let end = pairs_bytes(index_pairs(index)) + (pairs_bytes(txn_pairs(txns)) + (footer_bytes(
        footer_of(ps, index, txns),
    ) + le_bytes(crc32(unsealed_file(header, ps, index, txns)) as nat, 4)));
    lemma_file_rows(header, first, ps, rows, end);
    lemma_body_bounds(ps);
}

/// A file whose last four bytes are not the checksum of the rest is refused, whatever else it
/// holds, from version 2 on.
pub proof fn damaged_file_is_refused(b: Seq<u8>, now: int)
    requires
        b.len() >= 16,
        field(b, 8, 12) >= 2,
        field(b, b.len() - 4, b.len() as int) != file_crc(b),
    ensures
        read_file(b, file_crc(b), now) is Err,
        intact(b, file_crc(b)) is Err,
{
    reveal(intact);
    lemma_byte_range();
    lemma_le_value_bound(b.subrange(8, 12));
}

/// A snapshot file in which one byte was changed is refused, wherever the byte stands: in the header,
/// the rows, the index, the footer or the checksum. So is one with a single flipped bit. Unchanged,
/// the file is accepted with its log position.
pub proof fn changed_byte_is_refused(
    file: Seq<u8>,
    creation_time: i64,
    source_lsn: u64,
    ps: Seq<Piece>,
    b: Seq<u8>,
    i: int,
    now: int,
)
    requires
        is_snapshot_file(file, new_header(creation_time, source_lsn), ps),
        one_byte_apart(file, b, i),
    ensures
        intact(file, file_crc(file)) matches Ok((h, f)) && h.source_lsn == source_lsn,
        intact(b, file_crc(b)) is Err,
        read_file(b, file_crc(b), now) is Err,
{
    let header = new_header(creation_time, source_lsn);
    let (index, txns) = choose|index: Seq<(i64, u64)>, txns: Seq<(i64, i64)>|
        #![trigger sealed_file(header, ps, index, txns)]
        lists(index, index_of(ps)) && lists(txns, txns_of(ps)) && file == sealed_file(
            header,
            ps,
            index,
            txns,
        );
    lemma_intact(header, ps, index, txns);
    lemma_file_parts(header, ps, index, txns);
    changed_byte_breaks_the_seal(unsealed_file(header, ps, index, txns), b, i);
    if field(b, 8, 12) >= 2 {
        damaged_file_is_refused(b, now);
    } else {
        lemma_older_version(header, ps, index, txns, b, i);
    }
}

proof fn lemma_magic_bytes()
    ensures
        le_bytes(MAGIC_BYTES as nat, 8).len() == 8,
        le_bytes(MAGIC_BYTES as nat, 8)[1] == 0x48,
        le_bytes(FOOTER_MAGIC as nat, 8).len() == 8,
        le_bytes(FOOTER_MAGIC as nat, 8)[5] == 0x4e,
{
    lemma_le_bytes_len(MAGIC_BYTES as nat, 8);
    lemma_le_bytes_len(FOOTER_MAGIC as nat, 8);
    reveal_with_fuel(le_bytes, 7);
}

proof fn lemma_version_field(h: FileHeader, rest: Seq<u8>)
    ensures
        field(header_bytes(h) + rest, 8, 12) == h.version,
{
    lemma_byte_range();
    lemma_header_len(h);
    lemma_le_round_trip(h.version as nat, 4);
    lemma_le_bytes_len(h.magic as nat, 8);
    assert((header_bytes(h) + rest).subrange(8, 12) =~= le_bytes(h.version as nat, 4));
}

/// A byte of the footer's magic number stands in the file's last eight bytes.
proof fn lemma_footer_end(front: Seq<u8>, f: Footer, tail: Seq<u8>)
    requires
        tail.len() == 4,
        f.magic == FOOTER_MAGIC,
    ensures
        ({
            let b = front + (footer_bytes(f) + tail);
            b[b.len() - 7] == 0x4e
        }),
{
    lemma_footer_len(f);
    lemma_magic_bytes();
    let b = front + (footer_bytes(f) + tail);
    assert(b[b.len() - 7] == footer_bytes(f)[61]);
    assert(footer_bytes(f)[61] == le_bytes(f.magic as nat, 8)[5]);
}

/// Bytes with that byte in their place are no footer of a file without a checksum.
proof fn lemma_no_old_footer(b: Seq<u8>)
    requires
        b.len() >= 48,
        b[b.len() - 7] == 0x4e,
        field(b, 8, 12) < 2,
    ensures
        intact(b, file_crc(b)) is Err,
{
    reveal(intact);
    let n = b.len() as int;
    let last = b.subrange(n - 48, n).subrange(40, 48);
    assert(last[1] == b[n - 7]);
    if le_value(last) == MAGIC_BYTES {
        lemma_le_bytes_of_value(last);
        lemma_magic_bytes();
    }
}

/// Where the version of a file was changed to one whose files have no checksum, the last bytes are
/// not those of such a file.
proof fn lemma_older_version(
    header: FileHeader,
    ps: Seq<Piece>,
    index: Seq<(i64, u64)>,
    txns: Seq<(i64, i64)>,
    b: Seq<u8>,
    i: int,
)
    requires
        header.version > 2,
        one_byte_apart(sealed_file(header, ps, index, txns), b, i),
        field(b, 8, 12) < 2,
    ensures
        intact(b, file_crc(b)) is Err,
{
    let file = sealed_file(header, ps, index, txns);
    let footer = footer_of(ps, index, txns);
    let tail = le_bytes(crc32(unsealed_file(header, ps, index, txns)) as nat, 4);
    let front = header_bytes(header) + body_bytes(ps) + pairs_bytes(index_pairs(index))
        + pairs_bytes(txn_pairs(txns));
    let n = b.len() as int;
    lemma_file_parts(header, ps, index, txns);
    lemma_le_bytes_len(crc32(unsealed_file(header, ps, index, txns)) as nat, 4);
    lemma_join_assoc(front, footer_bytes(footer), tail);
    lemma_footer_end(front, footer, tail);
    lemma_version_field(
        header,
        body_bytes(ps) + (pairs_bytes(index_pairs(index)) + (pairs_bytes(txn_pairs(txns)) + (
        footer_bytes(footer) + tail))),
    );
    if i >= 12 {
        assert forall|k: int| 0 <= k < 4 implies #[trigger] b.subrange(8, 12)[k] == file.subrange(
            8,
            12,
        )[k] by {
            assert(file[8 + k] == b[8 + k]);
        }
        assert(b.subrange(8, 12) =~= file.subrange(8, 12));
    }
    assert(file[n - 7] == b[n - 7]);
    lemma_no_old_footer(b);
}

/// A row is given once: asked for a second time, it is not there.
pub proof fn row_is_given_once(v: ReaderV, row_id: i64)
    ensures
        unloaded_row(with_loaded(v, row_id), row_id) is None,
{
}

/// Loading one row leaves every other row as it was.
pub proof fn loading_leaves_other_rows(v: ReaderV, row_id: i64, other: i64)
    requires
        row_id != other,
    ensures
        unloaded_row(with_loaded(v, row_id), other) == unloaded_row(v, other),
{
}

} // verus!
