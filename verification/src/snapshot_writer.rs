//! Writing a snapshot: a header, a schema, rows, and behind them the index of the rows, the
//! transactions, a footer and a checksum.

use crate::bytes::{
    i64_bits, i64_to_bits, le_bytes, lemma_join_assoc, lemma_join_nothing, lemma_le_bytes_len,
    push_bytes, push_le,
};
use crate::checksum::{crc32, finish_hasher, hashed, new_hasher, update_hasher};
use crate::compression::{lz4_compress, lz4_decompressed};
use crate::listing::{entries_of, lists};
use crate::schema::Schema;
use crate::schema_codec::serialize_snapshot_schema;
use crate::schema_format::snapshot_schema_bytes;
use crate::snapshot_format::{
    FOOTER_MAGIC, FileHeader, Footer, footer_bytes, header_bytes, lemma_header_len, new_header,
};
use std::collections::BTreeMap;
use vstd::prelude::*;

verus! {

/// A row is compressed only from this length on.
pub const ROW_COMPRESSION_THRESHOLD: usize = 64;

/// A row that a snapshot takes in: its identity, what is recorded of its transaction, and the row
/// version's encoded form.
#[derive(Debug)]
pub struct SnapshotRow {
    pub row_id: i64,
    pub txn_id: i64,
    pub create_time: i64,
    pub encoded: Vec<u8>,
}

/// What a snapshot holds between its header and its index.
pub enum Piece {
    /// A schema, behind its length.
    Schema(Seq<u8>),
    /// A row's encoded form and what the file holds of it, behind its length.
    Row {
        row_id: i64,
        txn_id: i64,
        create_time: i64,
        encoded: Seq<u8>,
        payload: Seq<u8>,
        compressed: bool,
    },
}

/// A row's payload behind its length, in which a compressed one is marked.
pub open spec fn record_bytes(payload: Seq<u8>, compressed: bool) -> Seq<u8> {
    if compressed {
        le_bytes(payload.len() + 0x8000_0000, 4) + payload
    } else {
        le_bytes(payload.len(), 4) + payload
    }
}

/// Whether compression was tried on `encoded` and gained nothing: a block that decompresses to it is
/// no shorter.
pub open spec fn resists_compression(encoded: Seq<u8>) -> bool {
    exists|block: Seq<u8>|
        #[trigger] lz4_decompressed(block) == Some(encoded) && block.len() >= encoded.len()
}

/// Whether `payload` is the form in which a row with the encoded form `encoded` is stored: compressed
/// where it is long enough and that makes it shorter, else as it is.
pub open spec fn stands_for(payload: Seq<u8>, compressed: bool, encoded: Seq<u8>) -> bool {
    if compressed {
        &&& encoded.len() >= ROW_COMPRESSION_THRESHOLD
        &&& payload.len() < encoded.len()
        &&& lz4_decompressed(payload) == Some(encoded)
    } else {
        &&& payload == encoded
        &&& encoded.len() >= ROW_COMPRESSION_THRESHOLD ==> resists_compression(encoded)
    }
}

/// A piece as the file holds it.
pub open spec fn piece_bytes(p: Piece) -> Seq<u8> {
    match p {
        Piece::Schema(b) => le_bytes(b.len(), 4) + b,
        Piece::Row { row_id, txn_id, create_time, encoded, payload, compressed } => record_bytes(
            payload,
            compressed,
        ),
    }
}

/// Pieces one behind the other.
pub open spec fn body_bytes(ps: Seq<Piece>) -> Seq<u8>
    decreases ps.len(),
{
    if ps.len() == 0 {
        Seq::empty()
    } else {
        body_bytes(ps.drop_last()) + piece_bytes(ps.last())
    }
}

/// The rows among the pieces one behind the other.
pub open spec fn record_list_bytes(ps: Seq<Piece>) -> Seq<u8>
    decreases ps.len(),
{
    if ps.len() == 0 {
        Seq::empty()
    } else if ps.last() is Row {
        record_list_bytes(ps.drop_last()) + piece_bytes(ps.last())
    } else {
        record_list_bytes(ps.drop_last())
    }
}

/// Where in the file each row begins.
pub open spec fn index_of(ps: Seq<Piece>) -> Map<i64, u64>
    decreases ps.len(),
{
    if ps.len() == 0 {
        Map::empty()
    } else {
        match ps.last() {
            Piece::Schema(b) => index_of(ps.drop_last()),
            Piece::Row { row_id, .. } => index_of(ps.drop_last()).insert(
                row_id,
                (64 + body_bytes(ps.drop_last()).len()) as u64,
            ),
        }
    }
}

/// The creation time of the last row of each transaction.
pub open spec fn txns_of(ps: Seq<Piece>) -> Map<i64, i64>
    decreases ps.len(),
{
    if ps.len() == 0 {
        Map::empty()
    } else {
        match ps.last() {
            Piece::Schema(b) => txns_of(ps.drop_last()),
            Piece::Row { txn_id, create_time, .. } => txns_of(ps.drop_last()).insert(
                txn_id,
                create_time,
            ),
        }
    }
}

/// The number of rows among the pieces.
pub open spec fn row_total(ps: Seq<Piece>) -> nat
    decreases ps.len(),
{
    if ps.len() == 0 {
        0
    } else if ps.last() is Row {
        row_total(ps.drop_last()) + 1
    } else {
        row_total(ps.drop_last())
    }
}

pub proof fn lemma_body_bounds(ps: Seq<Piece>)
    ensures
        row_total(ps) <= body_bytes(ps).len(),
        record_list_bytes(ps).len() <= body_bytes(ps).len(),
    decreases ps.len(),
{
    if ps.len() > 0 {
        lemma_body_bounds(ps.drop_last());
        match ps.last() {
            Piece::Schema(b) => {},
            Piece::Row { row_id, txn_id, create_time, encoded, payload, compressed } => {
                lemma_le_bytes_len(payload.len() + 0x8000_0000, 4);
                lemma_le_bytes_len(payload.len(), 4);
            },
        }
    }
}

/// Index entries, or transactions with their times, in sixteen bytes each.
pub open spec fn pairs_bytes(es: Seq<(nat, nat)>) -> Seq<u8>
    decreases es.len(),
{
    if es.len() == 0 {
        Seq::empty()
    } else {
        pairs_bytes(es.drop_last()) + (le_bytes(es.last().0, 8) + le_bytes(es.last().1, 8))
    }
}

pub proof fn lemma_pairs_len(es: Seq<(nat, nat)>)
    ensures
        pairs_bytes(es).len() == 16 * es.len(),
    decreases es.len(),
{
    if es.len() > 0 {
        lemma_pairs_len(es.drop_last());
        lemma_le_bytes_len(es.last().0, 8);
        lemma_le_bytes_len(es.last().1, 8);
    }
}

/// Index entries as pairs of numbers.
pub open spec fn index_pairs(es: Seq<(i64, u64)>) -> Seq<(nat, nat)> {
    es.map_values(|e: (i64, u64)| (i64_bits(e.0 as int), e.1 as nat))
}

/// Transactions with their times as pairs of numbers.
pub open spec fn txn_pairs(es: Seq<(i64, i64)>) -> Seq<(nat, nat)> {
    es.map_values(|e: (i64, i64)| (i64_bits(e.0 as int), i64_bits(e.1 as int)))
}

/// The footer of a snapshot with the given pieces, index entries and transactions.
pub open spec fn footer_of(ps: Seq<Piece>, index: Seq<(i64, u64)>, txns: Seq<(i64, i64)>) -> Footer {
    Footer {
        index_offset: (64 + body_bytes(ps).len()) as u64,
        index_size: (16 * index.len()) as u64,
        row_count: row_total(ps) as u64,
        txn_ids_offset: (64 + body_bytes(ps).len() + 16 * index.len()) as u64,
        txn_ids_count: txns.len() as u64,
        data_checksum: crc32(record_list_bytes(ps)),
        magic: FOOTER_MAGIC,
    }
}

/// A snapshot file up to its checksum.
pub open spec fn unsealed_file(
    header: FileHeader,
    ps: Seq<Piece>,
    index: Seq<(i64, u64)>,
    txns: Seq<(i64, i64)>,
) -> Seq<u8> {
    header_bytes(header) + body_bytes(ps) + pairs_bytes(index_pairs(index)) + pairs_bytes(
        txn_pairs(txns),
    ) + footer_bytes(footer_of(ps, index, txns))
}

/// A snapshot file: everything up to the checksum, and the checksum of that.
pub open spec fn sealed_file(
    header: FileHeader,
    ps: Seq<Piece>,
    index: Seq<(i64, u64)>,
    txns: Seq<(i64, i64)>,
) -> Seq<u8> {
    unsealed_file(header, ps, index, txns) + le_bytes(
        crc32(unsealed_file(header, ps, index, txns)) as nat,
        4,
    )
}

/// Whether `file` is the snapshot file with the given header and pieces.
pub open spec fn is_snapshot_file(file: Seq<u8>, header: FileHeader, ps: Seq<Piece>) -> bool {
    exists|index: Seq<(i64, u64)>, txns: Seq<(i64, i64)>|
        #![trigger sealed_file(header, ps, index, txns)]
        lists(index, index_of(ps)) && lists(txns, txns_of(ps)) && file == sealed_file(
            header,
            ps,
            index,
            txns,
        )
}

/// Why a row is not taken into a snapshot.
#[derive(Debug, Clone, Copy, PartialEq, Eq, Structural)]
pub enum WriteError {
    DuplicateRow { row_id: i64 },
}

/// The payload for a row: the compressed form where there is one and it is shorter.
pub fn choose_payload(encoded: &[u8], candidate: Option<Vec<u8>>) -> (r: (Vec<u8>, bool))
    ensures
        match candidate {
            Some(c) => if c@.len() < encoded@.len() {
                r.0@ == c@ && r.1
            } else {
                r.0@ == encoded@ && !r.1
            },
            None => r.0@ == encoded@ && !r.1,
        },
{
    match candidate {
        Some(c) => if c.len() < encoded.len() {
            (c, true)
        } else {
            (vstd::slice::slice_to_vec(encoded), false)
        },
        None => (vstd::slice::slice_to_vec(encoded), false),
    }
}

/// A snapshot in the making.
pub struct SnapshotWriter {
    out: Vec<u8>,
    header: FileHeader,
    row_count: u64,
    row_index: BTreeMap<i64, u64>,
    committed_txn_ids: BTreeMap<i64, i64>,
    failed: bool,
    data_hasher: crc32fast::Hasher,
    file_hasher: crc32fast::Hasher,
    pieces: Ghost<Seq<Piece>>,
}

/// What a snapshot in the making holds.
pub struct WriterV {
    pub header: FileHeader,
    pub pieces: Seq<Piece>,
    pub failed: bool,
}

impl View for SnapshotWriter {
    type V = WriterV;

    closed spec fn view(&self) -> WriterV {
        WriterV { header: self.header, pieces: self.pieces@, failed: self.failed }
    }
}

/// Appends pairs of numbers in sixteen bytes each.
fn push_index_entries(out: &mut Vec<u8>, entries: &Vec<(i64, u64)>)
    ensures
        final(out)@ == old(out)@ + pairs_bytes(index_pairs(entries@)),
{
    let ghost pairs = index_pairs(entries@);
    let mut i: usize = 0;
    proof {
        assert(pairs.take(0) =~= Seq::empty());
        lemma_join_nothing(out@);
    }
    while i < entries.len()
        invariant
            i <= entries@.len(),
            pairs == index_pairs(entries@),
            out@ == old(out)@ + pairs_bytes(pairs.take(i as int)),
        decreases entries@.len() - i,
    {
        let ghost before = out@;
        let (key, value) = entries[i];
        push_le(out, i64_to_bits(key), 8);
        push_le(out, value, 8);
        proof {
            let longer = pairs.take(i + 1);
            let a = le_bytes(i64_bits(key as int), 8);
            let b = le_bytes(value as nat, 8);
            assert(longer.drop_last() =~= pairs.take(i as int));
            assert(longer.last() == pairs[i as int]);
            lemma_join_assoc(before, a, b);
            lemma_join_assoc(old(out)@, pairs_bytes(pairs.take(i as int)), a + b);
        }
        i = i + 1;
    }
    assert(pairs.take(i as int) =~= pairs);
}

fn push_transactions(out: &mut Vec<u8>, entries: &Vec<(i64, i64)>)
    ensures
        final(out)@ == old(out)@ + pairs_bytes(txn_pairs(entries@)),
{
    let ghost pairs = txn_pairs(entries@);
    let mut i: usize = 0;
    proof {
        assert(pairs.take(0) =~= Seq::empty());
        lemma_join_nothing(out@);
    }
    while i < entries.len()
        invariant
            i <= entries@.len(),
            pairs == txn_pairs(entries@),
            out@ == old(out)@ + pairs_bytes(pairs.take(i as int)),
        decreases entries@.len() - i,
    {
        let ghost before = out@;
        let (key, value) = entries[i];
        push_le(out, i64_to_bits(key), 8);
        push_le(out, i64_to_bits(value), 8);
        proof {
            let longer = pairs.take(i + 1);
            let a = le_bytes(i64_bits(key as int), 8);
            let b = le_bytes(i64_bits(value as int), 8);
            assert(longer.drop_last() =~= pairs.take(i as int));
            assert(longer.last() == pairs[i as int]);
            lemma_join_assoc(before, a, b);
            lemma_join_assoc(old(out)@, pairs_bytes(pairs.take(i as int)), a + b);
        }
        i = i + 1;
    }
    assert(pairs.take(i as int) =~= pairs);
}

impl SnapshotWriter {
    /// Whether the parts of the writer agree: what it has put out is the header and the pieces, and
    /// its index, its transactions, its count and its checksums are those of the pieces.
    pub closed spec fn wf(&self) -> bool {
        let ps = self.pieces@;
        &&& self.out@ == header_bytes(self.header) + body_bytes(ps)
        &&& hashed(self.file_hasher) == self.out@
        &&& hashed(self.data_hasher) == record_list_bytes(ps)
        &&& self.row_index@ == index_of(ps)
        &&& self.committed_txn_ids@ == txns_of(ps)
        &&& self.row_count == row_total(ps)
    }

    /// A snapshot made at `creation_time` that goes up to the log position 0.
    pub fn new(creation_time: i64) -> (w: SnapshotWriter)
        ensures
            w.wf(),
            w@ == (WriterV {
                header: new_header(creation_time, 0),
                pieces: Seq::empty(),
                failed: false,
            }),
    {
        SnapshotWriter::with_source_lsn(creation_time, 0)
    }

    /// A snapshot made at `creation_time` that goes up to a log position.
    pub fn with_source_lsn(creation_time: i64, source_lsn: u64) -> (w: SnapshotWriter)
        ensures
            w.wf(),
            w@ == (WriterV {
                header: new_header(creation_time, source_lsn),
                pieces: Seq::empty(),
                failed: false,
            }),
    {
        let header = FileHeader::new(creation_time).with_source_lsn(source_lsn);
        let out = header.to_bytes();
        let mut file_hasher = new_hasher();
        update_hasher(&mut file_hasher, out.as_slice());
        let w = SnapshotWriter {
            out,
            header,
            row_count: 0,
            row_index: BTreeMap::new(),
            committed_txn_ids: BTreeMap::new(),
            failed: false,
            data_hasher: new_hasher(),
            file_hasher,
            pieces: Ghost(Seq::empty()),
        };
        assert(Seq::<u8>::empty() + w.out@ =~= w.out@);
        assert(w.out@ + Seq::<u8>::empty() =~= w.out@);
        w
    }

    /// Marks the snapshot as failed.
    pub fn fail(&mut self)
        requires
            old(self).wf(),
        ensures
            final(self).wf(),
            final(self)@ == (WriterV { failed: true, ..old(self)@ }),
    {
        self.failed = true;
    }

    /// Whether the snapshot is marked as failed.
    pub fn has_failed(&self) -> (r: bool)
        ensures
            r == self@.failed,
    {
        self.failed
    }

    /// The log position up to which the snapshot goes.
    pub fn source_lsn(&self) -> (lsn: u64)
        ensures
            lsn == self@.header.source_lsn,
    {
        self.header.source_lsn
    }

    /// Puts out a schema behind its length. A length of 2^32 or more is stored by its low bytes.
    pub fn write_schema(&mut self, schema: &Schema)
        requires
            old(self).wf(),
        ensures
            final(self).wf(),
            final(self)@ == (WriterV {
                pieces: old(self)@.pieces.push(
                    Piece::Schema(snapshot_schema_bytes(schema@, 3)),
                ),
                ..old(self)@
            }),
    {
        let schema_bytes = serialize_snapshot_schema(schema);
        let mut piece: Vec<u8> = Vec::new();
        push_le(&mut piece, schema_bytes.len() as u64, 4);
        push_bytes(&mut piece, schema_bytes.as_slice());
        let ghost added = Piece::Schema(schema_bytes@);
        let ghost before = self.pieces@;
        let ghost start = self.out@;
        assert(piece@ =~= piece_bytes(added));
        push_bytes(&mut self.out, piece.as_slice());
        let written: usize = self.out.len();
        assert(written == self.out@.len());
        update_hasher(&mut self.file_hasher, piece.as_slice());
        self.pieces = Ghost(before.push(added));
        proof {
            assert(before.push(added).drop_last() =~= before);
            lemma_join_assoc(header_bytes(self.header), body_bytes(before), piece@);
        }
    }

    /// Takes in a row; one whose identity is already in the snapshot is refused, and changes
    /// nothing. From a length on the row is compressed, where that makes it shorter.
    pub fn append_row(&mut self, row: &SnapshotRow) -> (r: Result<(), WriteError>)
        requires
            old(self).wf(),
            row.encoded@.len() < 0x8000_0000,
        ensures
            final(self).wf(),
            match r {
                Ok(_) => {
                    &&& !index_of(old(self)@.pieces).contains_key(row.row_id)
                    &&& final(self)@.header == old(self)@.header
                    &&& final(self)@.failed == old(self)@.failed
                    &&& took_row(old(self)@.pieces, final(self)@.pieces, *row)
                },
                Err(e) => {
                    &&& index_of(old(self)@.pieces).contains_key(row.row_id)
                    &&& e == (WriteError::DuplicateRow { row_id: row.row_id })
                    &&& final(self)@ == old(self)@
                },
            },
    {
        broadcast use vstd::std_specs::btree::group_btree_axioms;
        broadcast use vstd::laws_cmp::group_laws_cmp;

        if self.row_index.contains_key(&row.row_id) {
            return Err(WriteError::DuplicateRow { row_id: row.row_id });
        }
        let candidate = if row.encoded.len() >= ROW_COMPRESSION_THRESHOLD {
            Some(lz4_compress(row.encoded.as_slice()))
        } else {
            None
        };
        proof {
            if candidate is Some {
                assert(lz4_decompressed(candidate->Some_0@) == Some(row.encoded@));
            }
        }
        let (payload, compressed) = choose_payload(row.encoded.as_slice(), candidate);
        let ghost before = self.pieces@;
        self.put_row(row, payload, compressed);
        assert(self@.pieces.drop_last() =~= before);
        Ok(())
    }

    fn put_row(&mut self, row: &SnapshotRow, payload: Vec<u8>, compressed: bool)
        requires
            old(self).wf(),
            payload@.len() < 0x8000_0000,
            stands_for(payload@, compressed, row.encoded@),
        ensures
            final(self).wf(),
            final(self)@ == (WriterV {
                pieces: old(self)@.pieces.push(
                    Piece::Row {
                        row_id: row.row_id,
                        txn_id: row.txn_id,
                        create_time: row.create_time,
                        encoded: row.encoded@,
                        payload: payload@,
                        compressed,
                    },
                ),
                ..old(self)@
            }),
    {
        let offset: u64 = self.out.len() as u64;
        let mut length: u64 = payload.len() as u64;
        if compressed {
            length = length + 0x8000_0000;
        }
        let mut record: Vec<u8> = Vec::new();
        push_le(&mut record, length, 4);
        push_bytes(&mut record, payload.as_slice());
        let ghost added = Piece::Row {
            row_id: row.row_id,
            txn_id: row.txn_id,
            create_time: row.create_time,
            encoded: row.encoded@,
            payload: payload@,
            compressed,
        };
        let ghost before = self.pieces@;
        let ghost start = self.out@;
        proof {
            lemma_header_len(self.header);
            lemma_body_bounds(before);
            lemma_body_bounds(before.push(added));
            assert(before.push(added).drop_last() =~= before);
            assert(record@ =~= piece_bytes(added));
            lemma_join_assoc(header_bytes(self.header), body_bytes(before), record@);
        }
        self.note_row(row.row_id, offset, row.txn_id, row.create_time);
        push_bytes(&mut self.out, record.as_slice());
        let written: usize = self.out.len();
        assert(written == self.out@.len());
        update_hasher(&mut self.data_hasher, record.as_slice());
        update_hasher(&mut self.file_hasher, record.as_slice());
        self.row_count = self.row_count + 1;
        self.pieces = Ghost(before.push(added));
    }

    fn note_row(&mut self, row_id: i64, offset: u64, txn_id: i64, create_time: i64)
        ensures
            final(self).row_index@ == old(self).row_index@.insert(row_id, offset),
            final(self).committed_txn_ids@ == old(self).committed_txn_ids@.insert(
                txn_id,
                create_time,
            ),
            final(self).out == old(self).out,
            final(self).header == old(self).header,
            final(self).row_count == old(self).row_count,
            final(self).failed == old(self).failed,
            final(self).data_hasher == old(self).data_hasher,
            final(self).file_hasher == old(self).file_hasher,
            final(self).pieces == old(self).pieces,
    {
        broadcast use vstd::std_specs::btree::group_btree_axioms;
        broadcast use vstd::laws_cmp::group_laws_cmp;

        self.row_index.insert(row_id, offset);
        self.committed_txn_ids.insert(txn_id, create_time);
    }

    /// Takes in rows in order, up to the first one whose identity is already in the snapshot.
    pub fn append_batch(&mut self, rows: &[SnapshotRow]) -> (r: Result<(), WriteError>)
        requires
            old(self).wf(),
            forall|i: int| 0 <= i < rows@.len() ==> (#[trigger] rows@[i]).encoded@.len() < 0x8000_0000,
        ensures
            final(self).wf(),
            final(self)@.header == old(self)@.header,
            final(self)@.failed == old(self)@.failed,
            match r {
                Ok(_) => took_rows(old(self)@.pieces, final(self)@.pieces, rows@),
                Err(e) => exists|n: int|
                    #![trigger rows@.take(n)]
                    0 <= n < rows@.len() && took_rows(
                        old(self)@.pieces,
                        final(self)@.pieces,
                        rows@.take(n),
                    ) && index_of(final(self)@.pieces).contains_key(rows@[n].row_id) && e == (
                    WriteError::DuplicateRow { row_id: rows@[n].row_id }),
            },
    {
        let mut i: usize = 0;
        let ghost start = self@.pieces;
        assert(rows@.take(0) =~= Seq::empty());
        while i < rows.len()
            invariant
                i <= rows@.len(),
                self.wf(),
                self@.header == old(self)@.header,
                self@.failed == old(self)@.failed,
                start == old(self)@.pieces,
                forall|k: int|
                    0 <= k < rows@.len() ==> (#[trigger] rows@[k]).encoded@.len() < 0x8000_0000,
                took_rows(start, self@.pieces, rows@.take(i as int)),
            decreases rows@.len() - i,
        {
            let ghost mid = self@.pieces;
            match self.append_row(&rows[i]) {
                Ok(_) => {},
                Err(e) => {
                    return Err(e);
                },
            }
            proof {
                let longer = rows@.take(i + 1);
                assert(longer.drop_last() =~= rows@.take(i as int));
                assert(longer.last() == rows@[i as int]);
            }
            i = i + 1;
        }
        assert(rows@.take(i as int) =~= rows@);
        Ok(())
    }

    /// Completes the snapshot and gives the whole file.
    pub fn finalize(self) -> (file: Vec<u8>)
        requires
            self.wf(),
        ensures
            is_snapshot_file(file@, self@.header, self@.pieces),
    {
        let ghost ps = self.pieces@;
        let ghost header = self.header;
        let index = entries_of(&self.row_index);
        let txns = entries_of(&self.committed_txn_ids);
        let mut out = self.out;
        let index_offset: u64 = out.len() as u64;
        let data_checksum: u32 = finish_hasher(self.data_hasher);
        let mut file_hasher = self.file_hasher;
        let mut tail: Vec<u8> = Vec::new();
        push_index_entries(&mut tail, &index);
        let index_size: u64 = tail.len() as u64;
        let ghost index_part = pairs_bytes(index_pairs(index@));
        assert(tail@ =~= index_part);
        push_bytes(&mut out, tail.as_slice());
        let txn_ids_offset: u64 = out.len() as u64;
        assert(txn_ids_offset == out@.len());
        update_hasher(&mut file_hasher, tail.as_slice());
        let mut tail: Vec<u8> = Vec::new();
        push_transactions(&mut tail, &txns);
        let ghost txn_part = pairs_bytes(txn_pairs(txns@));
        assert(tail@ =~= txn_part);
        push_bytes(&mut out, tail.as_slice());
        let written: usize = out.len();
        assert(written == out@.len());
        update_hasher(&mut file_hasher, tail.as_slice());
        let footer = Footer {
            index_offset,
            index_size,
            row_count: self.row_count,
            txn_ids_offset,
            txn_ids_count: txns.len() as u64,
            data_checksum,
            magic: FOOTER_MAGIC,
        };
        proof {
            lemma_header_len(header);
            lemma_pairs_len(index_pairs(index@));
            assert(footer == footer_of(ps, index@, txns@));
        }
        let footer_part = footer.to_bytes();
        push_bytes(&mut out, footer_part.as_slice());
        let written: usize = out.len();
        assert(written == out@.len());
        update_hasher(&mut file_hasher, footer_part.as_slice());
        let crc: u32 = finish_hasher(file_hasher);
        proof {
            assert(out@ == unsealed_file(header, ps, index@, txns@));
        }
        push_le(&mut out, crc as u64, 4);
        assert(out@ == sealed_file(header, ps, index@, txns@));
        out
    }
}

/// Whether `after` is `before` and one more piece, which holds `row`.
pub open spec fn took_row(before: Seq<Piece>, after: Seq<Piece>, row: SnapshotRow) -> bool {
    &&& after.len() == before.len() + 1
    &&& after.drop_last() == before
    &&& holds_row(after.last(), row)
}

/// Whether a piece holds `row`, in one of the forms in which it may be stored.
pub open spec fn holds_row(p: Piece, row: SnapshotRow) -> bool {
    match p {
        Piece::Schema(b) => false,
        Piece::Row { row_id, txn_id, create_time, encoded, payload, compressed } => {
            &&& row_id == row.row_id
            &&& txn_id == row.txn_id
            &&& create_time == row.create_time
            &&& encoded == row.encoded@
            &&& stands_for(payload, compressed, encoded)
        },
    }
}

/// Whether `after` is `before` and one more piece for each of `rows`, none of which was there.
pub open spec fn took_rows(before: Seq<Piece>, after: Seq<Piece>, rows: Seq<SnapshotRow>) -> bool
    decreases rows.len(),
{
    if rows.len() == 0 {
        after == before
    } else {
        &&& after.len() > 0
        &&& took_rows(before, after.drop_last(), rows.drop_last())
        &&& holds_row(after.last(), rows.last())
        &&& !index_of(after.drop_last()).contains_key(rows.last().row_id)
    }
}

} // verus!
