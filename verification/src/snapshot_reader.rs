//! Reading a snapshot: checking the file, finding its schema and its index, and reading rows.

use crate::bytes::{i64_from_bits, i64_of, lemma_byte_range};
use crate::checksum::{checksum, crc32};
use crate::compression::{lz4_decompress, lz4_decompressed};
use crate::listing::{entries_of, lists};
use crate::schema::{Schema, SchemaV};
use crate::schema_codec::deserialize_snapshot_schema;
use crate::schema_format::{SchemaError, read_snapshot_schema};
use crate::snapshot_format::{
    FILE_HEADER_SIZE, FileHeader, Footer, FormatError, field, field_of, footer_len, header_len,
    read_footer, read_header,
};
use std::collections::{BTreeMap, HashSet};
use vstd::prelude::*;
use vstd::slice::*;

verus! {

/// Why a file cannot be read as a snapshot.
#[derive(Debug, Clone, Copy, PartialEq, Eq, Structural)]
pub enum OpenError {
    TooSmallForHeader,
    TooSmallForVersion,
    Format(FormatError),
    TooSmall,
    MissingFooter,
    ChecksumMismatch { stored: u32, computed: u32 },
    MissingSchemaLength,
    MissingSchema,
    Schema(SchemaError),
    MissingIndex,
}

/// The header of the file `b`.
pub open spec fn file_header(b: Seq<u8>) -> Result<FileHeader, OpenError> {
    if b.len() < 16 {
        Err(OpenError::TooSmallForHeader)
    } else if field(b, 8, 12) > 2 && b.len() < 64 {
        Err(OpenError::TooSmallForVersion)
    } else {
        match read_header(b) {
            Ok(h) => Ok(h),
            Err(e) => Err(OpenError::Format(e)),
        }
    }
}

/// The length of the checksum at the end of a file of `version`.
pub open spec fn checksum_len(version: u32) -> nat {
    if version >= 2 {
        4
    } else {
        0
    }
}

/// The header and the footer of the file `b`, where it is intact, given what the checksum of all but
/// its last four bytes is.
#[verifier::opaque]
pub open spec fn intact(b: Seq<u8>, computed: u32) -> Result<(FileHeader, Footer), OpenError> {
    match file_header(b) {
        Err(e) => Err(e),
        Ok(h) => {
            let size = footer_len(h.version);
            let tail = checksum_len(h.version);
            if b.len() < header_len(h) + size {
                Err(OpenError::TooSmall)
            } else if b.len() < size + tail {
                Err(OpenError::MissingFooter)
            } else {
                match read_footer(b.subrange(b.len() - size - tail, b.len() - tail), h.version) {
                    Err(e) => Err(OpenError::Format(e)),
                    Ok(f) => if tail == 4 && field(b, b.len() - 4, b.len() as int) != computed {
                        Err(
                            OpenError::ChecksumMismatch {
                                stored: field(b, b.len() - 4, b.len() as int) as u32,
                                computed,
                            },
                        )
                    } else {
                        Ok((h, f))
                    },
                }
            }
        },
    }
}

/// The checksum that the last four bytes of `b` should hold.
pub open spec fn file_crc(b: Seq<u8>) -> u32 {
    crc32(b.take(b.len() - 4))
}

/// The first `n` entries of the index section `b`; a later entry for a row replaces an earlier one.
pub open spec fn index_entries(b: Seq<u8>, n: nat) -> Map<i64, u64>
    decreases n,
{
    if n == 0 {
        Map::empty()
    } else {
        let at = 16 * (n - 1);
        index_entries(b, (n - 1) as nat).insert(
            i64_of(field(b, at, at + 8)) as i64,
            field(b, at + 8, at + 16) as u64,
        )
    }
}

/// The schema and the index of a file.
pub struct FileV {
    pub header: FileHeader,
    pub footer: Footer,
    pub schema: SchemaV,
    pub index: Map<i64, u64>,
}

/// The schema behind a header of `hs` bytes in the file `b`.
#[verifier::opaque]
pub open spec fn file_schema(b: Seq<u8>, hs: int, now: int) -> Result<SchemaV, OpenError> {
    if b.len() < hs + 4 {
        Err(OpenError::MissingSchemaLength)
    } else {
        let n = field(b, hs, hs + 4);
        if b.len() < hs + 4 + n {
            Err(OpenError::MissingSchema)
        } else {
            match read_snapshot_schema(b.subrange(hs + 4, hs + 4 + n), now) {
                Ok(s) => Ok(s),
                Err(e) => Err(OpenError::Schema(e)),
            }
        }
    }
}

/// The index that the footer `f` points to in the file `b`.
#[verifier::opaque]
pub open spec fn file_index(b: Seq<u8>, f: Footer) -> Result<Map<i64, u64>, OpenError> {
    if f.index_size == 0 {
        Ok(Map::empty())
    } else if b.len() < f.index_offset + f.index_size {
        Err(OpenError::MissingIndex)
    } else {
        Ok(
            index_entries(
                b.subrange(f.index_offset as int, f.index_offset + f.index_size),
                (f.index_size / 16) as nat,
            ),
        )
    }
}

/// What a snapshot file holds, given what the checksum of all but its last four bytes is.
pub open spec fn read_file(b: Seq<u8>, computed: u32, now: int) -> Result<FileV, OpenError> {
    match intact(b, computed) {
        Err(e) => Err(e),
        Ok((header, footer)) => match file_schema(b, header_len(header) as int, now) {
            Err(e) => Err(e),
            Ok(schema) => match file_index(b, footer) {
                Err(e) => Err(e),
                Ok(index) => Ok(FileV { header, footer, schema, index }),
            },
        },
    }
}

/// The encoded form of the row at `offset` in the file `b`.
pub open spec fn row_at(b: Seq<u8>, offset: int) -> Option<Seq<u8>> {
    if b.len() < offset + 4 {
        None
    } else {
        let length = field(b, offset, offset + 4);
        let compressed = length >= 0x8000_0000;
        let n = if compressed {
            (length - 0x8000_0000) as nat
        } else {
            length
        };
        if b.len() < offset + 4 + n {
            None
        } else {
            let payload = b.subrange(offset + 4, offset + 4 + n);
            if compressed {
                lz4_decompressed(payload)
            } else {
                Some(payload)
            }
        }
    }
}

fn read_file_header(data: &[u8]) -> (r: Result<FileHeader, OpenError>)
    ensures
        r == file_header(data@),
{
    if data.len() < 16 {
        return Err(OpenError::TooSmallForHeader);
    }
    if field_of(data, 8, 12) > 2 && data.len() < FILE_HEADER_SIZE {
        return Err(OpenError::TooSmallForVersion);
    }
    match FileHeader::from_bytes(data) {
        Ok(h) => Ok(h),
        Err(e) => Err(OpenError::Format(e)),
    }
}

/// Checks a file, given the checksum of all but its last four bytes.
pub fn check_file(data: &[u8], computed: u32) -> (r: Result<(FileHeader, Footer), OpenError>)
    ensures
        r == intact(data@, computed),
{
    reveal(intact);
    let header = match read_file_header(data) {
        Ok(h) => h,
        Err(e) => {
            return Err(e);
        },
    };
    let size: usize = Footer::size_for_version(header.version);
    let tail: usize = if header.version >= 2 {
        4
    } else {
        0
    };
    if (data.len() as u64) < header.effective_header_size() as u64 + size as u64 {
        return Err(OpenError::TooSmall);
    }
    if data.len() < size + tail {
        return Err(OpenError::MissingFooter);
    }
    let at: usize = data.len() - size - tail;
    let footer = match Footer::from_bytes(slice_subrange(data, at, at + size), header.version) {
        Ok(f) => f,
        Err(e) => {
            return Err(OpenError::Format(e));
        },
    };
    if tail == 4 {
        let stored: u64 = field_of(data, data.len() - 4, data.len());
        proof {
            lemma_byte_range();
        }
        if stored != computed as u64 {
            return Err(OpenError::ChecksumMismatch { stored: stored as u32, computed });
        }
    }
    Ok((header, footer))
}

fn check_whole_file(data: &[u8]) -> (r: Result<(FileHeader, Footer), OpenError>)
    ensures
        r == intact(data@, file_crc(data@)),
{
    reveal(intact);
    if data.len() < 16 {
        return Err(OpenError::TooSmallForHeader);
    }
    let covered = slice_subrange(data, 0, data.len() - 4);
    assert(covered@ =~= data@.take(data@.len() - 4));
    let computed: u32 = checksum(covered);
    check_file(data, computed)
}

/// Checks a file's header, footer and checksum, and gives the log position up to which it goes.
pub fn verify_snapshot_integrity(data: &[u8]) -> (r: Result<u64, OpenError>)
    ensures
        match intact(data@, file_crc(data@)) {
            Ok((h, f)) => r == Ok::<u64, OpenError>(h.source_lsn),
            Err(e) => r == Err::<u64, OpenError>(e),
        },
{
    match check_whole_file(data) {
        Ok((h, f)) => Ok(h.source_lsn),
        Err(e) => Err(e),
    }
}

fn read_file_schema(data: &[u8], hs: usize, now: i64) -> (r: Result<Schema, OpenError>)
    ensures
        match r {
            Ok(s) => file_schema(data@, hs as int, now as int) == Ok::<SchemaV, OpenError>(s@),
            Err(e) => file_schema(data@, hs as int, now as int) == Err::<SchemaV, OpenError>(e),
        },
{
    reveal(file_schema);
    let total: usize = data.len();
    if total < 4 || total - 4 < hs {
        return Err(OpenError::MissingSchemaLength);
    }
    proof {
        lemma_byte_range();
    }
    let n: u64 = field_of(data, hs, hs + 4);
    if ((total - hs - 4) as u64) < n {
        return Err(OpenError::MissingSchema);
    }
    match deserialize_snapshot_schema(slice_subrange(data, hs + 4, hs + 4 + n as usize), now) {
        Ok(s) => Ok(s),
        Err(e) => Err(OpenError::Schema(e)),
    }
}

fn add_entry(index: &mut BTreeMap<i64, u64>, row_id: i64, offset: u64)
    ensures
        final(index)@ == old(index)@.insert(row_id, offset),
{
    broadcast use vstd::std_specs::btree::group_btree_axioms;
    broadcast use vstd::laws_cmp::group_laws_cmp;

    index.insert(row_id, offset);
}

fn find_entry(index: &BTreeMap<i64, u64>, row_id: i64) -> (r: Option<u64>)
    ensures
        r == if index@.contains_key(row_id) {
            Some(index@[row_id])
        } else {
            None
        },
{
    broadcast use vstd::std_specs::btree::group_btree_axioms;
    broadcast use vstd::laws_cmp::group_laws_cmp;

    match index.get(&row_id) {
        Some(offset) => Some(*offset),
        None => None,
    }
}

fn read_file_index(data: &[u8], footer: &Footer) -> (r: Result<BTreeMap<i64, u64>, OpenError>)
    ensures
        match r {
            Ok(m) => file_index(data@, *footer) == Ok::<Map<i64, u64>, OpenError>(m@),
            Err(e) => file_index(data@, *footer) == Err::<Map<i64, u64>, OpenError>(e),
        },
{
    reveal(file_index);
    let mut index: BTreeMap<i64, u64> = BTreeMap::new();
    if footer.index_size == 0 {
        return Ok(index);
    }
    let total: u64 = data.len() as u64;
    if total < footer.index_size || total - footer.index_size < footer.index_offset {
        return Err(OpenError::MissingIndex);
    }
    let from: usize = footer.index_offset as usize;
    let section = slice_subrange(data, from, from + footer.index_size as usize);
    let size: usize = section.len();
    let count: usize = size / 16;
    let mut i: usize = 0;
    while i < count
        invariant
            i <= count,
            size == section@.len(),
            16 * count <= size,
            index@ == index_entries(section@, i as nat),
        decreases count - i,
    {
        let at: usize = 16 * i;
        let row_id: i64 = i64_from_bits(field_of(section, at, at + 8));
        let offset: u64 = field_of(section, at + 8, at + 16);
        add_entry(&mut index, row_id, offset);
        i = i + 1;
    }
    Ok(index)
}

/// A snapshot that is open for reading.
pub struct SnapshotReader {
    data: Vec<u8>,
    header: FileHeader,
    footer: Footer,
    schema: Schema,
    index: BTreeMap<i64, u64>,
    loaded_row_ids: HashSet<i64>,
}

/// What an open snapshot holds, and the rows that were loaded from it.
pub struct ReaderV {
    pub data: Seq<u8>,
    pub file: FileV,
    pub loaded: Set<i64>,
}

impl View for SnapshotReader {
    type V = ReaderV;

    closed spec fn view(&self) -> ReaderV {
        ReaderV {
            data: self.data@,
            file: FileV {
                header: self.header,
                footer: self.footer,
                schema: self.schema@,
                index: self.index@,
            },
            loaded: self.loaded_row_ids@,
        }
    }
}

/// The encoded form of a row of an open snapshot that was not loaded before.
pub open spec fn unloaded_row(v: ReaderV, row_id: i64) -> Option<Seq<u8>> {
    if v.loaded.contains(row_id) || !v.file.index.contains_key(row_id) {
        None
    } else {
        row_at(v.data, v.file.index[row_id] as int)
    }
}

/// The snapshot with one more row loaded.
pub open spec fn with_loaded(v: ReaderV, row_id: i64) -> ReaderV {
    ReaderV { loaded: v.loaded.insert(row_id), ..v }
}

/// Whether decoding some bytes may come to `o`; none where they are no row.
pub open spec fn decodes_to<D, F: Fn(&[u8]) -> Option<D>>(
    decode: F,
    bytes: Seq<u8>,
    o: Option<D>,
) -> bool {
    exists|b: &[u8]| b@ == bytes && #[trigger] decode.ensures((b,), o)
}

/// The snapshot once rows were given out.
pub open spec fn with_given<D>(v: ReaderV, rows: Seq<(i64, D)>) -> ReaderV
    decreases rows.len(),
{
    if rows.len() == 0 {
        v
    } else {
        with_loaded(with_given(v, rows.drop_last()), rows.last().0)
    }
}

/// Whether `rows` are those that are given out when rows are asked for one by one: each that is there,
/// was not loaded before, and can be decoded.
pub open spec fn gave_rows<D, F: Fn(&[u8]) -> Option<D>>(
    v: ReaderV,
    row_ids: Seq<i64>,
    decode: F,
    rows: Seq<(i64, D)>,
) -> bool
    decreases row_ids.len(),
{
    if row_ids.len() == 0 {
        rows.len() == 0
    } else {
        let id = row_ids.last();
        let before = row_ids.drop_last();
        ||| {
            &&& rows.len() > 0
            &&& rows.last().0 == id
            &&& gave_rows(v, before, decode, rows.drop_last())
            &&& match unloaded_row(with_given(v, rows.drop_last()), id) {
                Some(b) => decodes_to(decode, b, Some(rows.last().1)),
                None => false,
            }
        }
        ||| {
            &&& gave_rows(v, before, decode, rows)
            &&& match unloaded_row(with_given(v, rows), id) {
                Some(b) => decodes_to(decode, b, None),
                None => true,
            }
        }
    }
}

/// Whether `rows` are those of some encoded rows that can be decoded, in order.
pub open spec fn decoded_rows<D, F: Fn(&[u8]) -> Option<D>>(
    encoded: Seq<(i64, Seq<u8>)>,
    decode: F,
    rows: Seq<(i64, D)>,
) -> bool
    decreases encoded.len(),
{
    if encoded.len() == 0 {
        rows.len() == 0
    } else {
        let before = encoded.drop_last();
        let e = encoded.last();
        ||| {
            &&& rows.len() > 0
            &&& rows.last().0 == e.0
            &&& decoded_rows(before, decode, rows.drop_last())
            &&& decodes_to(decode, e.1, Some(rows.last().1))
        }
        ||| decoded_rows(before, decode, rows) && decodes_to(decode, e.1, None)
    }
}

/// Whether a callback that was handed the row `r` may have answered `go_on`.
pub open spec fn answers<F: Fn(i64, &[u8]) -> bool>(
    callback: F,
    r: (i64, Seq<u8>),
    go_on: bool,
) -> bool {
    exists|b: &[u8]| b@ == r.1 && #[trigger] callback.ensures((r.0, b), go_on)
}

/// Whether a callback was handed the first `n` of some rows: to each but the last it answered to go
/// on, and where rows are left it answered to stop.
pub open spec fn handed_out<F: Fn(i64, &[u8]) -> bool>(
    rows: Seq<(i64, Seq<u8>)>,
    callback: F,
    n: int,
) -> bool {
    &&& 0 <= n <= rows.len()
    &&& forall|k: int| 0 <= k < n - 1 ==> answers(callback, #[trigger] rows[k], true)
    &&& n < rows.len() ==> n > 0 && answers(callback, rows[n - 1], false)
    &&& n == rows.len() && n > 0 ==> answers(callback, rows[n - 1], true) || answers(
        callback,
        rows[n - 1],
        false,
    )
}

/// The rows at the given places that can be read.
pub open spec fn readable_rows(b: Seq<u8>, entries: Seq<(i64, u64)>) -> Seq<(i64, Seq<u8>)>
    decreases entries.len(),
{
    if entries.len() == 0 {
        Seq::empty()
    } else {
        let found = readable_rows(b, entries.drop_last());
        match row_at(b, entries.last().1 as int) {
            Some(row) => found.push((entries.last().0, row)),
            None => found,
        }
    }
}

/// Whether rows are those of a snapshot that can be read, by their identities.
pub open spec fn are_rows_of(rows: Seq<(i64, Seq<u8>)>, data: Seq<u8>, index: Map<i64, u64>) -> bool {
    exists|entries: Seq<(i64, u64)>| #[trigger]
        lists(entries, index) && rows == readable_rows(data, entries)
}

/// The view of a list of rows.
pub open spec fn row_views(rows: Seq<(i64, Vec<u8>)>) -> Seq<(i64, Seq<u8>)> {
    rows.map_values(|r: (i64, Vec<u8>)| (r.0, r.1@))
}

impl SnapshotReader {
    /// Opens a file; `now` stands in for a time that its schema lacks.
    pub fn open(data: Vec<u8>, now: i64) -> (r: Result<SnapshotReader, OpenError>)
        ensures
            match r {
                Ok(reader) => {
                    &&& read_file(data@, file_crc(data@), now as int) == Ok::<FileV, OpenError>(
                        reader@.file,
                    )
                    &&& reader@.data == data@
                    &&& reader@.loaded == Set::<i64>::empty()
                },
                Err(e) => read_file(data@, file_crc(data@), now as int) == Err::<FileV, OpenError>(
                    e,
                ),
            },
    {
        let (header, footer) = match check_whole_file(data.as_slice()) {
            Ok(v) => v,
            Err(e) => {
                return Err(e);
            },
        };
        let schema = match read_file_schema(data.as_slice(), header.effective_header_size(), now) {
            Ok(s) => s,
            Err(e) => {
                return Err(e);
            },
        };
        let index = match read_file_index(data.as_slice(), &footer) {
            Ok(m) => m,
            Err(e) => {
                return Err(e);
            },
        };
        Ok(SnapshotReader { data, header, footer, schema, index, loaded_row_ids: HashSet::new() })
    }

    /// The table's schema.
    pub fn schema(&self) -> (s: &Schema)
        ensures
            s@ == self@.file.schema,
    {
        &self.schema
    }

    /// The version of the file.
    pub fn format_version(&self) -> (v: u32)
        ensures
            v == self@.file.header.version,
    {
        self.header.version
    }

    /// The number of rows that the footer gives.
    pub fn row_count(&self) -> (n: u64)
        ensures
            n == self@.file.footer.row_count,
    {
        self.footer.row_count
    }

    /// The log position up to which the snapshot goes.
    pub fn source_lsn(&self) -> (lsn: u64)
        ensures
            lsn == self@.file.header.source_lsn,
    {
        self.header.source_lsn
    }

    /// When the snapshot was made, in milliseconds since the Unix epoch; 0 up to version 2. The header
    /// has the time in nanoseconds.
    pub fn creation_time(&self) -> (t: i64)
        ensures
            t == self@.file.header.creation_time as int / 1_000_000,
    {
        let nanos: i64 = self.header.creation_time;
        if nanos >= 0 {
            (nanos as u64 / 1_000_000) as i64
        } else {
            let back: u64 = (-1 - nanos) as u64 / 1_000_000;
            -1 - (back as i64)
        }
    }

    /// Whether the snapshot has the row.
    pub fn row_exists_in_index(&self, row_id: i64) -> (r: bool)
        ensures
            r == self@.file.index.contains_key(row_id),
    {
        find_entry(&self.index, row_id).is_some()
    }

    /// Whether the snapshot has the row and it was not loaded.
    pub fn has_unloaded_row(&self, row_id: i64) -> (r: bool)
        ensures
            r == (!self@.loaded.contains(row_id) && self@.file.index.contains_key(row_id)),
    {
        if self.is_loaded(row_id) {
            return false;
        }
        self.row_exists_in_index(row_id)
    }

    /// Whether the snapshot has the row and it was not loaded.
    pub fn has_row(&self, row_id: i64) -> (r: bool)
        ensures
            r == (!self@.loaded.contains(row_id) && self@.file.index.contains_key(row_id)),
    {
        self.has_unloaded_row(row_id)
    }

    /// Whether the row was loaded.
    pub fn is_loaded(&self, row_id: i64) -> (r: bool)
        ensures
            r == self@.loaded.contains(row_id),
    {
        broadcast use vstd::std_specs::hash::group_hash_axioms;

        self.loaded_row_ids.contains(&row_id)
    }

    /// Notes that the row was loaded.
    pub fn mark_loaded(&mut self, row_id: i64)
        ensures
            final(self)@ == with_loaded(old(self)@, row_id),
    {
        broadcast use vstd::std_specs::hash::group_hash_axioms;

        self.loaded_row_ids.insert(row_id);
    }

    fn read_row_at_offset(&self, offset: u64) -> (r: Option<Vec<u8>>)
        ensures
            match r {
                Some(row) => row_at(self@.data, offset as int) == Some(row@),
                None => row_at(self@.data, offset as int) is None,
            },
    {
        let total: u64 = self.data.len() as u64;
        if total < 4 || total - 4 < offset {
            return None;
        }
        let at: usize = offset as usize;
        proof {
            lemma_byte_range();
        }
        let length: u64 = field_of(self.data.as_slice(), at, at + 4);
        let compressed: bool = length >= 0x8000_0000;
        let n: u64 = if compressed {
            length - 0x8000_0000
        } else {
            length
        };
        if total - 4 - offset < n {
            return None;
        }
        let payload = slice_subrange(self.data.as_slice(), at + 4, at + 4 + n as usize);
        if compressed {
            lz4_decompress(payload)
        } else {
            Some(slice_to_vec(payload))
        }
    }

    /// The encoded form of a row that was not loaded before.
    pub fn read_row(&self, row_id: i64) -> (r: Option<Vec<u8>>)
        ensures
            match r {
                Some(row) => unloaded_row(self@, row_id) == Some(row@),
                None => unloaded_row(self@, row_id) is None,
            },
    {
        if self.is_loaded(row_id) {
            return None;
        }
        match find_entry(&self.index, row_id) {
            Some(offset) => self.read_row_at_offset(offset),
            None => None,
        }
    }

    /// A row that was not loaded before; it then counts as loaded. A row that cannot be decoded is not
    /// given, and does not count as loaded.
    pub fn get_row<D, F: Fn(&[u8]) -> Option<D>>(&mut self, row_id: i64, decode: &F) -> (r: Option<D>)
        requires
            forall|b: &[u8]| #[trigger] decode.requires((b,)),
        ensures
            match unloaded_row(old(self)@, row_id) {
                Some(bytes) => decodes_to(*decode, bytes, r) && final(self)@ == if r is Some {
                    with_loaded(old(self)@, row_id)
                } else {
                    old(self)@
                },
                None => r is None && final(self)@ == old(self)@,
            },
    {
        match self.read_row(row_id) {
            Some(row) => {
                let bytes: &[u8] = row.as_slice();
                let decoded = decode(bytes);
                assert(decodes_to(*decode, row@, decoded));
                if decoded.is_some() {
                    self.mark_loaded(row_id);
                }
                decoded
            },
            None => None,
        }
    }

    /// Rows that were not loaded before and can be decoded, in the order in which they are asked for;
    /// they then count as loaded.
    pub fn get_rows<D, F: Fn(&[u8]) -> Option<D>>(&mut self, row_ids: &[i64], decode: &F) -> (r: Vec<
        (i64, D),
    >)
        requires
            forall|b: &[u8]| #[trigger] decode.requires((b,)),
        ensures
            gave_rows(old(self)@, row_ids@, *decode, r@),
            final(self)@ == with_given(old(self)@, r@),
    {
        let mut results: Vec<(i64, D)> = Vec::new();
        let mut i: usize = 0;
        let ghost start = self@;
        assert(row_ids@.take(0) =~= Seq::empty());
        while i < row_ids.len()
            invariant
                i <= row_ids@.len(),
                start == old(self)@,
                forall|b: &[u8]| #[trigger] decode.requires((b,)),
                gave_rows(start, row_ids@.take(i as int), *decode, results@),
                self@ == with_given(start, results@),
            decreases row_ids@.len() - i,
        {
            proof {
                let longer = row_ids@.take(i + 1);
                assert(longer.drop_last() =~= row_ids@.take(i as int));
                assert(longer.last() == row_ids@[i as int]);
            }
            let ghost before = results@;
            match self.get_row(row_ids[i], decode) {
                Some(row) => {
                    results.push((row_ids[i], row));
                    assert(results@.drop_last() =~= before);
                },
                None => {},
            }
            i = i + 1;
        }
        assert(row_ids@.take(i as int) =~= row_ids@);
        results
    }

    /// The encoded forms of all rows that can be read, by row, whether or not they were loaded.
    pub fn encoded_rows(&self) -> (r: Vec<(i64, Vec<u8>)>)
        ensures
            are_rows_of(row_views(r@), self@.data, self@.file.index),
    {
        let entries = entries_of(&self.index);
        let mut results: Vec<(i64, Vec<u8>)> = Vec::new();
        let mut i: usize = 0;
        assert(entries@.take(0) =~= Seq::empty());
        assert(row_views(results@) =~= Seq::empty());
        while i < entries.len()
            invariant
                i <= entries@.len(),
                lists(entries@, self@.file.index),
                row_views(results@) == readable_rows(self@.data, entries@.take(i as int)),
            decreases entries@.len() - i,
        {
            proof {
                let longer = entries@.take(i + 1);
                assert(longer.drop_last() =~= entries@.take(i as int));
                assert(longer.last() == entries@[i as int]);
            }
            let ghost before = results@;
            match self.read_row_at_offset(entries[i].1) {
                Some(row) => {
                    results.push((entries[i].0, row));
                    assert(row_views(results@) =~= row_views(before).push(
                        (entries@[i as int].0, row@),
                    ));
                },
                None => {},
            }
            i = i + 1;
        }
        assert(entries@.take(i as int) =~= entries@);
        assert(are_rows_of(row_views(results@), self@.data, self@.file.index));
        results
    }

    /// All rows that can be read and decoded, by row, whether or not they were loaded.
    pub fn get_all_rows<D, F: Fn(&[u8]) -> Option<D>>(&self, decode: &F) -> (r: Vec<(i64, D)>)
        requires
            forall|b: &[u8]| #[trigger] decode.requires((b,)),
        ensures
            exists|encoded: Seq<(i64, Seq<u8>)>| #[trigger]
                are_rows_of(encoded, self@.data, self@.file.index) && decoded_rows(
                    encoded,
                    *decode,
                    r@,
                ),
    {
        let rows = self.encoded_rows();
        let ghost encoded = row_views(rows@);
        let mut results: Vec<(i64, D)> = Vec::new();
        let mut i: usize = 0;
        assert(encoded.take(0) =~= Seq::empty());
        while i < rows.len()
            invariant
                i <= rows@.len(),
                forall|b: &[u8]| #[trigger] decode.requires((b,)),
                encoded == row_views(rows@),
                decoded_rows(encoded.take(i as int), *decode, results@),
            decreases rows@.len() - i,
        {
            proof {
                let longer = encoded.take(i + 1);
                assert(longer.drop_last() =~= encoded.take(i as int));
                assert(longer.last() == (rows@[i as int].0, rows@[i as int].1@));
            }
            let ghost before = results@;
            let bytes: &[u8] = rows[i].1.as_slice();
            let decoded = decode(bytes);
            assert(decodes_to(*decode, rows@[i as int].1@, decoded));
            match decoded {
                Some(row) => {
                    results.push((rows[i].0, row));
                    assert(results@.drop_last() =~= before);
                },
                None => {},
            }
            i = i + 1;
        }
        assert(encoded.take(i as int) =~= encoded);
        results
    }

    /// Hands the rows that can be read to a callback, by row and in their encoded form, whether or not
    /// they were loaded, until it answers to stop. Gives the number of rows that were handed out.
    pub fn for_each<F: Fn(i64, &[u8]) -> bool>(&self, callback: &F) -> (n: usize)
        requires
            forall|id: i64, b: &[u8]| #[trigger] callback.requires((id, b)),
        ensures
            exists|encoded: Seq<(i64, Seq<u8>)>| #[trigger]
                are_rows_of(encoded, self@.data, self@.file.index) && handed_out(
                    encoded,
                    *callback,
                    n as int,
                ),
    {
        let rows = self.encoded_rows();
        let ghost encoded = row_views(rows@);
        let mut i: usize = 0;
        while i < rows.len()
            invariant
                i <= rows@.len(),
                forall|id: i64, b: &[u8]| #[trigger] callback.requires((id, b)),
                encoded == row_views(rows@),
                encoded.len() == rows@.len(),
                are_rows_of(encoded, self@.data, self@.file.index),
                forall|k: int| 0 <= k < i ==> answers(*callback, #[trigger] encoded[k], true),
            decreases rows@.len() - i,
        {
            let bytes: &[u8] = rows[i].1.as_slice();
            let id: i64 = rows[i].0;
            let go_on: bool = callback(id, bytes);
            let ghost r = encoded[i as int];
            assert(r == (id, bytes@));
            assert(callback.ensures((r.0, bytes), go_on));
            assert(answers(*callback, encoded[i as int], go_on));
            i = i + 1;
            if !go_on {
                assert(handed_out(encoded, *callback, i as int));
                return i;
            }
        }
        assert(handed_out(encoded, *callback, i as int));
        i
    }

    /// Where in the file each row begins.
    pub fn index(&self) -> (m: &BTreeMap<i64, u64>)
        ensures
            m@ == self@.file.index,
    {
        &self.index
    }
}

} // verus!
