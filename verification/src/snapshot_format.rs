//! The fixed parts of a snapshot file: the header at its beginning and the footer near its end.

use crate::bytes::{
    byte_range, i64_bits, i64_from_bits, i64_of, i64_to_bits, le_bytes, le_to_u64, le_value,
    lemma_byte_range, lemma_i64_round_trip, lemma_le_bytes_len, lemma_le_round_trip,
    lemma_le_value_bound, push_le,
};
use vstd::prelude::*;
use vstd::slice::*;

verus! {

/// The first eight bytes of a snapshot file.
pub const MAGIC_BYTES: u64 = 0x5354534456534844;

/// The last eight bytes of a footer.
pub const FOOTER_MAGIC: u64 = 0x53544E445354454E;

/// The version that is written.
pub const FILE_FORMAT_VERSION: u32 = 3;

/// The length of a header.
pub const FILE_HEADER_SIZE: usize = 64;

/// The length of a footer.
pub const FOOTER_SIZE: usize = 64;

/// The length of a footer up to version 2.
pub const LEGACY_FOOTER_SIZE: usize = 48;

/// Why bytes are not a snapshot file.
#[derive(Debug, Clone, Copy, PartialEq, Eq, Structural)]
pub enum FormatError {
    HeaderTooShort,
    HeaderMagic { found: u64 },
    HeaderTooShortForVersion,
    FooterTooShort,
    FooterMagic { found: u64 },
}

/// The header of a snapshot file.
#[derive(Debug, Clone, Copy, PartialEq, Eq, Structural)]
pub struct FileHeader {
    pub magic: u64,
    pub version: u32,
    pub feature_flags: u32,
    /// The length of the header.
    pub header_size: u32,
    /// Nanoseconds since the Unix epoch.
    pub creation_time: i64,
    /// The log position at the time of the snapshot.
    pub source_lsn: u64,
    /// The log position of the snapshot before.
    pub prev_snap_lsn: u64,
    pub schema_version: u32,
    /// The algorithm by which the file is compressed; 0 stands for none.
    pub compression: u8,
}

/// The number in the bytes of `b` from `from` up to `to`.
pub open spec fn field(b: Seq<u8>, from: int, to: int) -> nat {
    le_value(b.subrange(from, to))
}

/// The number in the bytes of `data` from `from` up to `to`.
pub fn field_of(data: &[u8], from: usize, to: usize) -> (v: u64)
    requires
        from <= to <= data@.len(),
        to - from <= 8,
    ensures
        v == field(data@, from as int, to as int),
        v < byte_range((to - from) as nat),
{
    proof {
        lemma_le_value_bound(data@.subrange(from as int, to as int));
    }
    le_to_u64(slice_subrange(data, from, to))
}

/// `n` zero bytes.
pub open spec fn zeros(n: nat) -> Seq<u8> {
    Seq::new(n, |i: int| 0u8)
}

fn push_zeros(out: &mut Vec<u8>, n: usize)
    ensures
        final(out)@ == old(out)@ + zeros(n as nat),
{
    let mut i: usize = 0;
    assert(out@ =~= old(out)@ + zeros(0));
    while i < n
        invariant
            i <= n,
            out@ == old(out)@ + zeros(i as nat),
        decreases n - i,
    {
        out.push(0);
        assert(out@ =~= old(out)@ + zeros((i + 1) as nat));
        i = i + 1;
    }
}

/// A header as the file holds it.
pub open spec fn header_bytes(h: FileHeader) -> Seq<u8> {
    le_bytes(h.magic as nat, 8) + le_bytes(h.version as nat, 4) + le_bytes(h.feature_flags as nat, 4)
        + le_bytes(h.header_size as nat, 4) + le_bytes(i64_bits(h.creation_time as int), 8)
        + le_bytes(h.source_lsn as nat, 8) + le_bytes(h.prev_snap_lsn as nat, 8) + le_bytes(
        h.schema_version as nat,
        4,
    ) + seq![h.compression] + zeros(15)
}

/// The header at the front of `b`. Up to version 2 it has 16 bytes and most fields are 0.
pub open spec fn read_header(b: Seq<u8>) -> Result<FileHeader, FormatError> {
    if b.len() < 16 {
        Err(FormatError::HeaderTooShort)
    } else if field(b, 0, 8) != MAGIC_BYTES {
        Err(FormatError::HeaderMagic { found: field(b, 0, 8) as u64 })
    } else if field(b, 8, 12) <= 2 {
        Ok(
            FileHeader {
                magic: MAGIC_BYTES,
                version: field(b, 8, 12) as u32,
                feature_flags: field(b, 12, 16) as u32,
                header_size: 16,
                creation_time: 0,
                source_lsn: 0,
                prev_snap_lsn: 0,
                schema_version: 0,
                compression: 0,
            },
        )
    } else if b.len() < 64 {
        Err(FormatError::HeaderTooShortForVersion)
    } else {
        Ok(
            FileHeader {
                magic: MAGIC_BYTES,
                version: field(b, 8, 12) as u32,
                feature_flags: field(b, 12, 16) as u32,
                header_size: field(b, 16, 20) as u32,
                creation_time: i64_of(field(b, 20, 28)) as i64,
                source_lsn: field(b, 28, 36) as u64,
                prev_snap_lsn: field(b, 36, 44) as u64,
                schema_version: field(b, 44, 48) as u32,
                compression: b[48],
            },
        )
    }
}

/// The length of the header `h` in its file.
pub open spec fn header_len(h: FileHeader) -> nat {
    if h.version <= 2 {
        16
    } else {
        h.header_size as nat
    }
}

/// The header of a new snapshot.
pub open spec fn new_header(creation_time: i64, source_lsn: u64) -> FileHeader {
    FileHeader {
        magic: MAGIC_BYTES,
        version: FILE_FORMAT_VERSION,
        feature_flags: 0,
        header_size: 64,
        creation_time,
        source_lsn,
        prev_snap_lsn: 0,
        schema_version: 0,
        compression: 0,
    }
}

impl FileHeader {
    /// The header of a snapshot made at `creation_time`.
    pub fn new(creation_time: i64) -> (h: FileHeader)
        ensures
            h == new_header(creation_time, 0),
    {
        FileHeader {
            magic: MAGIC_BYTES,
            version: FILE_FORMAT_VERSION,
            feature_flags: 0,
            header_size: 64,
            creation_time,
            source_lsn: 0,
            prev_snap_lsn: 0,
            schema_version: 0,
            compression: 0,
        }
    }

    /// The header with another log position.
    pub fn with_source_lsn(self, lsn: u64) -> (h: FileHeader)
        ensures
            h == (FileHeader { source_lsn: lsn, ..self }),
    {
        FileHeader { source_lsn: lsn, ..self }
    }

    /// The header with another log position of the snapshot before.
    pub fn with_prev_snap_lsn(self, lsn: u64) -> (h: FileHeader)
        ensures
            h == (FileHeader { prev_snap_lsn: lsn, ..self }),
    {
        FileHeader { prev_snap_lsn: lsn, ..self }
    }

    /// The header as the file holds it.
    pub fn to_bytes(self) -> (buf: Vec<u8>)
        ensures
            buf@ == header_bytes(self),
            buf@.len() == FILE_HEADER_SIZE,
    {
        let mut buf: Vec<u8> = Vec::new();
        push_le(&mut buf, self.magic, 8);
        assert(buf@ =~= le_bytes(self.magic as nat, 8));
        push_le(&mut buf, self.version as u64, 4);
        push_le(&mut buf, self.feature_flags as u64, 4);
        push_le(&mut buf, self.header_size as u64, 4);
        push_le(&mut buf, i64_to_bits(self.creation_time), 8);
        push_le(&mut buf, self.source_lsn, 8);
        push_le(&mut buf, self.prev_snap_lsn, 8);
        push_le(&mut buf, self.schema_version as u64, 4);
        let ghost before = buf@;
        buf.push(self.compression);
        assert(buf@ =~= before + seq![self.compression]);
        push_zeros(&mut buf, 15);
        proof {
            lemma_header_len(self);
        }
        buf
    }

    /// Reads the header at the front of `data`.
    pub fn from_bytes(data: &[u8]) -> (r: Result<FileHeader, FormatError>)
        ensures
            r == read_header(data@),
    {
        proof {
            lemma_byte_range();
        }
        if data.len() < 16 {
            return Err(FormatError::HeaderTooShort);
        }
        let magic: u64 = field_of(data, 0, 8);
        if magic != MAGIC_BYTES {
            return Err(FormatError::HeaderMagic { found: magic });
        }
        let version: u32 = field_of(data, 8, 12) as u32;
        let feature_flags: u32 = field_of(data, 12, 16) as u32;
        if version <= 2 {
            return Ok(
                FileHeader {
                    magic,
                    version,
                    feature_flags,
                    header_size: 16,
                    creation_time: 0,
                    source_lsn: 0,
                    prev_snap_lsn: 0,
                    schema_version: 0,
                    compression: 0,
                },
            );
        }
        if data.len() < FILE_HEADER_SIZE {
            return Err(FormatError::HeaderTooShortForVersion);
        }
        Ok(
            FileHeader {
                magic,
                version,
                feature_flags,
                header_size: field_of(data, 16, 20) as u32,
                creation_time: i64_from_bits(field_of(data, 20, 28)),
                source_lsn: field_of(data, 28, 36),
                prev_snap_lsn: field_of(data, 36, 44),
                schema_version: field_of(data, 44, 48) as u32,
                compression: data[48],
            },
        )
    }

    /// The length of the header in its file.
    pub fn effective_header_size(&self) -> (n: usize)
        ensures
            n == header_len(*self),
    {
        if self.version <= 2 {
            16
        } else {
            self.header_size as usize
        }
    }
}

/// The footer of a snapshot file.
#[derive(Debug, Clone, Copy, PartialEq, Eq, Structural)]
pub struct Footer {
    pub index_offset: u64,
    pub index_size: u64,
    pub row_count: u64,
    pub txn_ids_offset: u64,
    pub txn_ids_count: u64,
    /// The checksum of the rows.
    pub data_checksum: u32,
    pub magic: u64,
}

/// A footer as the file holds it.
pub open spec fn footer_bytes(f: Footer) -> Seq<u8> {
    le_bytes(f.index_offset as nat, 8) + le_bytes(f.index_size as nat, 8) + le_bytes(
        f.row_count as nat,
        8,
    ) + le_bytes(f.txn_ids_offset as nat, 8) + le_bytes(f.txn_ids_count as nat, 8) + le_bytes(
        f.data_checksum as nat,
        4,
    ) + zeros(12) + le_bytes(f.magic as nat, 8)
}

/// The length of a footer in a file of `version`.
pub open spec fn footer_len(version: u32) -> nat {
    if version <= 2 {
        48
    } else {
        64
    }
}

/// The footer at the front of `b`, in a file of `version`.
pub open spec fn read_footer(b: Seq<u8>, version: u32) -> Result<Footer, FormatError> {
    let magic_at: int = if version <= 2 {
        40
    } else {
        56
    };
    let expected = if version <= 2 {
        MAGIC_BYTES
    } else {
        FOOTER_MAGIC
    };
    if b.len() < footer_len(version) {
        Err(FormatError::FooterTooShort)
    } else if field(b, magic_at, magic_at + 8) != expected {
        Err(FormatError::FooterMagic { found: field(b, magic_at, magic_at + 8) as u64 })
    } else {
        Ok(
            Footer {
                index_offset: field(b, 0, 8) as u64,
                index_size: field(b, 8, 16) as u64,
                row_count: field(b, 16, 24) as u64,
                txn_ids_offset: field(b, 24, 32) as u64,
                txn_ids_count: field(b, 32, 40) as u64,
                data_checksum: if version <= 2 {
                    0
                } else {
                    field(b, 40, 44) as u32
                },
                magic: expected,
            },
        )
    }
}

impl Footer {
    /// The footer as the file holds it.
    pub fn to_bytes(self) -> (buf: Vec<u8>)
        ensures
            buf@ == footer_bytes(self),
            buf@.len() == FOOTER_SIZE,
    {
        let mut buf: Vec<u8> = Vec::new();
        push_le(&mut buf, self.index_offset, 8);
        assert(buf@ =~= le_bytes(self.index_offset as nat, 8));
        push_le(&mut buf, self.index_size, 8);
        push_le(&mut buf, self.row_count, 8);
        push_le(&mut buf, self.txn_ids_offset, 8);
        push_le(&mut buf, self.txn_ids_count, 8);
        push_le(&mut buf, self.data_checksum as u64, 4);
        push_zeros(&mut buf, 12);
        push_le(&mut buf, self.magic, 8);
        proof {
            lemma_footer_len(self);
        }
        buf
    }

    /// Reads the footer at the front of `data`, in a file of `version`.
    pub fn from_bytes(data: &[u8], version: u32) -> (r: Result<Footer, FormatError>)
        ensures
            r == read_footer(data@, version),
    {
        proof {
            lemma_byte_range();
        }
        if data.len() < Footer::size_for_version(version) {
            return Err(FormatError::FooterTooShort);
        }
        let (magic, expected): (u64, u64) = if version <= 2 {
            (field_of(data, 40, 48), MAGIC_BYTES)
        } else {
            (field_of(data, 56, 64), FOOTER_MAGIC)
        };
        if magic != expected {
            return Err(FormatError::FooterMagic { found: magic });
        }
        let data_checksum: u32 = if version <= 2 {
            0
        } else {
            field_of(data, 40, 44) as u32
        };
        Ok(
            Footer {
                index_offset: field_of(data, 0, 8),
                index_size: field_of(data, 8, 16),
                row_count: field_of(data, 16, 24),
                txn_ids_offset: field_of(data, 24, 32),
                txn_ids_count: field_of(data, 32, 40),
                data_checksum,
                magic,
            },
        )
    }

    /// The length of a footer in a file of `version`.
    pub fn size_for_version(version: u32) -> (n: usize)
        ensures
            n == footer_len(version),
    {
        if version <= 2 {
            LEGACY_FOOTER_SIZE
        } else {
            FOOTER_SIZE
        }
    }
}

pub proof fn lemma_header_len(h: FileHeader)
    ensures
        header_bytes(h).len() == 64,
{
    lemma_le_bytes_len(h.magic as nat, 8);
    lemma_le_bytes_len(h.version as nat, 4);
    lemma_le_bytes_len(h.feature_flags as nat, 4);
    lemma_le_bytes_len(h.header_size as nat, 4);
    lemma_le_bytes_len(i64_bits(h.creation_time as int), 8);
    lemma_le_bytes_len(h.source_lsn as nat, 8);
    lemma_le_bytes_len(h.prev_snap_lsn as nat, 8);
    lemma_le_bytes_len(h.schema_version as nat, 4);
}

pub proof fn lemma_footer_len(f: Footer)
    ensures
        footer_bytes(f).len() == 64,
{
    lemma_le_bytes_len(f.index_offset as nat, 8);
    lemma_le_bytes_len(f.index_size as nat, 8);
    lemma_le_bytes_len(f.row_count as nat, 8);
    lemma_le_bytes_len(f.txn_ids_offset as nat, 8);
    lemma_le_bytes_len(f.txn_ids_count as nat, 8);
    lemma_le_bytes_len(f.data_checksum as nat, 4);
    lemma_le_bytes_len(f.magic as nat, 8);
}

/// A header from version 3 on is read back as it was written, whatever stands behind it.
pub proof fn header_round_trip(h: FileHeader, rest: Seq<u8>)
    requires
        h.magic == MAGIC_BYTES,
        h.version > 2,
    ensures
        read_header(header_bytes(h) + rest) == Ok::<FileHeader, FormatError>(h),
{
    let b = header_bytes(h) + rest;
    let y0 = le_bytes(h.magic as nat, 8);
    let y1 = le_bytes(h.version as nat, 4);
    let y2 = le_bytes(h.feature_flags as nat, 4);
    let y3 = le_bytes(h.header_size as nat, 4);
    let y4 = le_bytes(i64_bits(h.creation_time as int), 8);
    let y5 = le_bytes(h.source_lsn as nat, 8);
    let y6 = le_bytes(h.prev_snap_lsn as nat, 8);
    let y7 = le_bytes(h.schema_version as nat, 4);
    lemma_byte_range();
    lemma_header_len(h);
    lemma_i64_round_trip(h.creation_time as int);
    lemma_le_round_trip(h.magic as nat, 8);
    lemma_le_round_trip(h.version as nat, 4);
    lemma_le_round_trip(h.feature_flags as nat, 4);
    lemma_le_round_trip(h.header_size as nat, 4);
    lemma_le_round_trip(i64_bits(h.creation_time as int), 8);
    lemma_le_round_trip(h.source_lsn as nat, 8);
    lemma_le_round_trip(h.prev_snap_lsn as nat, 8);
    lemma_le_round_trip(h.schema_version as nat, 4);
    assert(b.subrange(0, 8) =~= y0);
    assert(b.subrange(8, 12) =~= y1);
    assert(b.subrange(12, 16) =~= y2);
    assert(b.subrange(16, 20) =~= y3);
    assert(b.subrange(20, 28) =~= y4);
    assert(b.subrange(28, 36) =~= y5);
    assert(b.subrange(36, 44) =~= y6);
    assert(b.subrange(44, 48) =~= y7);
    assert(b[48] == h.compression);
}

/// A footer from version 3 on is read back as it was written, whatever stands behind it.
pub proof fn footer_round_trip(f: Footer, version: u32, rest: Seq<u8>)
    requires
        f.magic == FOOTER_MAGIC,
        version > 2,
    ensures
        read_footer(footer_bytes(f) + rest, version) == Ok::<Footer, FormatError>(f),
{
    let b = footer_bytes(f) + rest;
    lemma_byte_range();
    lemma_footer_len(f);
    lemma_le_round_trip(f.index_offset as nat, 8);
    lemma_le_round_trip(f.index_size as nat, 8);
    lemma_le_round_trip(f.row_count as nat, 8);
    lemma_le_round_trip(f.txn_ids_offset as nat, 8);
    lemma_le_round_trip(f.txn_ids_count as nat, 8);
    lemma_le_round_trip(f.data_checksum as nat, 4);
    lemma_le_round_trip(f.magic as nat, 8);
    assert(b.subrange(0, 8) =~= le_bytes(f.index_offset as nat, 8));
    assert(b.subrange(8, 16) =~= le_bytes(f.index_size as nat, 8));
    assert(b.subrange(16, 24) =~= le_bytes(f.row_count as nat, 8));
    assert(b.subrange(24, 32) =~= le_bytes(f.txn_ids_offset as nat, 8));
    assert(b.subrange(32, 40) =~= le_bytes(f.txn_ids_count as nat, 8));
    assert(b.subrange(40, 44) =~= le_bytes(f.data_checksum as nat, 4));
    assert(b.subrange(56, 64) =~= le_bytes(f.magic as nat, 8));
}

} // verus!
