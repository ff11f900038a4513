//! The file that records up to which position of the log the snapshots go.

use crate::bytes::{
    le_bytes, le_to_u64, le_value, lemma_byte_range, lemma_le_bytes_len, lemma_le_round_trip, push_le,
};
use crate::checksum::{changed_byte_breaks_the_seal, checksum, crc32, one_byte_apart};
use crate::text::{
    parse_u64, strip_prefix, strip_suffix, trim, trimmed, u64_in_text, without_prefix,
    without_suffix,
};
use vstd::prelude::*;
use vstd::slice::*;
use vstd::string::*;

verus! {

/// The first four bytes of the file: `SNAP`.
pub const SNAPSHOT_META_MAGIC: u32 = 0x50414E53;

/// The version that is written.
pub const SNAPSHOT_META_VERSION: u32 = 1;

/// The length of the file.
pub const SNAPSHOT_META_SIZE: usize = 28;

/// The part of the file that its checksum covers.
pub open spec fn meta_fields(lsn: u64, timestamp: u64) -> Seq<u8> {
    le_bytes(SNAPSHOT_META_MAGIC as nat, 4) + (le_bytes(SNAPSHOT_META_VERSION as nat, 4) + (
    le_bytes(lsn as nat, 8) + le_bytes(timestamp as nat, 8)))
}

/// The file's contents for a log position and a time.
pub open spec fn meta_bytes(lsn: u64, timestamp: u64) -> Seq<u8> {
    meta_fields(lsn, timestamp) + le_bytes(crc32(meta_fields(lsn, timestamp)) as nat, 4)
}

/// Whether `data` begins with a record that this version can read and that is intact, given what
/// the checksum of its first 24 bytes is.
pub open spec fn meta_valid(data: Seq<u8>, computed: u32) -> bool {
    &&& data.len() >= SNAPSHOT_META_SIZE
    &&& le_value(data.subrange(0, 4)) == SNAPSHOT_META_MAGIC
    &&& le_value(data.subrange(4, 8)) <= SNAPSHOT_META_VERSION
    &&& le_value(data.subrange(24, 28)) == computed
}

/// The log position in `data`; 0 where the record is not valid.
pub open spec fn meta_lsn(data: Seq<u8>, computed: u32) -> nat {
    if meta_valid(data, computed) {
        le_value(data.subrange(8, 16))
    } else {
        0
    }
}

/// The file's contents for a log position and a time in milliseconds since the Unix epoch.
pub fn encode_snapshot_metadata(lsn: u64, timestamp: u64) -> (buf: Vec<u8>)
    ensures
        buf@ == meta_bytes(lsn, timestamp),
{
    let mut buf: Vec<u8> = Vec::new();
    push_le(&mut buf, SNAPSHOT_META_MAGIC as u64, 4);
    push_le(&mut buf, SNAPSHOT_META_VERSION as u64, 4);
    push_le(&mut buf, lsn, 8);
    push_le(&mut buf, timestamp, 8);
    assert(buf@ =~= meta_fields(lsn, timestamp));
    let crc: u32 = checksum(buf.as_slice());
    push_le(&mut buf, crc as u64, 4);
    buf
}

fn le_field(data: &[u8], from: usize, to: usize) -> (v: u64)
    requires
        from <= to <= data@.len(),
        to - from <= 8,
    ensures
        v == le_value(data@.subrange(from as int, to as int)),
{
    le_to_u64(slice_subrange(data, from, to))
}

/// The log position in a file whose first 24 bytes have the checksum `computed`; 0 where the file
/// is too short, is none of this kind, comes from a later version, or is damaged.
pub fn checked_snapshot_lsn(data: &[u8], computed: u32) -> (lsn: u64)
    ensures
        lsn == meta_lsn(data@, computed),
{
    if data.len() < SNAPSHOT_META_SIZE {
        return 0;
    }
    if le_field(data, 0, 4) != SNAPSHOT_META_MAGIC as u64 {
        return 0;
    }
    if le_field(data, 4, 8) > SNAPSHOT_META_VERSION as u64 {
        return 0;
    }
    if le_field(data, 24, 28) != computed as u64 {
        return 0;
    }
    le_field(data, 8, 16)
}

/// The log position in the contents of the file; 0 where they are not valid.
pub fn read_snapshot_metadata(data: &[u8]) -> (lsn: u64)
    ensures
        lsn == meta_lsn(data@, crc32(data@.subrange(0, 24))),
{
    if data.len() < SNAPSHOT_META_SIZE {
        return 0;
    }
    let computed: u32 = checksum(slice_subrange(data, 0, 24));
    checked_snapshot_lsn(data, computed)
}

/// The log position in the older text form of the file, `{"lsn":N}`; 0 where it has another form.
pub open spec fn text_lsn(text: Seq<char>) -> u64 {
    match without_prefix(trimmed(text), "{\"lsn\":"@) {
        None => 0,
        Some(rest) => match without_suffix(rest, "}"@) {
            None => 0,
            Some(number) => match u64_in_text(trimmed(number), 10) {
                Some(lsn) => lsn,
                None => 0,
            },
        },
    }
}

/// Reads the older text form of the file.
pub fn read_text_snapshot_lsn(text: &str) -> (lsn: u64)
    ensures
        lsn == text_lsn(text@),
{
    match strip_prefix(trim(text), "{\"lsn\":") {
        None => 0,
        Some(rest) => match strip_suffix(rest, "}") {
            None => 0,
            Some(number) => match parse_u64(trim(number), 10) {
                Some(lsn) => lsn,
                None => 0,
            },
        },
    }
}

/// The log position of the snapshots, from the contents of the two files as far as they exist: the
/// binary file decides unless it gives 0.
pub fn read_snapshot_lsn(binary: Option<&[u8]>, text: Option<&str>) -> (lsn: u64)
    ensures
        ({
            let first = match binary {
                Some(data) => meta_lsn(data@, crc32(data@.subrange(0, 24))),
                None => 0,
            };
            lsn == if first > 0 {
                first
            } else {
                match text {
                    Some(t) => text_lsn(t@) as nat,
                    None => 0,
                }
            }
        }),
{
    match binary {
        Some(data) => {
            let lsn: u64 = read_snapshot_metadata(data);
            if lsn > 0 {
                return lsn;
            }
        },
        None => {},
    }
    match text {
        Some(t) => read_text_snapshot_lsn(t),
        None => 0,
    }
}

/// The log position that was written is the one that is read, whatever stands behind the record.
pub proof fn meta_round_trip(lsn: u64, timestamp: u64, rest: Seq<u8>)
    ensures
        ({
            let data = meta_bytes(lsn, timestamp) + rest;
            meta_lsn(data, crc32(data.subrange(0, 24))) == lsn
        }),
{
    let data = meta_bytes(lsn, timestamp) + rest;
    let fields = meta_fields(lsn, timestamp);
    let m = SNAPSHOT_META_MAGIC as nat;
    let v = SNAPSHOT_META_VERSION as nat;
    lemma_byte_range();
    lemma_le_round_trip(m, 4);
    lemma_le_round_trip(v, 4);
    lemma_le_round_trip(lsn as nat, 8);
    lemma_le_round_trip(timestamp as nat, 8);
    lemma_le_round_trip(crc32(fields) as nat, 4);
    assert(data.subrange(0, 24) =~= fields);
    assert(data.subrange(0, 4) =~= le_bytes(m, 4));
    assert(data.subrange(4, 8) =~= le_bytes(v, 4));
    assert(data.subrange(8, 16) =~= le_bytes(lsn as nat, 8));
    assert(data.subrange(24, 28) =~= le_bytes(crc32(fields) as nat, 4));
}

/// A record whose stored checksum is not that of its first 24 bytes gives no log position.
pub proof fn damaged_meta_is_refused(data: Seq<u8>)
    requires
        data.len() >= SNAPSHOT_META_SIZE,
        le_value(data.subrange(24, 28)) != crc32(data.subrange(0, 24)),
    ensures
        meta_lsn(data, crc32(data.subrange(0, 24))) == 0,
{
}

/// A written record in which one byte was changed gives no log position.
pub proof fn changed_meta_is_refused(lsn: u64, timestamp: u64, data: Seq<u8>, i: int)
    requires
        one_byte_apart(meta_bytes(lsn, timestamp), data, i),
    ensures
        meta_lsn(data, crc32(data.subrange(0, 24))) == 0,
{
    let fields = meta_fields(lsn, timestamp);
    lemma_le_bytes_len(SNAPSHOT_META_MAGIC as nat, 4);
    lemma_le_bytes_len(SNAPSHOT_META_VERSION as nat, 4);
    lemma_le_bytes_len(lsn as nat, 8);
    lemma_le_bytes_len(timestamp as nat, 8);
    lemma_le_bytes_len(crc32(fields) as nat, 4);
    changed_byte_breaks_the_seal(fields, data, i);
    assert(data.take(24) =~= data.subrange(0, 24));
    damaged_meta_is_refused(data);
}

} // verus!
