//! Snapshot files.

use std::cell::Cell;
use stoolap_mvcc::backup::{snapshot_rows, table_snapshot, StoredVersion};
use stoolap_mvcc::disk_store::{schema_hash, DiskVersionStore};
use stoolap_mvcc::restore::snapshot_candidate;
use stoolap_mvcc::schema::{DataType, Schema, SchemaColumn};
use stoolap_mvcc::schema_codec::{deserialize_snapshot_schema, serialize_snapshot_schema};
use stoolap_mvcc::schema_format::{ColumnField, SchemaError};
use stoolap_mvcc::snapshot_format::{FileHeader, Footer, FormatError};
use stoolap_mvcc::snapshot_meta::{encode_snapshot_metadata, read_snapshot_metadata};
use stoolap_mvcc::snapshot_reader::{verify_snapshot_integrity, OpenError, SnapshotReader};
use stoolap_mvcc::snapshot_writer::{choose_payload, SnapshotRow, SnapshotWriter, WriteError};

const NOW: i64 = 1_700_000_000_000_000_000;

fn create_test_schema() -> Schema {
    Schema::with_timestamps_and_foreign_keys(
        "test_table".to_string(),
        vec![
            SchemaColumn::with_constraints(0, "id", DataType::Integer, false, true, true, None, None),
            SchemaColumn::with_constraints(
                1,
                "name",
                DataType::Text,
                true,
                false,
                false,
                Some("'unnamed'".to_string()),
                None,
            ),
            SchemaColumn::with_constraints(
                2,
                "value",
                DataType::Float,
                true,
                false,
                false,
                None,
                Some("value > 0".to_string()),
            ),
        ],
        Vec::new(),
        NOW,
        NOW,
    )
}

/// A row's encoded form: each value behind its length in one byte.
fn encode(values: &[Vec<u8>]) -> Vec<u8> {
    let mut out = Vec::new();
    for v in values {
        out.push(v.len() as u8);
        out.extend_from_slice(v);
    }
    out
}

/// The values of an encoded row.
fn decode(mut bytes: &[u8]) -> Vec<Vec<u8>> {
    let mut out = Vec::new();
    while let Some(n) = bytes.first() {
        let n = *n as usize;
        out.push(bytes[1..1 + n].to_vec());
        bytes = &bytes[1 + n..];
    }
    out
}

/// A row as it is encoded; two bytes or fewer are none.
fn raw(bytes: &[u8]) -> Option<Vec<u8>> {
    if bytes.len() > 2 {
        Some(bytes.to_vec())
    } else {
        None
    }
}

fn row(i: i64, text: String, number: f64) -> SnapshotRow {
    SnapshotRow {
        row_id: i,
        txn_id: 1,
        create_time: NOW,
        encoded: encode(&[
            i.to_le_bytes().to_vec(),
            text.into_bytes(),
            number.to_le_bytes().to_vec(),
        ]),
    }
}

fn small_file() -> Vec<u8> {
    let mut writer = SnapshotWriter::with_source_lsn(NOW, 77);
    writer.write_schema(&create_test_schema());
    writer.append_row(&row(1, "one".to_string(), 1.0)).unwrap();
    writer.append_row(&row(2, "two".to_string(), 2.0)).unwrap();
    writer.finalize()
}

#[test]
fn test_schema_serialization() {
    let schema = create_test_schema();
    let data = serialize_snapshot_schema(&schema);
    let deserialized = deserialize_snapshot_schema(&data, 0).unwrap();

    assert_eq!(deserialized.table_name, schema.table_name);
    assert_eq!(deserialized.columns.len(), schema.columns.len());

    for (orig, deser) in schema.columns.iter().zip(deserialized.columns.iter()) {
        assert_eq!(orig.name, deser.name);
        assert_eq!(orig.data_type, deser.data_type);
        assert_eq!(orig.nullable, deser.nullable);
        assert_eq!(orig.primary_key, deser.primary_key);
        assert_eq!(orig.auto_increment, deser.auto_increment);
        assert_eq!(orig.default_expr, deser.default_expr);
        assert_eq!(orig.check_expr, deser.check_expr);
    }
    assert_eq!(deserialized.created_at, NOW);
    assert_eq!(deserialized.updated_at, NOW);
}

#[test]
fn test_snapshot_writer_reader() {
    let schema = create_test_schema();

    // Write snapshot
    let file = {
        let mut writer = SnapshotWriter::new(NOW);
        writer.write_schema(&schema);

        for i in 1..=100 {
            writer
                .append_row(&row(i, format!("row_{}", i), i as f64 * 1.5))
                .unwrap();
        }

        writer.finalize()
    };

    // Read snapshot
    {
        let mut reader = SnapshotReader::open(file, 0).unwrap();

        assert_eq!(reader.row_count(), 100);
        assert_eq!(reader.schema().table_name, "test_table");

        // Get specific row - row_id is known from the call parameter
        let data = reader.get_row(50, &raw).unwrap();
        assert_eq!(decode(&data).len(), 3); // Verify data was read correctly
        assert_eq!(data, row(50, "row_50".to_string(), 75.0).encoded);

        // Already loaded, should return None
        assert!(reader.get_row(50, &raw).is_none());

        // Get another row
        let data = reader.get_row(75, &raw).unwrap();
        assert_eq!(decode(&data).len(), 3); // Verify data was read correctly
    }
}

#[test]
fn test_snapshot_for_each() {
    let schema = create_test_schema();

    // Write snapshot
    let file = {
        let mut writer = SnapshotWriter::new(NOW);
        writer.write_schema(&schema);

        for i in 1..=50 {
            writer
                .append_row(&row(i, format!("item_{}", i), i as f64))
                .unwrap();
        }

        writer.finalize()
    };

    // Go through all rows
    {
        let reader = SnapshotReader::open(file, 0).unwrap();
        let count = Cell::new(0);
        let sum = Cell::new(0i64);

        reader.for_each(&|row_id: i64, data: &[u8]| {
            count.set(count.get() + 1);
            sum.set(sum.get() + row_id);
            assert_eq!(decode(data).len(), 3); // Verify data integrity
            true
        });

        assert_eq!(count.get(), 50);
        assert_eq!(sum.get(), (1..=50).sum::<i64>());

        // A callback that stops is handed no more rows
        assert_eq!(reader.for_each(&|row_id: i64, _: &[u8]| row_id < 7), 7);
        assert_eq!(reader.get_all_rows(&raw).len(), 50);
        assert_eq!(reader.encoded_rows().len(), 50);
    }
}

#[test]
fn test_disk_version_store() {
    let schema = create_test_schema();

    let mut dvs = DiskVersionStore::new("test_table", &schema);

    // Initially no snapshots
    assert!(dvs.load_snapshots(Vec::new(), NOW).is_ok());
    assert!(dvs.get_row(1, &raw).is_none());
}

#[test]
fn test_schema_hash() {
    let schema1 = create_test_schema();
    let schema2 = create_test_schema();

    assert_eq!(schema_hash(&schema1), schema_hash(&schema2));

    // Different schema should have different hash
    let mut schema3 = create_test_schema();
    schema3.table_name = "different_table".to_string();
    assert_ne!(schema_hash(&schema1), schema_hash(&schema3));
}

#[test]
fn schema_hash_is_fnv_1a_over_names_types_and_flags() {
    let schema = Schema::with_timestamps_and_foreign_keys(
        "t".to_string(),
        vec![SchemaColumn::with_constraints(0, "c", DataType::Vector, true, false, false, None, None)],
        Vec::new(),
        NOW,
        NOW,
    );
    let mut hash: u64 = 14695981039346656037;
    for x in [u64::from(b't'), u64::from(b'c'), 7, 1, 0] {
        hash ^= x;
        hash = hash.wrapping_mul(1099511628211);
    }
    assert_eq!(schema_hash(&schema), hash);
}

#[test]
fn a_store_opens_the_newest_intact_snapshot() {
    let schema = create_test_schema();
    let old = small_file();
    let mut damaged = small_file();
    let middle = damaged.len() / 2;
    damaged[middle] ^= 1;
    let mut store = DiskVersionStore::new("test_table", &schema);
    assert_eq!(store.table_name(), "test_table");
    assert_eq!(store.schema_hash(), schema_hash(&schema));
    store.load_snapshots(vec![old, damaged.clone()], NOW).unwrap();
    assert!(store.has_unloaded_row(1));
    assert!(!store.has_unloaded_row(3));
    assert_eq!(store.get_row(1, &raw).unwrap(), row(1, "one".to_string(), 1.0).encoded);
    assert!(!store.has_row(1));
    store.mark_row_loaded(2);
    assert!(store.get_row(2, &raw).is_none());
    store.close();
    assert!(!store.has_unloaded_row(2));

    // None intact: the error of the newest
    let r = store.load_snapshots(vec![Vec::new(), damaged], NOW);
    assert!(matches!(r, Err(OpenError::ChecksumMismatch { .. })));
}

#[test]
fn a_store_writes_what_is_not_deleted() {
    let schema = create_test_schema();
    let store = DiskVersionStore::new("test_table", &schema);
    let version = |row_id: i64, deleted: bool| StoredVersion {
        row_id,
        create_time: 5,
        deleted,
        encoded: vec![row_id as u8; 4],
    };
    let file = store
        .create_snapshot(&[version(1, false), version(2, true), version(3, false)], &schema, NOW)
        .unwrap();
    let mut reader = SnapshotReader::open(file, 0).unwrap();
    assert_eq!(reader.row_count(), 2);
    assert_eq!(reader.source_lsn(), 0);
    assert_eq!(reader.format_version(), 3);
    assert_eq!(reader.creation_time(), NOW / 1_000_000);
    assert_eq!(reader.get_row(3, &raw).unwrap(), vec![3u8; 4]);
    assert!(reader.get_row(2, &raw).is_none());
    assert_eq!(
        store.create_snapshot(&[version(1, false), version(1, false)], &schema, NOW),
        Err(WriteError::DuplicateRow { row_id: 1 })
    );
}

#[test]
fn rows_of_a_snapshot_carry_its_transaction() {
    let rows = snapshot_rows(&[
        StoredVersion { row_id: 9, create_time: 3, deleted: false, encoded: vec![1] },
        StoredVersion { row_id: 8, create_time: 4, deleted: true, encoded: vec![2] },
    ]);
    assert_eq!(rows.len(), 1);
    assert_eq!(rows[0].row_id, 9);
    assert_eq!(rows[0].txn_id, -1);
    assert_eq!(rows[0].create_time, 3);
    assert_eq!(rows[0].encoded, vec![1]);
}

#[test]
fn a_large_repetitive_row_is_compressed_and_comes_back() {
    let schema = create_test_schema();
    let encoded = vec![42u8; 100_000];
    let rows = [SnapshotRow { row_id: 1, txn_id: 1, create_time: 0, encoded: encoded.clone() }];
    let file = table_snapshot(&schema, &rows, NOW, 5).unwrap();
    assert!(file.len() < 10_000);
    let mut reader = SnapshotReader::open(file, 0).unwrap();
    assert_eq!(reader.source_lsn(), 5);
    assert_eq!(reader.get_row(1, &raw).unwrap(), encoded);
}

#[test]
fn a_payload_is_compressed_only_where_it_gets_shorter() {
    assert_eq!(choose_payload(&[1, 2, 3], None), (vec![1, 2, 3], false));
    assert_eq!(choose_payload(&[1, 2, 3], Some(vec![9, 9, 9])), (vec![1, 2, 3], false));
    assert_eq!(choose_payload(&[1, 2, 3], Some(vec![9])), (vec![9], true));
}

#[test]
fn a_row_that_was_written_is_refused() {
    let mut writer = SnapshotWriter::new(NOW);
    writer.write_schema(&create_test_schema());
    writer.append_row(&row(1, "a".to_string(), 0.5)).unwrap();
    assert_eq!(
        writer.append_row(&row(1, "b".to_string(), 0.5)),
        Err(WriteError::DuplicateRow { row_id: 1 })
    );
}

#[test]
fn rows_are_given_once_and_in_the_order_asked_for() {
    let mut reader = SnapshotReader::open(small_file(), 0).unwrap();
    assert_eq!(reader.source_lsn(), 77);
    assert_eq!(reader.index().len(), 2);
    let rows = reader.get_rows(&[2, 5, 1, 2], &raw);
    assert_eq!(rows.iter().map(|r| r.0).collect::<Vec<_>>(), vec![2, 1]);
    assert!(reader.is_loaded(1) && reader.is_loaded(2) && !reader.is_loaded(5));
    assert!(reader.row_exists_in_index(1));
    assert!(!reader.has_row(1));
    reader.mark_loaded(5);
    assert!(!reader.has_unloaded_row(5));
}

#[test]
fn integrity_gives_the_log_position() {
    assert_eq!(verify_snapshot_integrity(&small_file()), Ok(77));
}

#[test]
fn damage_anywhere_is_noticed() {
    let file = small_file();
    for at in [70, file.len() / 2, file.len() - 1] {
        let mut damaged = file.clone();
        damaged[at] ^= 0x10;
        assert!(matches!(
            verify_snapshot_integrity(&damaged),
            Err(OpenError::ChecksumMismatch { .. })
        ));
        assert!(matches!(
            SnapshotReader::open(damaged, 0),
            Err(OpenError::ChecksumMismatch { .. })
        ));
    }
}

#[test]
fn short_and_foreign_files_are_refused() {
    assert!(matches!(SnapshotReader::open(Vec::new(), 0), Err(OpenError::TooSmallForHeader)));
    let file = small_file();
    assert!(matches!(
        SnapshotReader::open(file[..40].to_vec(), 0),
        Err(OpenError::TooSmallForVersion)
    ));
    let mut foreign = file.clone();
    foreign[0] ^= 1;
    assert!(matches!(
        SnapshotReader::open(foreign, 0),
        Err(OpenError::Format(FormatError::HeaderMagic { .. }))
    ));
}

#[test]
fn a_header_comes_back() {
    let header = FileHeader::new(NOW).with_source_lsn(12).with_prev_snap_lsn(7);
    let bytes = header.to_bytes();
    assert_eq!(bytes.len(), 64);
    assert_eq!(header.effective_header_size(), 64);
    assert_eq!(FileHeader::from_bytes(&bytes), Ok(header));
    assert_eq!(FileHeader::from_bytes(&bytes[..8]), Err(FormatError::HeaderTooShort));
    assert_eq!(
        FileHeader::from_bytes(&bytes[..40]),
        Err(FormatError::HeaderTooShortForVersion)
    );
}

#[test]
fn a_footer_comes_back() {
    let mut footer = Footer {
        index_offset: 1,
        index_size: 2,
        row_count: 3,
        txn_ids_offset: 4,
        txn_ids_count: 5,
        data_checksum: 6,
        magic: 0,
    };
    let bytes = footer.to_bytes();
    assert!(matches!(Footer::from_bytes(&bytes, 3), Err(FormatError::FooterMagic { found: 0 })));
    assert_eq!(Footer::from_bytes(&bytes[..10], 3), Err(FormatError::FooterTooShort));
    footer.magic = 0x53544E445354454E;
    let n = Footer::size_for_version(3);
    assert_eq!(footer.to_bytes().len(), n);
    assert_eq!(Footer::from_bytes(&footer.to_bytes(), 3), Ok(footer));
}

#[test]
fn a_schema_that_ends_early_is_refused_with_the_place() {
    let data = serialize_snapshot_schema(&create_test_schema());
    assert!(matches!(deserialize_snapshot_schema(&data[..3], 0), Err(SchemaError::TooShort)));
    // The table's name, the number of columns, then a name's length and nothing behind it
    let head = 2 + "test_table".len() + 2;
    assert!(matches!(
        deserialize_snapshot_schema(&data[..head], 0),
        Err(SchemaError::MissingColumnField { column: 0, field: ColumnField::NameLength })
    ));
    assert!(matches!(
        deserialize_snapshot_schema(&data[..head + 2], 0),
        Err(SchemaError::MissingColumnField { column: 0, field: ColumnField::Name })
    ));
}

#[test]
fn the_newest_intact_snapshots_are_kept() {
    let store = DiskVersionStore::new("test_table", &create_test_schema());
    let files = [small_file(), vec![1, 2, 3], small_file(), small_file()];
    assert_eq!(store.cleanup_old_snapshots(&files, 2), vec![true, false, true, false]);
    assert_eq!(store.cleanup_old_snapshots(&files, 0), vec![false; 4]);
}

#[test]
fn a_candidate_is_intact_with_its_volume() {
    let name = "snapshot-1.bin";
    assert!(snapshot_candidate(name, Some(small_file()), None, NOW).intact);
    assert!(snapshot_candidate(name, Some(small_file()), Some(true), NOW).intact);
    assert!(!snapshot_candidate(name, Some(small_file()), Some(false), NOW).intact);
    assert!(!snapshot_candidate(name, Some(vec![1, 2]), None, NOW).intact);
    assert!(!snapshot_candidate(name, None, None, NOW).intact);
}

#[test]
fn a_row_that_cannot_be_decoded_stays_unloaded() {
    let short = SnapshotRow { row_id: 4, txn_id: 1, create_time: 0, encoded: vec![1] };
    let file = table_snapshot(&create_test_schema(), &[short], NOW, 0).unwrap();
    let mut reader = SnapshotReader::open(file, 0).unwrap();
    assert!(reader.get_row(4, &raw).is_none());
    assert!(reader.has_unloaded_row(4));
    assert!(reader.get_rows(&[4], &raw).is_empty());
    assert!(reader.get_all_rows(&raw).is_empty());
    assert_eq!(reader.read_row(4), Some(vec![1]));
    assert_eq!(reader.get_row(4, &|b: &[u8]| Some(b.len())), Some(1));
    assert!(!reader.has_unloaded_row(4));
}

#[test]
fn rows_are_compressed_where_that_is_shorter() {
    let row = |row_id: i64, encoded: Vec<u8>| SnapshotRow { row_id, txn_id: 1, create_time: 0, encoded };
    let size = |encoded: Vec<u8>| {
        table_snapshot(&create_test_schema(), &[row(1, encoded)], NOW, 0).unwrap().len()
    };
    // Below the threshold nothing is compressed, from it on what gets shorter is
    assert_eq!(size(vec![0; 63]) - size(vec![0; 3]), 60);
    assert!(size(vec![0; 64]) < size(vec![0; 63]));
}

#[test]
fn a_schema_that_is_cut_within_its_columns_is_refused() {
    let data = serialize_snapshot_schema(&create_test_schema());
    // Behind the columns stand two times, and the sections of foreign keys, default values and
    // clustering key
    let end = data.len() - 16 - 2 - (2 + 3 * 2) - 2;
    for n in 0..end {
        assert!(deserialize_snapshot_schema(&data[..n], 5).is_err(), "cut at {n}");
    }
    let bare = deserialize_snapshot_schema(&data[..end], 5).unwrap();
    assert_eq!(bare.columns.len(), 3);
    assert_eq!(bare.columns[2].check_expr.as_deref(), Some("value > 0"));
    assert_eq!((bare.created_at, bare.updated_at), (5, 5));
    assert!(bare.foreign_keys.is_empty() && bare.cluster_key.is_empty());
}

/// The CRC-32 of bytes, bit by bit.
fn crc_by_bits(bytes: &[u8]) -> u32 {
    let mut c = 0xffff_ffffu32;
    for b in bytes {
        c ^= *b as u32;
        for _ in 0..8 {
            c = if c & 1 == 1 { (c >> 1) ^ 0xedb8_8320 } else { c >> 1 };
        }
    }
    c ^ 0xffff_ffff
}

#[test]
fn the_checksum_is_that_of_the_polynomial() {
    assert_eq!(crc_by_bits(b"123456789"), 0xcbf4_3926);
    let file = small_file();
    let n = file.len() - 4;
    assert_eq!(u32::from_le_bytes(file[n..].try_into().unwrap()), crc_by_bits(&file[..n]));
    let meta = encode_snapshot_metadata(7, 8);
    assert_eq!(u32::from_le_bytes(meta[24..28].try_into().unwrap()), crc_by_bits(&meta[..24]));
}

#[test]
fn every_flipped_bit_is_noticed() {
    let file = small_file();
    assert!(verify_snapshot_integrity(&file).is_ok());
    for i in 0..file.len() {
        for bit in 0..8 {
            let mut damaged = file.clone();
            damaged[i] ^= 1 << bit;
            assert!(verify_snapshot_integrity(&damaged).is_err(), "byte {i}, bit {bit}");
        }
    }
    let meta = encode_snapshot_metadata(7, 8);
    assert_eq!(read_snapshot_metadata(&meta), 7);
    for i in 0..meta.len() {
        let mut damaged = meta.clone();
        damaged[i] ^= 0x10;
        assert_eq!(read_snapshot_metadata(&damaged), 0);
    }
}
