//! The snapshots of one table.

use crate::backup::{
    StoredVersion, holds_table, names_row, repeats_row, rows_for_snapshot, snapshot_rows,
    table_snapshot,
};
use crate::names::{intact_total, kept_snapshots};
use crate::schema::{ColumnV, Schema, SchemaV, type_tag};
use crate::snapshot_format::new_header;
use crate::snapshot_reader::{
    OpenError, ReaderV, SnapshotReader, decodes_to, file_crc, intact, read_file, unloaded_row,
    verify_snapshot_integrity, with_loaded,
};
use crate::snapshot_writer::{SnapshotRow, WriteError};
use vstd::prelude::*;
use vstd::string::*;

verus! {

// ---------------------------------------------------------------------------
// The hash of a schema
// ---------------------------------------------------------------------------

/// Where the hash begins.
pub const HASH_START: u64 = 14_695_981_039_346_656_037;

/// What the hash is multiplied by at each step.
pub const HASH_PRIME: u64 = 1_099_511_628_211;

/// The FNV-1a hash after one more number.
pub open spec fn hash_step(hash: u64, x: u64) -> u64 {
    (((hash ^ x) * HASH_PRIME) % 0x1_0000_0000_0000_0000) as u64
}

/// The FNV-1a hash of some numbers.
pub open spec fn hash_from(start: u64, xs: Seq<u64>) -> u64
    decreases xs.len(),
{
    if xs.len() == 0 {
        start
    } else {
        hash_step(hash_from(start, xs.drop_last()), xs.last())
    }
}

/// The code points of a text.
pub open spec fn code_points(s: Seq<char>) -> Seq<u64> {
    s.map_values(|c: char| c as u64)
}

/// 1 for true and 0 for false.
pub open spec fn flag_number(b: bool) -> u64 {
    if b {
        1
    } else {
        0
    }
}

/// What the hash of a schema takes in of a column: its name, type, and whether it may be NULL and is
/// the primary key.
pub open spec fn column_numbers(c: ColumnV) -> Seq<u64> {
    code_points(c.name) + seq![
        type_tag(c.data_type) as u64,
        flag_number(c.nullable),
        flag_number(c.primary_key),
    ]
}

/// What the hash of a schema takes in of its columns.
pub open spec fn columns_numbers(columns: Seq<ColumnV>) -> Seq<u64>
    decreases columns.len(),
{
    if columns.len() == 0 {
        Seq::empty()
    } else {
        columns_numbers(columns.drop_last()) + column_numbers(columns.last())
    }
}

/// The hash of a schema.
pub open spec fn hash_of_schema(s: SchemaV) -> u64 {
    hash_from(HASH_START, code_points(s.table_name) + columns_numbers(s.columns))
}

proof fn lemma_hash_join(start: u64, a: Seq<u64>, b: Seq<u64>)
    ensures
        hash_from(start, a + b) == hash_from(hash_from(start, a), b),
    decreases b.len(),
{
    if b.len() == 0 {
        assert(a + b =~= a);
    } else {
        assert((a + b).drop_last() =~= a + b.drop_last());
        lemma_hash_join(start, a, b.drop_last());
    }
}

proof fn lemma_hash_one(start: u64, x: u64)
    ensures
        hash_from(start, seq![x]) == hash_step(start, x),
{
    assert(seq![x].drop_last() =~= Seq::empty());
    reveal_with_fuel(hash_from, 2);
}

fn hash_number(hash: u64, x: u64) -> (r: u64)
    ensures
        r == hash_step(hash, x),
{
    (hash ^ x).wrapping_mul(HASH_PRIME)
}

fn hash_text(hash: u64, text: &str) -> (r: u64)
    ensures
        r == hash_from(hash, code_points(text@)),
{
    let n: usize = text.unicode_len();
    let ghost points = code_points(text@);
    let mut h: u64 = hash;
    let mut i: usize = 0;
    assert(points.take(0) =~= Seq::empty());
    while i < n
        invariant
            i <= n,
            n == text@.len(),
            points == code_points(text@),
            h == hash_from(hash, points.take(i as int)),
        decreases n - i,
    {
        assert(points.take(i + 1).drop_last() =~= points.take(i as int));
        assert(points.take(i + 1).last() == points[i as int]);
        h = hash_number(h, text.get_char(i) as u64);
        i = i + 1;
    }
    assert(points.take(i as int) =~= points);
    h
}

fn hash_flag(hash: u64, flag: bool) -> (r: u64)
    ensures
        r == hash_step(hash, flag_number(flag)),
{
    let x: u64 = if flag {
        1
    } else {
        0
    };
    hash_number(hash, x)
}

/// The hash of a schema: FNV-1a over the table's name and, for each column, its name, type, and
/// whether it may be NULL and is the primary key.
pub fn schema_hash(schema: &Schema) -> (hash: u64)
    ensures
        hash == hash_of_schema(schema@),
{
    let ghost columns = schema@.columns;
    let ghost name = code_points(schema@.table_name);
    let mut h: u64 = hash_text(HASH_START, schema.table_name.as_str());
    let mut i: usize = 0;
    assert(columns.take(0) =~= Seq::empty());
    assert(name + columns_numbers(columns.take(0)) =~= name);
    while i < schema.columns.len()
        invariant
            i <= schema.columns@.len(),
            columns == schema@.columns,
            columns.len() == schema.columns@.len(),
            h == hash_from(HASH_START, name + columns_numbers(columns.take(i as int))),
        decreases schema.columns@.len() - i,
    {
        let ghost start = h;
        let ghost before = name + columns_numbers(columns.take(i as int));
        let ghost c = columns[i as int];
        assert(c == schema.columns@[i as int]@);
        h = hash_text(h, schema.columns[i].name.as_str());
        h = hash_number(h, schema.columns[i].data_type.as_u8() as u64);
        h = hash_flag(h, schema.columns[i].nullable);
        h = hash_flag(h, schema.columns[i].primary_key);
        proof {
            let points = code_points(c.name);
            let t = type_tag(c.data_type) as u64;
            let a = flag_number(c.nullable);
            let b = flag_number(c.primary_key);
            assert(column_numbers(c) =~= points + seq![t] + seq![a] + seq![b]);
            lemma_hash_join(start, points, seq![t]);
            lemma_hash_join(start, points + seq![t], seq![a]);
            lemma_hash_join(start, points + seq![t] + seq![a], seq![b]);
            lemma_hash_one(hash_from(start, points), t);
            lemma_hash_one(hash_from(start, points + seq![t]), a);
            lemma_hash_one(hash_from(start, points + seq![t] + seq![a]), b);
            lemma_hash_join(HASH_START, before, column_numbers(c));
            assert(columns.take(i + 1).drop_last() =~= columns.take(i as int));
            assert(columns.take(i + 1).last() == c);
            assert(name + columns_numbers(columns.take(i + 1)) =~= before + column_numbers(c));
        }
        i = i + 1;
    }
    assert(columns.take(i as int) =~= columns);
    h
}

// ---------------------------------------------------------------------------
// The store
// ---------------------------------------------------------------------------

/// The snapshots of a table that are open.
pub struct DiskVersionStore {
    table_name: String,
    readers: Vec<SnapshotReader>,
    schema_hash: u64,
}

/// The snapshots of a table that are open, the newest last.
pub struct StoreV {
    pub table_name: Seq<char>,
    pub readers: Seq<ReaderV>,
    pub schema_hash: u64,
}

impl View for DiskVersionStore {
    type V = StoreV;

    closed spec fn view(&self) -> StoreV {
        StoreV {
            table_name: self.table_name@,
            readers: self.readers@.map_values(|r: SnapshotReader| r@),
            schema_hash: self.schema_hash,
        }
    }
}

/// A store with one more open snapshot.
pub open spec fn with_reader(s: StoreV, r: ReaderV) -> StoreV {
    StoreV { readers: s.readers.push(r), ..s }
}

/// A store with another newest snapshot.
pub open spec fn with_last(s: StoreV, r: ReaderV) -> StoreV {
    StoreV { readers: s.readers.update(s.readers.len() - 1, r), ..s }
}

/// The snapshot of a file, before any row was loaded.
pub open spec fn opened(data: Seq<u8>, now: int) -> Result<ReaderV, OpenError> {
    match read_file(data, file_crc(data), now) {
        Ok(file) => Ok(ReaderV { file, data, loaded: Set::empty() }),
        Err(e) => Err(e),
    }
}

/// The newest intact snapshot among some files, of which the newest is the last.
pub open spec fn newest_intact(files: Seq<Seq<u8>>, now: int) -> Option<ReaderV>
    decreases files.len(),
{
    if files.len() == 0 {
        None
    } else {
        match opened(files.last(), now) {
            Ok(r) => Some(r),
            Err(_) => newest_intact(files.drop_last(), now),
        }
    }
}

/// The store after its newest intact snapshot was opened; the error of the newest where none is
/// intact.
pub open spec fn after_loading(s: StoreV, files: Seq<Seq<u8>>, now: int) -> Result<StoreV, OpenError> {
    if files.len() == 0 {
        Ok(s)
    } else {
        match newest_intact(files, now) {
            Some(r) => Ok(with_reader(s, r)),
            None => Err(opened(files.last(), now)->Err_0),
        }
    }
}

/// Whether a snapshot file is intact.
pub open spec fn is_intact(data: Seq<u8>) -> bool {
    intact(data, file_crc(data)) is Ok
}

/// Which of some files are intact.
pub open spec fn intact_flags(files: Seq<Seq<u8>>) -> Seq<bool> {
    files.map_values(|f: Seq<u8>| is_intact(f))
}

/// The contents of files.
pub open spec fn file_views(files: Seq<Vec<u8>>) -> Seq<Seq<u8>> {
    files.map_values(|f: Vec<u8>| f@)
}

impl DiskVersionStore {
    /// A store without open snapshots.
    pub fn new(table_name: &str, schema: &Schema) -> (s: DiskVersionStore)
        ensures
            s@ == (StoreV {
                table_name: table_name@,
                readers: Seq::empty(),
                schema_hash: hash_of_schema(schema@),
            }),
    {
        let s = DiskVersionStore {
            table_name: table_name.to_owned(),
            readers: Vec::new(),
            schema_hash: schema_hash(schema),
        };
        assert(s@.readers =~= Seq::empty());
        s
    }

    /// The table's name, which is that of its directory.
    pub fn table_name(&self) -> (n: &str)
        ensures
            n@ == self@.table_name,
    {
        self.table_name.as_str()
    }

    /// The hash of the table's schema.
    pub fn schema_hash(&self) -> (h: u64)
        ensures
            h == self@.schema_hash,
    {
        self.schema_hash
    }

    /// The snapshot file of the versions that are not deleted. A row that occurs twice is refused.
    pub fn create_snapshot(
        &self,
        versions: &[StoredVersion],
        schema: &Schema,
        creation_time: i64,
    ) -> (r: Result<Vec<u8>, WriteError>)
        requires
            forall|i: int|
                0 <= i < versions@.len() ==> (#[trigger] versions@[i]).encoded@.len() < 0x8000_0000,
        ensures
            exists|rows: Seq<SnapshotRow>| #[trigger]
                rows_for_snapshot(versions@, rows) && match r {
                    Ok(file) => !repeats_row(rows) && holds_table(
                        file@,
                        new_header(creation_time, 0),
                        schema@,
                        rows,
                    ),
                    Err(e) => repeats_row(rows) && names_row(e, rows),
                },
    {
        let rows = snapshot_rows(versions);
        let r = table_snapshot(schema, rows.as_slice(), creation_time, 0);
        proof {
            assert(rows_for_snapshot(versions@, rows@));
        }
        r
    }

    /// Opens one of the table's snapshots.
    pub fn load_snapshot(&mut self, data: Vec<u8>, now: i64) -> (r: Result<(), OpenError>)
        ensures
            match r {
                Ok(_) => opened(data@, now as int) is Ok && final(self)@ == with_reader(
                    old(self)@,
                    opened(data@, now as int)->Ok_0,
                ),
                Err(e) => {
                    &&& opened(data@, now as int) == Err::<ReaderV, OpenError>(e)
                    &&& final(self)@ == old(self)@
                },
            },
    {
        match SnapshotReader::open(data, now) {
            Ok(reader) => {
                let ghost before = self@.readers;
                let ghost added = reader@;
                self.readers.push(reader);
                assert(self@.readers =~= before.push(added));
                Ok(())
            },
            Err(e) => Err(e),
        }
    }

    /// Opens the newest of the table's snapshots that is intact, of files of which the newest is the
    /// last. Does nothing where there are none.
    pub fn load_snapshots(&mut self, files: Vec<Vec<u8>>, now: i64) -> (r: Result<(), OpenError>)
        ensures
            match after_loading(old(self)@, file_views(files@), now as int) {
                Ok(s) => r is Ok && final(self)@ == s,
                Err(e) => r == Err::<(), OpenError>(e) && final(self)@ == old(self)@,
            },
    {
        let ghost all = file_views(files@);
        let ghost start = self@;
        let mut rest = files;
        let mut newest: Option<OpenError> = None;
        loop
            invariant
                self@ == start,
                start == old(self)@,
                all == file_views(files@),
                newest_intact(file_views(rest@), now as int) == newest_intact(all, now as int),
                match newest {
                    None => file_views(rest@) == all,
                    Some(e) => all.len() > 0 && opened(all.last(), now as int) == Err::<
                        ReaderV,
                        OpenError,
                    >(e),
                },
            decreases rest@.len(),
        {
            let ghost before = rest@;
            match rest.pop() {
                None => {
                    assert(file_views(rest@) =~= Seq::empty());
                    return match newest {
                        None => Ok(()),
                        Some(e) => Err(e),
                    };
                },
                Some(data) => {
                    proof {
                        assert(file_views(before).last() == data@);
                        assert(file_views(before).drop_last() =~= file_views(rest@));
                    }
                    match self.load_snapshot(data, now) {
                        Ok(_) => {
                            return Ok(());
                        },
                        Err(e) => {
                            if newest.is_none() {
                                newest = Some(e);
                            }
                        },
                    }
                },
            }
        }
    }

    /// A row from the newest open snapshot, where it was not loaded before; it then counts as loaded. A
    /// row that cannot be decoded is not given, and does not count as loaded.
    pub fn get_row<D, F: Fn(&[u8]) -> Option<D>>(&mut self, row_id: i64, decode: &F) -> (r: Option<D>)
        requires
            forall|b: &[u8]| #[trigger] decode.requires((b,)),
        ensures
            ({
                let newest = old(self)@.readers.last();
                if old(self)@.readers.len() == 0 {
                    r is None && final(self)@ == old(self)@
                } else {
                    match unloaded_row(newest, row_id) {
                        Some(bytes) => decodes_to(*decode, bytes, r) && final(self)@ == if r is Some {
                            with_last(old(self)@, with_loaded(newest, row_id))
                        } else {
                            old(self)@
                        },
                        None => r is None && final(self)@ == old(self)@,
                    }
                }
            }),
    {
        let n: usize = self.readers.len();
        if n == 0 {
            return None;
        }
        let ghost before = self@;
        let r = self.readers[n - 1].get_row(row_id, decode);
        proof {
            if r is Some {
                assert(self@.readers =~= with_last(
                    before,
                    with_loaded(before.readers.last(), row_id),
                ).readers);
            } else {
                assert(self@.readers =~= before.readers);
            }
        }
        r
    }

    /// Whether the newest open snapshot has the row and it was not loaded.
    pub fn has_unloaded_row(&self, row_id: i64) -> (r: bool)
        ensures
            r == (self@.readers.len() > 0 && {
                let newest = self@.readers.last();
                !newest.loaded.contains(row_id) && newest.file.index.contains_key(row_id)
            }),
    {
        let n: usize = self.readers.len();
        if n == 0 {
            return false;
        }
        assert(self@.readers.last() == self.readers@[n - 1]@);
        self.readers[n - 1].has_unloaded_row(row_id)
    }

    /// Whether the newest open snapshot has the row and it was not loaded.
    pub fn has_row(&self, row_id: i64) -> (r: bool)
        ensures
            r == (self@.readers.len() > 0 && {
                let newest = self@.readers.last();
                !newest.loaded.contains(row_id) && newest.file.index.contains_key(row_id)
            }),
    {
        self.has_unloaded_row(row_id)
    }

    /// Notes that a row was loaded from the newest open snapshot.
    pub fn mark_row_loaded(&mut self, row_id: i64)
        ensures
            final(self)@ == if old(self)@.readers.len() > 0 {
                with_last(old(self)@, with_loaded(old(self)@.readers.last(), row_id))
            } else {
                old(self)@
            },
    {
        let n: usize = self.readers.len();
        if n > 0 {
            let ghost before = self@;
            self.readers[n - 1].mark_loaded(row_id);
            assert(self@.readers =~= with_last(
                before,
                with_loaded(before.readers.last(), row_id),
            ).readers);
        }
    }

    /// Which of the table's snapshots are kept, newest first: the newest `keep_count` that are intact.
    /// The others are removed; one that is damaged takes the place of none.
    pub fn cleanup_old_snapshots(&self, files: &[Vec<u8>], keep_count: usize) -> (kept: Vec<bool>)
        ensures
            kept@ == kept_snapshots(intact_flags(file_views(files@)), keep_count as nat),
    {
        let ghost flags = intact_flags(file_views(files@));
        let mut kept: Vec<bool> = Vec::new();
        let mut count: usize = 0;
        let mut i: usize = 0;
        assert(flags.take(0) =~= Seq::empty());
        assert(kept@ =~= Seq::empty());
        while i < files.len()
            invariant
                i <= files@.len(),
                flags == intact_flags(file_views(files@)),
                flags.len() == files@.len(),
                kept@ == kept_snapshots(flags.take(i as int), keep_count as nat),
                count <= keep_count,
                count == if intact_total(flags.take(i as int)) < keep_count {
                    intact_total(flags.take(i as int))
                } else {
                    keep_count as nat
                },
            decreases files@.len() - i,
        {
            proof {
                assert(flags.take(i + 1).drop_last() =~= flags.take(i as int));
                assert(flags.take(i + 1).last() == is_intact(files@[i as int]@));
            }
            let keep: bool = count < keep_count && verify_snapshot_integrity(
                files[i].as_slice(),
            ).is_ok();
            if keep {
                count = count + 1;
            }
            kept.push(keep);
            i = i + 1;
        }
        assert(flags.take(i as int) =~= flags);
        kept
    }

    /// Closes all open snapshots.
    pub fn close(&mut self)
        ensures
            final(self)@ == (StoreV { readers: Seq::empty(), ..old(self)@ }),
    {
        self.readers.clear();
        assert(self@.readers =~= Seq::empty());
    }
}

// ---------------------------------------------------------------------------
// Laws
// ---------------------------------------------------------------------------

/// A snapshot that is not intact is passed over: the store opens the same as if it were not there,
/// as long as another one can be opened.
pub proof fn damaged_newest_is_passed_over(s: StoreV, files: Seq<Seq<u8>>, damaged: Seq<u8>, now: int)
    requires
        opened(damaged, now) is Err,
        newest_intact(files, now) is Some,
    ensures
        after_loading(s, files.push(damaged), now) == after_loading(s, files, now),
{
    assert(files.push(damaged).drop_last() =~= files);
}

} // verus!
