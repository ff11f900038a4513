//! Making a backup: which rows go into a table's snapshot, the file, and how a set of snapshots is
//! published.

use crate::live_rows::{
    RowPlace, each_row_is_live_once, is_live, lists_live, live_rows, volume_views,
};
use crate::names::name_views;
use crate::row_set::{insert_rows, new_row_set};
use crate::schema::{Schema, SchemaV};
use crate::schema_format::snapshot_schema_bytes;
use crate::snapshot_format::{FileHeader, new_header};
use crate::snapshot_writer::{
    Piece, SnapshotRow, SnapshotWriter, WriteError, index_of, is_snapshot_file, took_rows,
};
use crate::text::join3;
use rustc_hash::{FxHashMap, FxHashSet};
use vstd::prelude::*;
use vstd::string::*;

verus! {

// ---------------------------------------------------------------------------
// Rows
// ---------------------------------------------------------------------------

/// The transaction under which a snapshot records its rows.
pub const SNAPSHOT_TXN_ID: i64 = -1;

/// The rows of volumes that go into a backup beside the rows in memory, newest volume first: those
/// that are not in memory and have no tombstone, each from the newest volume that has it.
pub fn cold_rows_for_backup(
    hot_ids: &[i64],
    volumes: &[&[i64]],
    tombstones: &FxHashMap<i64, u64>,
) -> (refs: Vec<RowPlace>)
    ensures
        lists_live(
            refs@,
            volume_views(volumes@),
            hot_ids@.to_set(),
            tombstones@,
            None,
            volumes@.len() as int,
            0,
        ),
{
    let mut hot = new_row_set();
    insert_rows(&mut hot, hot_ids);
    assert(hot@ =~= hot_ids@.to_set());
    live_rows(volumes, &hot, tombstones, None)
}

/// No row of a backup occurs twice: neither among the rows from volumes, nor in memory and in a
/// volume.
pub proof fn backup_rows_are_distinct(
    refs: Seq<RowPlace>,
    hot_ids: Seq<i64>,
    volumes: Seq<Seq<i64>>,
    tombstones: Map<i64, u64>,
    k: int,
)
    requires
        lists_live(
            refs,
            volumes,
            hot_ids.to_set(),
            tombstones,
            None,
            volumes.len() as int,
            0,
        ),
        0 <= k < refs.len(),
    ensures
        !hot_ids.contains(refs[k].0),
        forall|m: int| 0 <= m < refs.len() && m != k ==> (#[trigger] refs[m]).0 != refs[k].0,
{
    assert(is_live(
        volumes,
        hot_ids.to_set(),
        tombstones,
        None,
        refs[k].1 as int,
        refs[k].2 as int,
    ));
    each_row_is_live_once(
        refs,
        volumes,
        hot_ids.to_set(),
        tombstones,
        None,
        refs[k].1 as int,
        refs[k].2 as int,
    );
}

/// A row version as the engine keeps it, with its encoded form.
#[derive(Debug)]
pub struct StoredVersion {
    pub row_id: i64,
    pub create_time: i64,
    pub deleted: bool,
    pub encoded: Vec<u8>,
}

/// The rows of a snapshot for the versions: those that are not deleted, under the snapshot's
/// transaction.
pub open spec fn rows_for_snapshot(versions: Seq<StoredVersion>, rows: Seq<SnapshotRow>) -> bool
    decreases versions.len(),
{
    if versions.len() == 0 {
        rows.len() == 0
    } else if versions.last().deleted {
        rows_for_snapshot(versions.drop_last(), rows)
    } else {
        &&& rows.len() > 0
        &&& rows_for_snapshot(versions.drop_last(), rows.drop_last())
        &&& rows.last().row_id == versions.last().row_id
        &&& rows.last().txn_id == SNAPSHOT_TXN_ID
        &&& rows.last().create_time == versions.last().create_time
        &&& rows.last().encoded@ == versions.last().encoded@
    }
}

/// The rows of a snapshot for the versions: those that are not deleted, under the snapshot's
/// transaction.
pub fn snapshot_rows(versions: &[StoredVersion]) -> (rows: Vec<SnapshotRow>)
    ensures
        rows_for_snapshot(versions@, rows@),
        forall|i: int|
            0 <= i < rows@.len() ==> exists|k: int|
                0 <= k < versions@.len() && (#[trigger] rows@[i]).encoded@ == (
                #[trigger] versions@[k]).encoded@,
{
    let mut rows: Vec<SnapshotRow> = Vec::new();
    let mut i: usize = 0;
    assert(versions@.take(0) =~= Seq::empty());
    while i < versions.len()
        invariant
            i <= versions@.len(),
            rows_for_snapshot(versions@.take(i as int), rows@),
            forall|j: int|
                0 <= j < rows@.len() ==> exists|k: int|
                    0 <= k < versions@.len() && (#[trigger] rows@[j]).encoded@ == (
                    #[trigger] versions@[k]).encoded@,
        decreases versions@.len() - i,
    {
        proof {
            assert(versions@.take(i + 1).drop_last() =~= versions@.take(i as int));
            assert(versions@.take(i + 1).last() == versions@[i as int]);
        }
        if !versions[i].deleted {
            let row = SnapshotRow {
                row_id: versions[i].row_id,
                txn_id: SNAPSHOT_TXN_ID,
                create_time: versions[i].create_time,
                encoded: vstd::slice::slice_to_vec(versions[i].encoded.as_slice()),
            };
            let ghost before = rows@;
            rows.push(row);
            assert(rows@.drop_last() =~= before);
            assert(rows@[before.len() as int].encoded@ == versions@[i as int].encoded@);
        }
        i = i + 1;
    }
    assert(versions@.take(i as int) =~= versions@);
    rows
}

/// Whether two rows have the same identity.
pub open spec fn repeats_row(rows: Seq<SnapshotRow>) -> bool {
    exists|i: int, j: int|
        0 <= i < j < rows.len() && (#[trigger] rows[i]).row_id == (#[trigger] rows[j]).row_id
}

/// Whether `file` is a snapshot file with the given header that holds a schema and then `rows`.
pub open spec fn holds_table(
    file: Seq<u8>,
    header: FileHeader,
    s: SchemaV,
    rows: Seq<SnapshotRow>,
) -> bool {
    exists|ps: Seq<Piece>| #[trigger]
        is_snapshot_file(file, header, ps) && took_rows(
            seq![Piece::Schema(snapshot_schema_bytes(s, 3))],
            ps,
            rows,
        )
}

/// Whether an error names one of the rows.
pub open spec fn names_row(e: WriteError, rows: Seq<SnapshotRow>) -> bool {
    exists|n: int|
        0 <= n < rows.len() && e == (WriteError::DuplicateRow { row_id: (#[trigger] rows[n]).row_id })
}

/// The snapshot file of a table: its schema and rows. A row that occurs twice is refused.
pub fn table_snapshot(
    schema: &Schema,
    rows: &[SnapshotRow],
    creation_time: i64,
    source_lsn: u64,
) -> (r: Result<Vec<u8>, WriteError>)
    requires
        forall|i: int| 0 <= i < rows@.len() ==> (#[trigger] rows@[i]).encoded@.len() < 0x8000_0000,
    ensures
        match r {
            Ok(file) => {
                &&& !repeats_row(rows@)
                &&& holds_table(file@, new_header(creation_time, source_lsn), schema@, rows@)
            },
            Err(e) => repeats_row(rows@) && names_row(e, rows@),
        },
{
    let mut writer = SnapshotWriter::with_source_lsn(creation_time, source_lsn);
    writer.write_schema(schema);
    let ghost first = writer@.pieces;
    proof {
        assert(first =~= seq![Piece::Schema(snapshot_schema_bytes(schema@, 3))]);
        lemma_schema_only(first);
    }
    match writer.append_batch(rows) {
        Ok(_) => {
            proof {
                lemma_taken_rows(first, writer@.pieces, rows@);
            }
            let ghost header = writer@.header;
            let ghost ps = writer@.pieces;
            let file = writer.finalize();
            assert(is_snapshot_file(file@, header, ps));
            assert(holds_table(file@, header, schema@, rows@));
            Ok(file)
        },
        Err(e) => {
            proof {
                let n = choose|n: int|
                    #![trigger rows@.take(n)]
                    0 <= n < rows@.len() && took_rows(first, writer@.pieces, rows@.take(n))
                        && index_of(writer@.pieces).contains_key(rows@[n].row_id) && e == (
                    WriteError::DuplicateRow { row_id: rows@[n].row_id });
                lemma_taken_rows(first, writer@.pieces, rows@.take(n));
                let i = choose|i: int|
                    0 <= i < rows@.take(n).len() && (#[trigger] rows@.take(n)[i]).row_id
                        == rows@[n].row_id;
                assert(rows@[i].row_id == rows@[n].row_id);
            }
            Err(e)
        },
    }
}

proof fn lemma_schema_only(ps: Seq<Piece>)
    requires
        ps.len() == 1,
        ps[0] is Schema,
    ensures
        forall|k: i64| !#[trigger] index_of(ps).contains_key(k),
{
    assert(ps.drop_last().len() == 0);
    reveal_with_fuel(index_of, 2);
}

/// The index of pieces to which rows were added has the rows that it had and those that were added,
/// none of which was there twice.
proof fn lemma_taken_rows(before: Seq<Piece>, after: Seq<Piece>, rows: Seq<SnapshotRow>)
    requires
        took_rows(before, after, rows),
        forall|k: i64| !#[trigger] index_of(before).contains_key(k),
    ensures
        forall|k: i64| #[trigger]
            index_of(after).contains_key(k) <==> exists|i: int|
                0 <= i < rows.len() && (#[trigger] rows[i]).row_id == k,
        !repeats_row(rows),
    decreases rows.len(),
{
    if rows.len() > 0 {
        let shorter = rows.drop_last();
        lemma_taken_rows(before, after.drop_last(), shorter);
        let last = rows.last().row_id;
        assert forall|k: i64| #[trigger] index_of(after).contains_key(k) <==> exists|i: int|
            0 <= i < rows.len() && (#[trigger] rows[i]).row_id == k by {
            if index_of(after.drop_last()).contains_key(k) {
                let i = choose|i: int|
                    0 <= i < shorter.len() && (#[trigger] shorter[i]).row_id == k;
                assert(rows[i].row_id == k);
            }
            if k == last {
                assert(rows[rows.len() - 1].row_id == k);
            }
            if exists|i: int| 0 <= i < rows.len() && (#[trigger] rows[i]).row_id == k {
                let i = choose|i: int| 0 <= i < rows.len() && (#[trigger] rows[i]).row_id == k;
                if i < shorter.len() {
                    assert(shorter[i].row_id == k);
                }
            }
        }
        if repeats_row(rows) {
            let (i, j) = choose|i: int, j: int|
                0 <= i < j < rows.len() && (#[trigger] rows[i]).row_id == (#[trigger] rows[j]).row_id;
            assert(shorter[i] == rows[i]);
            if j < shorter.len() {
                assert(shorter[j] == rows[j]);
                assert(repeats_row(shorter));
            } else {
                assert(index_of(after.drop_last()).contains_key(last));
            }
        }
    }
}

/// A row of a volume that goes into a backup, in its encoded form.
#[derive(Debug)]
pub struct ColdRow {
    pub row_id: i64,
    pub encoded: Vec<u8>,
}

/// Whether `row` is how a backup records a version in memory: as it is, deleted or not, under the
/// snapshot's transaction.
pub open spec fn records_version(row: SnapshotRow, v: StoredVersion) -> bool {
    &&& row.row_id == v.row_id
    &&& row.txn_id == SNAPSHOT_TXN_ID
    &&& row.create_time == v.create_time
    &&& row.encoded@ == v.encoded@
}

/// Whether `row` is how a backup records a row of a volume: under the snapshot's transaction, without
/// a time.
pub open spec fn records_cold(row: SnapshotRow, c: ColdRow) -> bool {
    &&& row.row_id == c.row_id
    &&& row.txn_id == SNAPSHOT_TXN_ID
    &&& row.create_time == 0
    &&& row.encoded@ == c.encoded@
}

/// Whether `rows` are those of a backup: every version in memory, then every row of a volume.
pub open spec fn are_backup_rows(
    rows: Seq<SnapshotRow>,
    hot: Seq<StoredVersion>,
    cold: Seq<ColdRow>,
) -> bool {
    &&& rows.len() == hot.len() + cold.len()
    &&& forall|i: int| 0 <= i < hot.len() ==> records_version(#[trigger] rows[i], hot[i])
    &&& forall|i: int|
        hot.len() <= i < rows.len() ==> records_cold(#[trigger] rows[i], cold[i - hot.len()])
}

/// The rows of a table's backup: every version in memory, then every row of a volume.
pub fn backup_rows(hot: &[StoredVersion], cold: &[ColdRow]) -> (rows: Vec<SnapshotRow>)
    ensures
        are_backup_rows(rows@, hot@, cold@),
{
    let mut rows: Vec<SnapshotRow> = Vec::new();
    let mut i: usize = 0;
    while i < hot.len()
        invariant
            i <= hot@.len(),
            rows@.len() == i,
            forall|k: int| 0 <= k < i ==> records_version(#[trigger] rows@[k], hot@[k]),
        decreases hot@.len() - i,
    {
        rows.push(
            SnapshotRow {
                row_id: hot[i].row_id,
                txn_id: SNAPSHOT_TXN_ID,
                create_time: hot[i].create_time,
                encoded: vstd::slice::slice_to_vec(hot[i].encoded.as_slice()),
            },
        );
        i = i + 1;
    }
    let mut j: usize = 0;
    while j < cold.len()
        invariant
            j <= cold@.len(),
            rows@.len() == hot@.len() + j,
            forall|k: int| 0 <= k < hot@.len() ==> records_version(#[trigger] rows@[k], hot@[k]),
            forall|k: int|
                hot@.len() <= k < rows@.len() ==> records_cold(
                    #[trigger] rows@[k],
                    cold@[k - hot@.len()],
                ),
        decreases cold@.len() - j,
    {
        rows.push(
            SnapshotRow {
                row_id: cold[j].row_id,
                txn_id: SNAPSHOT_TXN_ID,
                create_time: 0,
                encoded: vstd::slice::slice_to_vec(cold[j].encoded.as_slice()),
            },
        );
        j = j + 1;
    }
    rows
}

/// The snapshot file of a table's backup. A row that occurs twice is refused.
pub fn backup_table(
    schema: &Schema,
    hot: &[StoredVersion],
    cold: &[ColdRow],
    creation_time: i64,
) -> (r: Result<Vec<u8>, WriteError>)
    requires
        forall|i: int| 0 <= i < hot@.len() ==> (#[trigger] hot@[i]).encoded@.len() < 0x8000_0000,
        forall|i: int| 0 <= i < cold@.len() ==> (#[trigger] cold@[i]).encoded@.len() < 0x8000_0000,
    ensures
        exists|rows: Seq<SnapshotRow>| #[trigger]
            are_backup_rows(rows, hot@, cold@) && match r {
                Ok(file) => !repeats_row(rows) && holds_table(
                    file@,
                    new_header(creation_time, 0),
                    schema@,
                    rows,
                ),
                Err(e) => repeats_row(rows) && names_row(e, rows),
            },
{
    let rows = backup_rows(hot, cold);
    proof {
        assert forall|i: int| 0 <= i < rows@.len() implies (#[trigger] rows@[i]).encoded@.len()
            < 0x8000_0000 by {
            if i < hot@.len() {
                assert(records_version(rows@[i], hot@[i]));
                assert(hot@[i].encoded@.len() < 0x8000_0000);
            } else {
                assert(records_cold(rows@[i], cold@[i - hot@.len()]));
                assert(cold@[i - hot@.len()].encoded@.len() < 0x8000_0000);
            }
        }
    }
    let r = table_snapshot(schema, rows.as_slice(), creation_time, 0);
    assert(are_backup_rows(rows@, hot@, cold@));
    r
}

/// A backup of the rows that are chosen for it is never refused: where no version in memory occurs
/// twice, and the rows of volumes are those that are live beside them, no row is repeated.
pub proof fn chosen_backup_has_no_repeats(
    rows: Seq<SnapshotRow>,
    hot: Seq<StoredVersion>,
    cold: Seq<ColdRow>,
    refs: Seq<RowPlace>,
    volumes: Seq<Seq<i64>>,
    tombstones: Map<i64, u64>,
)
    requires
        are_backup_rows(rows, hot, cold),
        forall|i: int, j: int|
            0 <= i < j < hot.len() ==> (#[trigger] hot[i]).row_id != (#[trigger] hot[j]).row_id,
        lists_live(
            refs,
            volumes,
            hot.map_values(|v: StoredVersion| v.row_id).to_set(),
            tombstones,
            None,
            volumes.len() as int,
            0,
        ),
        cold.len() == refs.len(),
        forall|i: int| 0 <= i < cold.len() ==> (#[trigger] cold[i]).row_id == refs[i].0,
    ensures
        !repeats_row(rows),
{
    let ids = hot.map_values(|v: StoredVersion| v.row_id);
    if repeats_row(rows) {
        let (i, j) = choose|i: int, j: int|
            0 <= i < j < rows.len() && (#[trigger] rows[i]).row_id == (#[trigger] rows[j]).row_id;
        let n = hot.len() as int;
        if j < n {
            assert(records_version(rows[i], hot[i]) && records_version(rows[j], hot[j]));
            assert(hot[i].row_id != hot[j].row_id);
        } else {
            assert(records_cold(rows[j], cold[j - n]));
            backup_rows_are_distinct(refs, ids, volumes, tombstones, j - n);
            assert(cold[j - n].row_id == refs[j - n].0);
            if i < n {
                assert(records_version(rows[i], hot[i]));
                assert(ids[i] == rows[i].row_id);
                assert(ids.contains(refs[j - n].0));
            } else {
                assert(records_cold(rows[i], cold[i - n]));
                assert(cold[i - n].row_id == refs[i - n].0);
            }
        }
    }
}

// ---------------------------------------------------------------------------
// The list of tables
// ---------------------------------------------------------------------------

/// A text with backslashes and double quotes escaped.
pub open spec fn json_escaped(s: Seq<char>) -> Seq<char>
    decreases s.len(),
{
    if s.len() == 0 {
        Seq::empty()
    } else {
        let before = json_escaped(s.drop_last());
        if s.last() == '\\' {
            before + seq!['\\', '\\']
        } else if s.last() == '"' {
            before + seq!['\\', '"']
        } else {
            before + seq![s.last()]
        }
    }
}

/// Names in double quotes, with commas between them.
pub open spec fn json_names(names: Seq<Seq<char>>) -> Seq<char>
    decreases names.len(),
{
    if names.len() == 0 {
        Seq::empty()
    } else {
        let before = json_names(names.drop_last());
        let name = "\""@ + json_escaped(names.last()) + "\""@;
        if names.len() == 1 {
            name
        } else {
            before + ","@ + name
        }
    }
}

/// The text that lists the tables of a set of snapshots.
pub open spec fn manifest_of(timestamp: Seq<char>, tables: Seq<Seq<char>>) -> Seq<char> {
    "{\"timestamp\":\""@ + timestamp + "\",\"tables\":["@ + json_names(tables) + "]}"@
}

fn escape_json(s: &str) -> (r: String)
    ensures
        r@ == json_escaped(s@),
{
    proof {
        reveal_strlit("\\\\");
        reveal_strlit("\\\"");
    }
    let n: usize = s.unicode_len();
    let mut out = String::new();
    let mut i: usize = 0;
    assert(s@.take(0) =~= Seq::empty());
    while i < n
        invariant
            i <= n,
            n == s@.len(),
            out@ == json_escaped(s@.take(i as int)),
            "\\\\"@ =~= seq!['\\', '\\'],
            "\\\""@ =~= seq!['\\', '"'],
        decreases n - i,
    {
        assert(s@.take(i + 1).drop_last() =~= s@.take(i as int));
        let c = s.get_char(i);
        if c == '\\' {
            out.append("\\\\");
        } else if c == '"' {
            out.append("\\\"");
        } else {
            let one = s.substring_char(i, i + 1);
            assert(one@ =~= seq![c]);
            out.append(one);
        }
        i = i + 1;
    }
    assert(s@.take(i as int) =~= s@);
    out
}

/// The text that lists the tables of a set of snapshots.
pub fn manifest_text(timestamp: &str, tables: &[String]) -> (r: String)
    ensures
        r@ == manifest_of(timestamp@, name_views(tables@)),
{
    let ghost views = name_views(tables@);
    let mut list = String::new();
    let mut i: usize = 0;
    assert(views.take(0) =~= Seq::empty());
    while i < tables.len()
        invariant
            i <= tables@.len(),
            views == name_views(tables@),
            list@ == json_names(views.take(i as int)),
        decreases tables@.len() - i,
    {
        assert(views.take(i + 1).drop_last() =~= views.take(i as int));
        let escaped = escape_json(tables[i].as_str());
        let name = join3("\"", escaped.as_str(), "\"");
        if i == 0 {
            list = name;
        } else {
            list.append(",");
            list.append(name.as_str());
        }
        i = i + 1;
    }
    assert(views.take(i as int) =~= views);
    let mut out = join3("{\"timestamp\":\"", timestamp, "\",\"tables\":[");
    out.append(list.as_str());
    out.append("]}");
    out
}

// ---------------------------------------------------------------------------
// Publishing a set of snapshots
// ---------------------------------------------------------------------------

/// The next step of publishing snapshots that were written under temporary names.
#[derive(Debug, Clone, Copy, PartialEq, Eq, Structural)]
pub enum PublishStep {
    /// Give the snapshot at this position its name.
    Rename { position: usize },
    /// Give the snapshot at this position its temporary name back.
    Undo { position: usize },
    /// Remove the temporary file at this position.
    RemoveTemporary { position: usize },
    /// Every snapshot has its name.
    Published,
    /// No snapshot has its name, and no temporary file is left to remove.
    Failed,
}

/// How far the publication of a set of snapshots is.
pub enum PublicationV {
    /// So many snapshots have their names.
    Renaming(nat),
    /// A rename failed; so many snapshots still have their names.
    Undoing(nat),
    /// No snapshot has its name; temporary files from this position on are left.
    Removing(nat),
}

/// The publication of a set of snapshots: all of them get their names, or none keeps its name.
pub struct Publication {
    total: usize,
    failed: bool,
    removing: bool,
    at: usize,
}

impl View for Publication {
    type V = PublicationV;

    closed spec fn view(&self) -> PublicationV {
        if !self.failed {
            PublicationV::Renaming(self.at as nat)
        } else if !self.removing {
            PublicationV::Undoing(self.at as nat)
        } else {
            PublicationV::Removing(self.at as nat)
        }
    }
}

/// The step that a publication of `total` snapshots takes next.
pub open spec fn publish_step(p: PublicationV, total: nat) -> PublishStep {
    match p {
        PublicationV::Renaming(n) => if n < total {
            PublishStep::Rename { position: n as usize }
        } else {
            PublishStep::Published
        },
        PublicationV::Undoing(n) => PublishStep::Undo { position: (n - 1) as usize },
        PublicationV::Removing(n) => if n < total {
            PublishStep::RemoveTemporary { position: n as usize }
        } else {
            PublishStep::Failed
        },
    }
}

/// A publication after its next step, given whether the step worked. A rename that fails is followed
/// by undoing those before it, and by the removal of every temporary file.
pub open spec fn publish_next(p: PublicationV, total: nat, worked: bool) -> PublicationV {
    match p {
        PublicationV::Renaming(n) => if n >= total {
            p
        } else if worked {
            PublicationV::Renaming(n + 1)
        } else if n == 0 {
            PublicationV::Removing(0)
        } else {
            PublicationV::Undoing(n)
        },
        PublicationV::Undoing(n) => if n <= 1 {
            PublicationV::Removing(0)
        } else {
            PublicationV::Undoing((n - 1) as nat)
        },
        PublicationV::Removing(n) => if n < total {
            PublicationV::Removing(n + 1)
        } else {
            p
        },
    }
}

impl Publication {
    /// The number of snapshots.
    pub closed spec fn size(&self) -> nat {
        self.total as nat
    }

    /// Whether the publication is at a step that it can be at.
    pub closed spec fn wf(&self) -> bool {
        &&& self.at <= self.total
        &&& self.failed && !self.removing ==> self.at > 0
        &&& self.removing ==> self.failed
    }

    /// A publication of `total` snapshots before its first step.
    pub fn new(total: usize) -> (p: Publication)
        ensures
            p.wf(),
            p.size() == total,
            p@ == PublicationV::Renaming(0),
    {
        Publication { total, failed: false, removing: false, at: 0 }
    }

    /// A publication of `total` snapshots after one could not be written: the temporary files go.
    pub fn abandoned(total: usize) -> (p: Publication)
        ensures
            p.wf(),
            p.size() == total,
            p@ == PublicationV::Removing(0),
    {
        Publication { total, failed: true, removing: true, at: 0 }
    }

    /// The next step.
    pub fn step(&self) -> (s: PublishStep)
        requires
            self.wf(),
        ensures
            s == publish_step(self@, self.size()),
    {
        if !self.failed {
            if self.at < self.total {
                PublishStep::Rename { position: self.at }
            } else {
                PublishStep::Published
            }
        } else if !self.removing {
            PublishStep::Undo { position: self.at - 1 }
        } else if self.at < self.total {
            PublishStep::RemoveTemporary { position: self.at }
        } else {
            PublishStep::Failed
        }
    }

    /// Notes whether the step that was next has worked.
    pub fn report(&mut self, worked: bool)
        requires
            old(self).wf(),
        ensures
            final(self).wf(),
            final(self).size() == old(self).size(),
            final(self)@ == publish_next(old(self)@, old(self).size(), worked),
    {
        if !self.failed {
            if self.at < self.total {
                if worked {
                    self.at = self.at + 1;
                } else {
                    self.failed = true;
                    if self.at == 0 {
                        self.removing = true;
                    }
                }
            }
        } else if !self.removing {
            if self.at <= 1 {
                self.at = 0;
                self.removing = true;
            } else {
                self.at = self.at - 1;
            }
        } else if self.at < self.total {
            self.at = self.at + 1;
        }
    }
}

/// The number of snapshots that have their names at some point of a publication, where every undoing
/// works.
pub open spec fn named_snapshots(p: PublicationV) -> nat {
    match p {
        PublicationV::Renaming(n) => n,
        PublicationV::Undoing(n) => n,
        PublicationV::Removing(n) => 0,
    }
}

/// A publication ends with all snapshots named or with none: where it says that it is published,
/// every one has its name; where it says that it has failed, none has.
pub proof fn all_snapshots_or_none(p: PublicationV, total: nat)
    ensures
        publish_step(p, total) == PublishStep::Published ==> named_snapshots(p) >= total,
        publish_step(p, total) == PublishStep::Failed ==> named_snapshots(p) == 0,
{
}

/// One step of a publication names at most one snapshot, the next one, or takes the name from the
/// last one that has it.
pub proof fn publication_goes_step_by_step(p: PublicationV, total: nat, worked: bool)
    requires
        p is Renaming && p->Renaming_0 <= total || p is Undoing && 0 < p->Undoing_0 <= total || p
            is Removing,
    ensures
        ({
            let before = named_snapshots(p);
            let after = named_snapshots(publish_next(p, total, worked));
            match publish_step(p, total) {
                PublishStep::Rename { position } => after == if worked {
                    before + 1
                } else {
                    before
                },
                PublishStep::Undo { position } => after == before - 1,
                _ => after == before,
            }
        }),
{
}

} // verus!
