//! Opening a database: where the replay of the log begins, and what each record does.

use crate::bytes::{i64_from_bits, i64_of};
use crate::engine::{EngineV, MVCCEngine, alter_replayed, stripped};
use crate::names::{name_matches, parse_volume_id, volume_in_name};
use crate::schema::SchemaV;
use crate::schema_codec::deserialize_schema;
use crate::schema_format::{
    fits16, log_schema_bytes, log_schema_round_trip, read_log_schema, storable, with_sections,
};
use crate::text::{
    lowercase, parse_u64, strip_prefix, strip_suffix, trim, trimmed, u64_in_text, unicode_lowercase,
    utf8_string,
};
use crate::view_def::{ViewDefinition, read_view, view_bytes, view_of, view_round_trip};
use vstd::prelude::*;
use vstd::string::*;
use vstd::utf8::*;

verus! {

// ---------------------------------------------------------------------------
// Where the replay begins
// ---------------------------------------------------------------------------

/// The smallest of some log positions; the largest position that there is where there are none.
pub open spec fn least(lsns: Seq<u64>) -> u64
    decreases lsns.len(),
{
    if lsns.len() == 0 {
        u64::MAX
    } else {
        let before = least(lsns.drop_last());
        if lsns.last() < before {
            lsns.last()
        } else {
            before
        }
    }
}

/// Where the replay begins after snapshots were loaded: at the smallest position that a snapshot or
/// the metadata gives; at the beginning where no snapshot could be loaded.
pub open spec fn snapshot_replay_lsn(metadata_lsn: u64, header_lsns: Seq<u64>) -> u64 {
    if header_lsns.len() == 0 {
        0
    } else if metadata_lsn == 0 {
        least(header_lsns)
    } else if metadata_lsn < least(header_lsns) {
        metadata_lsn
    } else {
        least(header_lsns)
    }
}

fn least_of(lsns: &[u64]) -> (r: u64)
    ensures
        r == least(lsns@),
{
    let mut r: u64 = u64::MAX;
    let mut i: usize = 0;
    assert(lsns@.take(0) =~= Seq::empty());
    while i < lsns.len()
        invariant
            i <= lsns@.len(),
            r == least(lsns@.take(i as int)),
        decreases lsns@.len() - i,
    {
        assert(lsns@.take(i + 1).drop_last() =~= lsns@.take(i as int));
        if lsns[i] < r {
            r = lsns[i];
        }
        i = i + 1;
    }
    assert(lsns@.take(i as int) =~= lsns@);
    r
}

/// Where the replay begins after snapshots with the given positions were loaded.
pub fn replay_from_snapshots(metadata_lsn: u64, header_lsns: &[u64]) -> (lsn: u64)
    ensures
        lsn == snapshot_replay_lsn(metadata_lsn, header_lsns@),
{
    if header_lsns.len() == 0 {
        return 0;
    }
    let least: u64 = least_of(header_lsns);
    if metadata_lsn == 0 {
        least
    } else if metadata_lsn < least {
        metadata_lsn
    } else {
        least
    }
}

/// The replay after snapshots begins no later than any of them: no record that a table still needs
/// is skipped.
pub proof fn no_snapshot_is_overtaken(metadata_lsn: u64, header_lsns: Seq<u64>, i: int)
    requires
        0 <= i < header_lsns.len(),
    ensures
        snapshot_replay_lsn(metadata_lsn, header_lsns) <= header_lsns[i],
        metadata_lsn > 0 ==> snapshot_replay_lsn(metadata_lsn, header_lsns) <= metadata_lsn,
{
    lemma_least(header_lsns, i);
}

proof fn lemma_least(lsns: Seq<u64>, i: int)
    requires
        0 <= i < lsns.len(),
    ensures
        least(lsns) <= lsns[i],
    decreases lsns.len(),
{
    if i < lsns.len() - 1 {
        lemma_least(lsns.drop_last(), i);
    }
}

/// The positions that are not 0.
pub open spec fn set_lsns(lsns: Seq<u64>) -> Seq<u64>
    decreases lsns.len(),
{
    if lsns.len() == 0 {
        Seq::empty()
    } else if lsns.last() > 0 {
        set_lsns(lsns.drop_last()).push(lsns.last())
    } else {
        set_lsns(lsns.drop_last())
    }
}

/// Where the replay begins after manifests were loaded: at the smallest checkpoint that one of them
/// has, at the beginning where none has one. None where there is no table directory at all.
pub open spec fn manifest_replay_lsn(has_table_dirs: bool, checkpoint_lsns: Seq<u64>) -> Option<
    u64,
> {
    if !has_table_dirs {
        None
    } else if least(set_lsns(checkpoint_lsns)) == u64::MAX {
        Some(0)
    } else {
        Some(least(set_lsns(checkpoint_lsns)))
    }
}

/// Where the replay begins after the manifests with the given checkpoints were loaded.
pub fn replay_from_manifests(has_table_dirs: bool, checkpoint_lsns: &[u64]) -> (r: Option<u64>)
    ensures
        r == manifest_replay_lsn(has_table_dirs, checkpoint_lsns@),
{
    if !has_table_dirs {
        return None;
    }
    let mut least: u64 = u64::MAX;
    let mut i: usize = 0;
    assert(checkpoint_lsns@.take(0) =~= Seq::empty());
    while i < checkpoint_lsns.len()
        invariant
            i <= checkpoint_lsns@.len(),
            least == self::least(set_lsns(checkpoint_lsns@.take(i as int))),
        decreases checkpoint_lsns@.len() - i,
    {
        proof {
            let longer = checkpoint_lsns@.take(i + 1);
            assert(longer.drop_last() =~= checkpoint_lsns@.take(i as int));
            let s = set_lsns(longer.drop_last());
            assert(s.push(longer.last()).drop_last() =~= s);
        }
        if checkpoint_lsns[i] > 0 && checkpoint_lsns[i] < least {
            least = checkpoint_lsns[i];
        }
        i = i + 1;
    }
    assert(checkpoint_lsns@.take(i as int) =~= checkpoint_lsns@);
    if least == u64::MAX {
        Some(0)
    } else {
        Some(least)
    }
}

/// How a database is recovered.
#[derive(Debug, Clone, Copy, PartialEq, Eq, Structural)]
pub enum RecoveryMode {
    /// From volumes, with the log from a position on.
    Volumes { lsn: u64 },
    /// From snapshots, and the log from the position that they give.
    Snapshots,
    /// From the log alone.
    Log,
}

/// How a database is recovered: volumes come before snapshots.
pub fn recovery_mode(volume_lsn: Option<u64>, has_snapshot_dirs: bool) -> (mode: RecoveryMode)
    ensures
        mode == match volume_lsn {
            Some(lsn) => RecoveryMode::Volumes { lsn },
            None => if has_snapshot_dirs {
                RecoveryMode::Snapshots
            } else {
                RecoveryMode::Log
            },
        },
{
    match volume_lsn {
        Some(lsn) => RecoveryMode::Volumes { lsn },
        None => if has_snapshot_dirs {
            RecoveryMode::Snapshots
        } else {
            RecoveryMode::Log
        },
    }
}

/// The size of a snapshot file from which it is loaded as a volume.
pub const LARGE_SNAPSHOT_BYTES: u64 = 16_777_216;

/// Whether a snapshot is loaded as a volume: a volume file stands beside it, or it is large.
pub fn loads_as_volume(has_volume_file: bool, file_size: u64) -> (r: bool)
    ensures
        r == (has_volume_file || file_size > LARGE_SNAPSHOT_BYTES),
{
    has_volume_file || file_size > LARGE_SNAPSHOT_BYTES
}

/// What happens to a volume file when the database opens.
#[derive(Debug, Clone, Copy, PartialEq, Eq, Structural)]
pub enum VolumeFate {
    /// It belongs to no volume of the manifest, and goes.
    Remove,
    /// It stays, and is not loaded: it is loaded already, or nothing says what it is.
    Keep,
    /// It is loaded.
    Load { id: u64 },
}

/// What happens to the volume file `name`, given whether its table has a manifest, whether its
/// volume is loaded and whether the manifest has it.
pub open spec fn volume_fate(
    name: Seq<char>,
    has_manifest: bool,
    loaded: bool,
    in_manifest: bool,
) -> VolumeFate {
    if !has_manifest {
        VolumeFate::Keep
    } else {
        match volume_in_name(name) {
            None => VolumeFate::Remove,
            Some(id) => if id == 0 {
                VolumeFate::Remove
            } else if loaded {
                VolumeFate::Keep
            } else if in_manifest {
                VolumeFate::Load { id }
            } else {
                VolumeFate::Remove
            },
        }
    }
}

/// What happens to the volume file `name`. Without a manifest every file stays: it may be the only
/// copy of its rows.
pub fn fate_at_startup(name: &str, has_manifest: bool, loaded: bool, in_manifest: bool) -> (fate:
    VolumeFate)
    ensures
        fate == volume_fate(name@, has_manifest, loaded, in_manifest),
{
    if !has_manifest {
        return VolumeFate::Keep;
    }
    match parse_volume_id(name) {
        None => VolumeFate::Remove,
        Some(id) => if id == 0 {
            VolumeFate::Remove
        } else if loaded {
            VolumeFate::Keep
        } else if in_manifest {
            VolumeFate::Load { id }
        } else {
            VolumeFate::Remove
        },
    }
}

/// What happens to the volume file `name` of a table that was loaded from a snapshot: it is loaded
/// where the manifest has it, and stays in any case.
pub fn fate_beside_snapshot(name: &str, loaded: bool, in_manifest: bool) -> (fate: VolumeFate)
    ensures
        fate == match volume_in_name(name@) {
            Some(id) => if id > 0 && !loaded && in_manifest {
                VolumeFate::Load { id }
            } else {
                VolumeFate::Keep
            },
            None => VolumeFate::Keep,
        },
{
    match parse_volume_id(name) {
        Some(id) => if id > 0 && !loaded && in_manifest {
            VolumeFate::Load { id }
        } else {
            VolumeFate::Keep
        },
        None => VolumeFate::Keep,
    }
}

/// A volume file is removed only where there is a manifest and the manifest does not have it, or its
/// name is that of no volume.
pub proof fn only_orphans_are_removed(
    name: Seq<char>,
    has_manifest: bool,
    loaded: bool,
    in_manifest: bool,
)
    requires
        volume_fate(name, has_manifest, loaded, in_manifest) == VolumeFate::Remove,
    ensures
        has_manifest,
        volume_in_name(name) matches Some(id) ==> id == 0 || !loaded && !in_manifest,
{
}

/// The identity of the volume that a snapshot's volume file was copied to, from the text of the
/// marker file.
pub fn promoted_volume_id(text: &str) -> (r: Option<u64>)
    ensures
        r == u64_in_text(trimmed(text@), 10),
{
    parse_u64(trim(text), 10)
}

/// Whether a name in the snapshot directory shows that the snapshots are a backup that a user made.
pub open spec fn marks_backup(name: Seq<char>) -> bool {
    name_matches(name, "ddl-"@, ".bin"@) || name == "ddl.bin"@
}

/// Whether the snapshots are a backup that a user made, which is kept.
pub fn is_user_backup(names: &[String]) -> (r: bool)
    ensures
        r == exists|i: int| 0 <= i < names@.len() && marks_backup((#[trigger] names@[i])@),
{
    let plain = "ddl.bin".to_owned();
    let mut i: usize = 0;
    while i < names.len()
        invariant
            i <= names@.len(),
            plain@ == "ddl.bin"@,
            forall|k: int| 0 <= k < i ==> !marks_backup((#[trigger] names@[k])@),
        decreases names@.len() - i,
    {
        let name = names[i].as_str();
        let marked: bool = (strip_prefix(name, "ddl-").is_some() && strip_suffix(
            name,
            ".bin",
        ).is_some()) || names[i] == plain;
        if marked {
            assert(marks_backup(names@[i as int]@));
            return true;
        }
        i = i + 1;
    }
    false
}

/// The largest row of volumes, or 0 where it is not above it.
pub open spec fn largest_row(volumes: Seq<Seq<i64>>) -> i64
    decreases volumes.len(),
{
    if volumes.len() == 0 {
        0
    } else {
        largest_in(volumes.last(), largest_row(volumes.drop_last()))
    }
}

/// The largest of some rows and `floor`.
pub open spec fn largest_in(ids: Seq<i64>, floor: i64) -> i64
    decreases ids.len(),
{
    if ids.len() == 0 {
        floor
    } else {
        let before = largest_in(ids.drop_last(), floor);
        if ids.last() > before {
            ids.last()
        } else {
            before
        }
    }
}

/// The largest of some rows and `floor`.
pub fn largest_of(ids: &[i64], floor: i64) -> (r: i64)
    ensures
        r == largest_in(ids@, floor),
        r >= floor,
        forall|i: int| 0 <= i < ids@.len() ==> #[trigger] ids@[i] <= r,
        r == floor || ids@.contains(r),
{
    let mut r: i64 = floor;
    let mut i: usize = 0;
    assert(ids@.take(0) =~= Seq::empty());
    while i < ids.len()
        invariant
            i <= ids@.len(),
            r == largest_in(ids@.take(i as int), floor),
            r >= floor,
            forall|k: int| 0 <= k < i ==> #[trigger] ids@[k] <= r,
            r == floor || ids@.contains(r),
        decreases ids@.len() - i,
    {
        assert(ids@.take(i + 1).drop_last() =~= ids@.take(i as int));
        if ids[i] > r {
            r = ids[i];
            assert(ids@.contains(r));
        }
        i = i + 1;
    }
    assert(ids@.take(i as int) =~= ids@);
    r
}

/// The value that a table's row counter is set to after its volumes were loaded; none where no row
/// is above 0.
pub fn auto_increment_from_volumes(volumes: &[&[i64]]) -> (r: Option<i64>)
    ensures
        ({
            let largest = largest_row(volumes@.map_values(|v: &[i64]| v@));
            r == if largest > 0 {
                Some(largest)
            } else {
                None
            }
        }),
{
    let ghost views = volumes@.map_values(|v: &[i64]| v@);
    let mut largest: i64 = 0;
    let mut i: usize = 0;
    assert(views.take(0) =~= Seq::empty());
    while i < volumes.len()
        invariant
            i <= volumes@.len(),
            views == volumes@.map_values(|v: &[i64]| v@),
            largest == largest_row(views.take(i as int)),
        decreases volumes@.len() - i,
    {
        assert(views.take(i + 1).drop_last() =~= views.take(i as int));
        assert(views.take(i + 1).last() == volumes@[i as int]@);
        largest = largest_of(volumes[i], largest);
        i = i + 1;
    }
    assert(views.take(i as int) =~= views);
    if largest > 0 {
        Some(largest)
    } else {
        None
    }
}

// ---------------------------------------------------------------------------
// What a record does
// ---------------------------------------------------------------------------

/// What a record of the log is about.
#[derive(Debug, Clone, Copy, PartialEq, Eq, Structural)]
pub enum WalOperation {
    CreateTable,
    DropTable,
    CreateIndex,
    DropIndex,
    Insert,
    Update,
    Delete,
    Commit,
    Rollback,
    AlterTable,
    CreateView,
    DropView,
    TruncateTable,
}

/// A record of the log.
#[derive(Debug)]
pub struct WalEntry {
    pub lsn: u64,
    pub txn_id: i64,
    pub table_name: String,
    pub row_id: i64,
    pub operation: WalOperation,
    pub data: Vec<u8>,
}

/// What is left to do for a record once the catalog has taken it in.
#[derive(Debug)]
pub enum WalAction {
    /// Nothing.
    Nothing,
    /// A table was created or replaced: it begins without rows.
    OpenTable { table: String },
    /// A table was dropped: its rows and volumes go.
    CloseTable { table: String },
    /// An index is created from the record's data; one without an identity takes `identity`.
    CreateIndex { table: String, identity: u64 },
    /// An index is dropped.
    DropIndex { table: String, index: String },
    /// The record's row version is applied.
    ApplyRow { table: String },
    /// A row is deleted: in memory, where the table is known, and by a tombstone, where a volume
    /// has it.
    DeleteRow { table: String, in_memory: bool, tombstone: bool },
    /// A transaction was committed at `sequence`.
    RecoverCommit { sequence: i64 },
    /// Every row of a table goes: in memory, where the table is known, and in volumes.
    Truncate { table: String, in_memory: bool },
}

/// What is left to do for a record, with its texts as sequences.
pub enum ActionV {
    Nothing,
    OpenTable { table: Seq<char> },
    CloseTable { table: Seq<char> },
    CreateIndex { table: Seq<char>, identity: u64 },
    DropIndex { table: Seq<char>, index: Seq<char> },
    ApplyRow { table: Seq<char> },
    DeleteRow { table: Seq<char>, in_memory: bool, tombstone: bool },
    RecoverCommit { sequence: i64 },
    Truncate { table: Seq<char>, in_memory: bool },
}

impl View for WalAction {
    type V = ActionV;

    open spec fn view(&self) -> ActionV {
        match *self {
            WalAction::Nothing => ActionV::Nothing,
            WalAction::OpenTable { table } => ActionV::OpenTable { table: table@ },
            WalAction::CloseTable { table } => ActionV::CloseTable { table: table@ },
            WalAction::CreateIndex { table, identity } => ActionV::CreateIndex {
                table: table@,
                identity,
            },
            WalAction::DropIndex { table, index } => ActionV::DropIndex {
                table: table@,
                index: index@,
            },
            WalAction::ApplyRow { table } => ActionV::ApplyRow { table: table@ },
            WalAction::DeleteRow { table, in_memory, tombstone } => ActionV::DeleteRow {
                table: table@,
                in_memory,
                tombstone,
            },
            WalAction::RecoverCommit { sequence } => ActionV::RecoverCommit { sequence },
            WalAction::Truncate { table, in_memory } => ActionV::Truncate {
                table: table@,
                in_memory,
            },
        }
    }
}

/// Whether the rows of a table can be reached: the engine is open and has the table under its name in
/// lower case.
pub open spec fn table_is_known(e: EngineV, key: Seq<char>) -> bool {
    e.open && e.tables.contains_key(key)
}

/// Whether a replayed row version is applied: no volume has the row, or a record has superseded the
/// volume's copy, or the record is an update.
pub open spec fn row_is_applied(op: WalOperation, in_volume: bool, tombstoned: bool) -> bool {
    !in_volume || tombstoned || op == WalOperation::Update
}

/// The catalog after a record.
pub open spec fn catalog_after(e: EngineV, w: WalEntry, now: int) -> EngineV {
    let key = unicode_lowercase(w.table_name@);
    match w.operation {
        WalOperation::CreateTable => match read_log_schema(w.data@, now) {
            Ok(s) => EngineV { tables: e.tables.insert(s.table_name_lower, s), ..e },
            Err(_) => e,
        },
        WalOperation::DropTable => EngineV { tables: stripped(e.tables.remove(key), key), ..e },
        WalOperation::AlterTable => match alter_replayed(e, w.data@) {
            Ok(after) => after,
            Err(_) => e,
        },
        WalOperation::CreateView => match read_view(w.data@) {
            Ok(v) => EngineV { views: e.views.insert(v.name, v), ..e },
            Err(_) => e,
        },
        WalOperation::DropView => if valid_utf8(w.data@) {
            EngineV { views: e.views.remove(unicode_lowercase(decode_utf8(w.data@))), ..e }
        } else {
            e
        },
        _ => e,
    }
}

/// What is left to do for a record, given whether a volume has its row and whether the row has a
/// tombstone.
pub open spec fn action_for(
    e: EngineV,
    w: WalEntry,
    in_volume: bool,
    tombstoned: bool,
    now: int,
) -> ActionV {
    let key = unicode_lowercase(w.table_name@);
    match w.operation {
        WalOperation::CreateTable => match read_log_schema(w.data@, now) {
            Ok(s) => ActionV::OpenTable { table: s.table_name_lower },
            Err(_) => ActionV::Nothing,
        },
        WalOperation::DropTable => ActionV::CloseTable { table: key },
        WalOperation::CreateIndex => if table_is_known(e, key) {
            ActionV::CreateIndex { table: key, identity: w.lsn }
        } else {
            ActionV::Nothing
        },
        WalOperation::DropIndex => if valid_utf8(w.data@) && table_is_known(e, key) {
            ActionV::DropIndex { table: key, index: decode_utf8(w.data@) }
        } else {
            ActionV::Nothing
        },
        WalOperation::Insert | WalOperation::Update => if row_is_applied(
            w.operation,
            in_volume,
            tombstoned,
        ) && table_is_known(e, key) {
            ActionV::ApplyRow { table: key }
        } else {
            ActionV::Nothing
        },
        WalOperation::Delete => ActionV::DeleteRow {
            table: key,
            in_memory: table_is_known(e, key),
            tombstone: in_volume,
        },
        WalOperation::Commit => ActionV::RecoverCommit { sequence: i64_of(w.lsn as nat) as i64 },
        WalOperation::TruncateTable => ActionV::Truncate {
            table: key,
            in_memory: table_is_known(e, key),
        },
        _ => ActionV::Nothing,
    }
}

impl MVCCEngine {
    fn knows_table(&self, key: &str) -> (r: bool)
        requires
            self.wf(),
        ensures
            r == table_is_known(self@, key@),
    {
        self.is_open() && self.has_table(key)
    }

    /// Takes a record into the catalog, and gives what is left to do for it. `in_volume` says whether
    /// a volume has the record's row, and `tombstoned` whether the row has a tombstone.
    pub fn apply_wal_entry(
        &mut self,
        entry: &WalEntry,
        in_volume: bool,
        tombstoned: bool,
        now: i64,
    ) -> (action: WalAction)
        requires
            old(self).wf(),
        ensures
            final(self).wf(),
            final(self)@ == catalog_after(old(self)@, *entry, now as int),
            action@ == action_for(old(self)@, *entry, in_volume, tombstoned, now as int),
    {
        let table = lowercase(entry.table_name.as_str());
        match entry.operation {
            WalOperation::CreateTable => {
                match deserialize_schema(entry.data.as_slice(), now) {
                    Ok(schema) => {
                        let name = schema.table_name_lower.as_str().to_owned();
                        self.restore_table(schema);
                        WalAction::OpenTable { table: name }
                    },
                    Err(_) => WalAction::Nothing,
                }
            },
            WalOperation::DropTable => {
                self.forget_table(entry.table_name.as_str());
                WalAction::CloseTable { table }
            },
            WalOperation::CreateIndex => if self.knows_table(table.as_str()) {
                WalAction::CreateIndex { table, identity: entry.lsn }
            } else {
                WalAction::Nothing
            },
            WalOperation::DropIndex => match utf8_string(entry.data.as_slice()) {
                Some(index) => if self.knows_table(table.as_str()) {
                    WalAction::DropIndex { table, index }
                } else {
                    WalAction::Nothing
                },
                None => WalAction::Nothing,
            },
            WalOperation::Insert => if (!in_volume || tombstoned) && self.knows_table(
                table.as_str(),
            ) {
                WalAction::ApplyRow { table }
            } else {
                WalAction::Nothing
            },
            WalOperation::Update => if self.knows_table(table.as_str()) {
                WalAction::ApplyRow { table }
            } else {
                WalAction::Nothing
            },
            WalOperation::Delete => {
                let in_memory: bool = self.knows_table(table.as_str());
                WalAction::DeleteRow { table, in_memory, tombstone: in_volume }
            },
            WalOperation::Commit => WalAction::RecoverCommit { sequence: i64_from_bits(entry.lsn) },
            WalOperation::Rollback => WalAction::Nothing,
            WalOperation::AlterTable => {
                match self.replay_alter_table(entry.data.as_slice()) {
                    Ok(_) => {},
                    Err(_) => {},
                }
                WalAction::Nothing
            },
            WalOperation::CreateView => {
                match ViewDefinition::deserialize(entry.data.as_slice()) {
                    Ok(view) => {
                        self.restore_view(view);
                    },
                    Err(_) => {},
                }
                WalAction::Nothing
            },
            WalOperation::DropView => {
                match utf8_string(entry.data.as_slice()) {
                    Some(name) => {
                        self.forget_view(name.as_str());
                    },
                    None => {},
                }
                WalAction::Nothing
            },
            WalOperation::TruncateTable => {
                let in_memory: bool = self.knows_table(table.as_str());
                WalAction::Truncate { table, in_memory }
            },
        }
    }
}

/// The record of a view makes the view again, whatever the catalog is.
pub proof fn recorded_view_is_replayed(e: EngineV, w: WalEntry, name: Seq<char>, query: Seq<char>, now: int)
    requires
        w.operation == WalOperation::CreateView,
        fits16(name),
        encode_utf8(query).len() < 0x1_0000_0000,
        w.data@ == view_bytes(view_of(name, query)),
    ensures
        catalog_after(e, w, now).views == e.views.insert(
            unicode_lowercase(name),
            view_of(name, query),
        ),
{
    view_round_trip(name, query, Seq::empty());
    assert(w.data@ + Seq::<u8>::empty() =~= w.data@);
}

/// The record of a table makes the table again, but for its times, whatever the catalog is.
pub proof fn recorded_table_is_replayed(e: EngineV, w: WalEntry, s: SchemaV, now: int)
    requires
        w.operation == WalOperation::CreateTable,
        storable(s),
        w.data@ == log_schema_bytes(s, 3),
    ensures
        catalog_after(e, w, now).tables == e.tables.insert(
            s.table_name_lower,
            SchemaV { created_at: now, updated_at: now, ..s },
        ),
{
    log_schema_round_trip(s, 3, now);
    assert(with_sections(s, 3) == s);
}

/// A sealed row is not applied a second time: the record of an insert of a row that a volume has is
/// passed over, unless an earlier record has superseded the volume's copy.
pub proof fn sealed_insert_is_passed_over(e: EngineV, w: WalEntry, now: int)
    requires
        w.operation == WalOperation::Insert,
    ensures
        action_for(e, w, true, false, now) == ActionV::Nothing,
        table_is_known(e, unicode_lowercase(w.table_name@)) ==> action_for(e, w, true, true, now) == (
        ActionV::ApplyRow { table: unicode_lowercase(w.table_name@) }),
{
}

} // verus!
