//! What is there again after a database was opened.

use crate::alter_table::{AlterV, alter_bytes, alter_round_trip, storable_change};
use crate::catalog_laws::{differs_by_drop, dropped_table_leaves_the_rest};
use crate::engine::{EngineV, alter_applied, table_dropped};
use crate::names::{name_matches, volume_in_name};
use crate::recovery::{
    ActionV, VolumeFate, WalEntry, WalOperation, action_for, catalog_after, largest_in, largest_row,
    least, manifest_replay_lsn, marks_backup, set_lsns, snapshot_replay_lsn, volume_fate,
};
use crate::schema::SchemaV;
use crate::schema_format::{
    fits16, log_schema_bytes, log_schema_round_trip, storable, with_sections,
};
use crate::text::{lemma_utf8_round_trip, unicode_lowercase};
use crate::view_def::{view_bytes, view_of, view_round_trip};
use vstd::prelude::*;
use vstd::utf8::*;

verus! {

/// A change to a table that is recorded in the log is there again after the record was replayed: the
/// catalog is the one that the change itself made. A change that the catalog refuses changes nothing.
pub proof fn recorded_change_survives(e: EngineV, w: WalEntry, a: AlterV, now: int)
    requires
        w.operation == WalOperation::AlterTable,
        storable_change(a),
        w.data@ == alter_bytes(a),
    ensures
        alter_applied(e, a) matches Ok(after) ==> catalog_after(e, w, now) == after,
        alter_applied(e, a) is Err ==> catalog_after(e, w, now) == e,
        alter_applied(e, a) matches Ok(after) ==> forall|k: Seq<char>|
            after.tables.contains_key(k) ==> #[trigger] catalog_after(e, w, now).tables[k].columns
                == after.tables[k].columns,
{
    alter_round_trip(a);
}

/// A table that is recorded in the log is there again after the record was replayed, under its name
/// in lower case and with all of its columns, foreign keys and its clustering key; every other table
/// and every view is as it was.
pub proof fn recorded_table_survives(e: EngineV, w: WalEntry, s: SchemaV, now: int)
    requires
        w.operation == WalOperation::CreateTable,
        storable(s),
        w.data@ == log_schema_bytes(s, 3),
    ensures
        ({
            let after = catalog_after(e, w, now);
            let key = s.table_name_lower;
            &&& after.tables.contains_key(key)
            &&& after.tables[key].table_name == s.table_name
            &&& after.tables[key].table_name_lower == s.table_name_lower
            &&& after.tables[key].columns == s.columns
            &&& after.tables[key].foreign_keys == s.foreign_keys
            &&& after.tables[key].cluster_key == s.cluster_key
            &&& after.tables[key].created_at == now
            &&& after.tables[key].updated_at == now
            &&& forall|k: Seq<char>|
                k != key ==> (#[trigger] after.tables.contains_key(k) <==> e.tables.contains_key(k))
                    && after.tables[k] == e.tables[k]
            &&& after == (EngineV { tables: after.tables, ..e })
        }),
{
    log_schema_round_trip(s, 3, now);
    assert(with_sections(s, 3) == s);
}

/// The record of a dropped table takes away what the drop itself took away: the table, and the
/// foreign keys of other tables to it; whether the table is there or not.
pub proof fn recorded_drop_survives(e: EngineV, w: WalEntry, now: int)
    requires
        w.operation == WalOperation::DropTable,
    ensures
        ({
            let after = catalog_after(e, w, now);
            let key = unicode_lowercase(w.table_name@);
            &&& differs_by_drop(e, after, key)
            &&& after.epoch == e.epoch
            &&& table_dropped(e, w.table_name@) matches Ok(dropped) ==> after.tables
                == dropped.tables
        }),
{
    let key = unicode_lowercase(w.table_name@);
    let open = EngineV { open: true, tables: e.tables.insert(key, arbitrary()), ..e };
    dropped_table_leaves_the_rest(open, w.table_name@);
    assert(open.tables.remove(key) =~= e.tables.remove(key));
    let after = catalog_after(e, w, now);
    let dropped = table_dropped(open, w.table_name@)->Ok_0;
    assert(after.tables == dropped.tables);
    assert(differs_by_drop(open, dropped, key));
    assert forall|k: Seq<char>| #[trigger] after.tables.contains_key(k) implies open.tables[k]
        == e.tables[k] by {}
}

/// A view that is recorded in the log is there again after the record was replayed, with its name and
/// its query; nothing else has changed. A view whose drop is recorded is not there.
pub proof fn recorded_views_survive(
    e: EngineV,
    w: WalEntry,
    name: Seq<char>,
    query: Seq<char>,
    now: int,
)
    requires
        fits16(name),
        encode_utf8(query).len() < 0x1_0000_0000,
    ensures
        ({
            let after = catalog_after(e, w, now);
            let key = unicode_lowercase(name);
            &&& w.operation == WalOperation::CreateView && w.data@ == view_bytes(
                view_of(name, query),
            ) ==> {
                &&& after.views.contains_key(key)
                &&& after.views[key].name == key
                &&& after.views[key].original_name == name
                &&& after.views[key].query == query
            }
            &&& w.operation == WalOperation::DropView && w.data@ == encode_utf8(name)
                ==> !after.views.contains_key(key)
            &&& (w.operation == WalOperation::CreateView && w.data@ == view_bytes(
                view_of(name, query),
            )) || (w.operation == WalOperation::DropView && w.data@ == encode_utf8(name)) ==> {
                &&& after == (EngineV { views: after.views, ..e })
                &&& forall|k: Seq<char>|
                    k != key ==> (#[trigger] after.views.contains_key(k)
                        <==> e.views.contains_key(k)) && after.views[k] == e.views[k]
            }
        }),
{
    view_round_trip(name, query, Seq::empty());
    lemma_utf8_round_trip(name);
    let b = view_bytes(view_of(name, query));
    assert(b + Seq::<u8>::empty() =~= b);
}

/// Records of rows, of indexes, of a truncation and of the end of a transaction leave the catalog as
/// it was.
pub proof fn other_records_leave_the_catalog(e: EngineV, w: WalEntry, now: int)
    requires
        match w.operation {
            WalOperation::CreateTable | WalOperation::DropTable | WalOperation::AlterTable
            | WalOperation::CreateView | WalOperation::DropView => false,
            _ => true,
        },
    ensures
        catalog_after(e, w, now) == e,
{
}

/// The row of a replayed insert is applied where no volume has it, and where a volume has it but a
/// tombstone says that the volume's copy is old; that of a replayed update is always applied. A table
/// that is not there gets no row.
pub proof fn replayed_rows_are_applied(
    e: EngineV,
    w: WalEntry,
    in_volume: bool,
    tombstoned: bool,
    now: int,
)
    ensures
        ({
            let key = unicode_lowercase(w.table_name@);
            let known = e.open && e.tables.contains_key(key);
            let a = action_for(e, w, in_volume, tombstoned, now);
            let apply = ActionV::ApplyRow { table: key };
            &&& w.operation == WalOperation::Update && known ==> a == apply
            &&& w.operation == WalOperation::Insert && known && (!in_volume || tombstoned) ==> a
                == apply
            &&& w.operation == WalOperation::Insert && in_volume && !tombstoned ==> a
                == ActionV::Nothing
            &&& (w.operation == WalOperation::Insert || w.operation == WalOperation::Update)
                && !known ==> a == ActionV::Nothing
            &&& w.operation == WalOperation::Delete ==> a == (ActionV::DeleteRow {
                table: key,
                in_memory: known,
                tombstone: in_volume,
            })
            &&& w.operation == WalOperation::TruncateTable ==> a == (ActionV::Truncate {
                table: key,
                in_memory: known,
            })
            &&& w.operation == WalOperation::DropTable ==> a == (ActionV::CloseTable { table: key })
            &&& w.operation == WalOperation::CreateIndex && known ==> a == (ActionV::CreateIndex {
                table: key,
                identity: w.lsn,
            })
            &&& w.operation == WalOperation::Commit && w.lsn <= i64::MAX ==> a == (
            ActionV::RecoverCommit { sequence: w.lsn as i64 })
            &&& w.operation == WalOperation::Rollback ==> a == ActionV::Nothing
        }),
{
}

/// A dropped index is dropped again under the name that the record has.
pub proof fn recorded_index_drop_survives(
    e: EngineV,
    w: WalEntry,
    index: Seq<char>,
    in_volume: bool,
    tombstoned: bool,
    now: int,
)
    requires
        w.operation == WalOperation::DropIndex,
        w.data@ == encode_utf8(index),
        e.open,
        e.tables.contains_key(unicode_lowercase(w.table_name@)),
    ensures
        action_for(e, w, in_volume, tombstoned, now) == (ActionV::DropIndex {
            table: unicode_lowercase(w.table_name@),
            index,
        }),
{
    lemma_utf8_round_trip(index);
}

/// A recorded table begins without rows after its record was replayed, under its name in lower case.
pub proof fn recorded_table_is_opened(
    e: EngineV,
    w: WalEntry,
    s: SchemaV,
    in_volume: bool,
    tombstoned: bool,
    now: int,
)
    requires
        w.operation == WalOperation::CreateTable,
        storable(s),
        w.data@ == log_schema_bytes(s, 3),
    ensures
        action_for(e, w, in_volume, tombstoned, now) == (ActionV::OpenTable {
            table: s.table_name_lower,
        }),
{
    log_schema_round_trip(s, 3, now);
    assert(with_sections(s, 3) == s);
}

proof fn lemma_least_is_there(lsns: Seq<u64>)
    ensures
        lsns.len() > 0 ==> lsns.contains(least(lsns)) || least(lsns) == u64::MAX,
        lsns.len() == 0 ==> least(lsns) == u64::MAX,
        forall|i: int| 0 <= i < lsns.len() ==> least(lsns) <= #[trigger] lsns[i],
    decreases lsns.len(),
{
    if lsns.len() > 0 {
        let before = lsns.drop_last();
        let n = lsns.len() - 1;
        lemma_least_is_there(before);
        assert forall|i: int| 0 <= i < lsns.len() implies least(lsns) <= #[trigger] lsns[i] by {
            if i < n {
                assert(before[i] == lsns[i]);
            }
        }
        if least(lsns) == lsns[n] {
            assert(lsns.contains(lsns[n]));
        } else if before.contains(least(before)) {
            let i = choose|i: int| 0 <= i < before.len() && before[i] == least(before);
            assert(lsns[i] == least(before));
        }
    }
}

/// After snapshots, the replay begins at the smallest position that one of them gives, or at that of
/// the metadata where that is smaller and not 0; where no snapshot was loaded, it begins with the
/// first record.
pub proof fn replay_begins_at_the_oldest_snapshot(metadata_lsn: u64, lsns: Seq<u64>)
    ensures
        ({
            let r = snapshot_replay_lsn(metadata_lsn, lsns);
            &&& lsns.len() == 0 ==> r == 0
            &&& forall|i: int| 0 <= i < lsns.len() ==> r <= #[trigger] lsns[i]
            &&& lsns.len() > 0 && metadata_lsn > 0 ==> r <= metadata_lsn
            &&& lsns.len() > 0 ==> lsns.contains(r) || r == metadata_lsn && metadata_lsn > 0
                || r == u64::MAX
        }),
{
    lemma_least_is_there(lsns);
}

proof fn lemma_set_lsns(lsns: Seq<u64>)
    ensures
        forall|i: int|
            0 <= i < lsns.len() && #[trigger] lsns[i] > 0 ==> set_lsns(lsns).contains(lsns[i]),
        forall|k: int|
            0 <= k < set_lsns(lsns).len() ==> #[trigger] set_lsns(lsns)[k] > 0 && lsns.contains(
                set_lsns(lsns)[k],
            ),
    decreases lsns.len(),
{
    if lsns.len() > 0 {
        let before = lsns.drop_last();
        let n = lsns.len() - 1;
        let s0 = set_lsns(before);
        let s = set_lsns(lsns);
        lemma_set_lsns(before);
        assert forall|i: int| 0 <= i < lsns.len() && #[trigger] lsns[i] > 0 implies s.contains(
            lsns[i],
        ) by {
            if i < n {
                assert(before[i] == lsns[i]);
                assert(s0.contains(lsns[i]));
                let k = choose|k: int| 0 <= k < s0.len() && s0[k] == lsns[i];
                assert(s[k] == lsns[i]);
            } else {
                assert(s[s0.len() as int] == lsns[n]);
            }
        }
        assert forall|k: int| 0 <= k < s.len() implies #[trigger] s[k] > 0 && lsns.contains(
            s[k],
        ) by {
            if k < s0.len() {
                assert(s[k] == s0[k]);
                let i = choose|i: int| 0 <= i < before.len() && before[i] == s0[k];
                assert(lsns[i] == s[k]);
            } else {
                assert(lsns[n] == s[k]);
            }
        }
    }
}

/// After manifests, the replay begins no later than the checkpoint of any of them, and at one of
/// those checkpoints; where none has a checkpoint, it begins with the first record.
pub proof fn replay_begins_at_the_oldest_checkpoint(has_table_dirs: bool, lsns: Seq<u64>)
    ensures
        ({
            let r = manifest_replay_lsn(has_table_dirs, lsns);
            &&& r is Some <==> has_table_dirs
            &&& r matches Some(lsn) ==> {
                &&& forall|i: int|
                    0 <= i < lsns.len() && #[trigger] lsns[i] > 0 ==> lsn <= lsns[i]
                &&& lsn > 0 ==> lsns.contains(lsn)
                &&& (exists|i: int|
                    0 <= i < lsns.len() && 0 < #[trigger] lsns[i] && lsns[i] < u64::MAX) ==> lsn > 0
            }
        }),
{
    let set = set_lsns(lsns);
    lemma_set_lsns(lsns);
    lemma_least_is_there(set);
    assert forall|i: int| 0 <= i < lsns.len() && #[trigger] lsns[i] > 0 implies least(set)
        <= lsns[i] by {
        assert(set.contains(lsns[i]));
        let k = choose|k: int| 0 <= k < set.len() && set[k] == lsns[i];
        assert(least(set) <= set[k]);
    }
    if least(set) != u64::MAX {
        assert(set.len() > 0);
        let k = choose|k: int| 0 <= k < set.len() && set[k] == least(set);
        assert(set[k] > 0 && lsns.contains(set[k]));
    }
}

proof fn lemma_largest_in(ids: Seq<i64>, floor: i64)
    ensures
        largest_in(ids, floor) >= floor,
        forall|i: int| 0 <= i < ids.len() ==> #[trigger] ids[i] <= largest_in(ids, floor),
        largest_in(ids, floor) == floor || ids.contains(largest_in(ids, floor)),
    decreases ids.len(),
{
    if ids.len() > 0 {
        let before = ids.drop_last();
        lemma_largest_in(before, floor);
        assert forall|i: int| 0 <= i < ids.len() implies #[trigger] ids[i] <= largest_in(
            ids,
            floor,
        ) by {
            if i < ids.len() - 1 {
                assert(before[i] == ids[i]);
            }
        }
        if before.contains(largest_in(before, floor)) {
            let i = choose|i: int|
                0 <= i < before.len() && before[i] == largest_in(before, floor);
            assert(ids[i] == before[i]);
        }
        assert(ids[ids.len() - 1] == ids.last());
    }
}

/// A table's row counter goes on behind every row of its volumes: it is no smaller than any of them,
/// and is one of them where it is above 0.
pub proof fn row_counter_passes_every_row(volumes: Seq<Seq<i64>>)
    ensures
        largest_row(volumes) >= 0,
        forall|v: int, i: int|
            0 <= v < volumes.len() && 0 <= i < volumes[v].len() ==> #[trigger] volumes[v][i]
                <= largest_row(volumes),
        largest_row(volumes) > 0 ==> exists|v: int|
            0 <= v < volumes.len() && (#[trigger] volumes[v]).contains(largest_row(volumes)),
    decreases volumes.len(),
{
    if volumes.len() > 0 {
        let before = volumes.drop_last();
        let n = volumes.len() - 1;
        row_counter_passes_every_row(before);
        lemma_largest_in(volumes[n], largest_row(before));
        assert forall|v: int, i: int|
            0 <= v < volumes.len() && 0 <= i < volumes[v].len() implies #[trigger] volumes[v][i]
            <= largest_row(volumes) by {
            if v < n {
                assert(before[v][i] == volumes[v][i]);
            }
        }
        if largest_row(volumes) > 0 {
            if volumes[n].contains(largest_row(volumes)) {
            } else {
                let v = choose|v: int|
                    0 <= v < before.len() && (#[trigger] before[v]).contains(largest_row(before));
                assert(volumes[v] == before[v]);
            }
        }
    }
}

/// A volume file that the manifest has is loaded where it is not loaded already, and is never removed;
/// without a manifest no file is removed or loaded. One that the manifest does not have is removed.
pub proof fn manifest_decides_on_volumes(
    name: Seq<char>,
    has_manifest: bool,
    loaded: bool,
    in_manifest: bool,
)
    ensures
        ({
            let fate = volume_fate(name, has_manifest, loaded, in_manifest);
            let id = volume_in_name(name);
            let named = id is Some && id->Some_0 > 0;
            &&& !has_manifest ==> fate == VolumeFate::Keep
            &&& has_manifest && named && loaded ==> fate == VolumeFate::Keep
            &&& has_manifest && named && !loaded && in_manifest ==> fate == (VolumeFate::Load {
                id: id->Some_0,
            })
            &&& has_manifest && named && !loaded && !in_manifest ==> fate == VolumeFate::Remove
            &&& has_manifest && !named ==> fate == VolumeFate::Remove
        }),
{
}

/// The table definitions of a backup, under a time stamp or without one, show that it is one.
pub proof fn definitions_mark_a_backup(name: Seq<char>)
    ensures
        name == "ddl.bin"@ ==> marks_backup(name),
        name_matches(name, "ddl-"@, ".bin"@) ==> marks_backup(name),
        marks_backup(name) && name != "ddl.bin"@ ==> name_matches(name, "ddl-"@, ".bin"@),
{
}

} // verus!
