//! What a backup holds, and what the steps of a backup and of a restore come to.

use crate::backup::{
    ColdRow, PublicationV, PublishStep, StoredVersion, are_backup_rows, json_escaped, json_names,
    manifest_of, publish_next, publish_step, records_cold, records_version, repeats_row,
    rows_for_snapshot,
};
use crate::backup_run::{BackupError, BackupEvent, BackupPhase, backup_trace};
use crate::restore_run::{
    RestoreEvent, RestoreOutcome, RestorePhase, RestoreRun, restore_after, restore_trace,
};
use crate::snapshot_writer::SnapshotRow;
use vstd::prelude::*;

verus! {

// ---------------------------------------------------------------------------
// Rows
// ---------------------------------------------------------------------------

/// Every version in memory and every chosen row of a volume is in the backup, with its own content,
/// under the snapshot's transaction; a version keeps its time, and a row of a volume has none. The
/// backup has no other row.
pub proof fn backup_has_every_row(
    rows: Seq<SnapshotRow>,
    hot: Seq<StoredVersion>,
    cold: Seq<ColdRow>,
)
    requires
        are_backup_rows(rows, hot, cold),
    ensures
        rows.len() == hot.len() + cold.len(),
        forall|i: int|
            #![trigger hot[i]]
            #![trigger rows[i]]
            0 <= i < hot.len() ==> rows[i].row_id == hot[i].row_id && rows[i].encoded@
                == hot[i].encoded@ && rows[i].create_time == hot[i].create_time && rows[i].txn_id
                == -1,
        forall|i: int|
            0 <= i < cold.len() ==> {
                let r = rows[hot.len() + i];
                &&& r.row_id == (#[trigger] cold[i]).row_id
                &&& r.encoded@ == cold[i].encoded@
                &&& r.create_time == 0
                &&& r.txn_id == -1
            },
{
    assert forall|i: int|
        #![trigger hot[i]]
        #![trigger rows[i]]
        0 <= i < hot.len() implies rows[i].row_id == hot[i].row_id && rows[i].encoded@
        == hot[i].encoded@ && rows[i].create_time == hot[i].create_time && rows[i].txn_id == -1 by {
        assert(records_version(rows[i], hot[i]));
    }
    assert forall|i: int| 0 <= i < cold.len() implies {
        let r = rows[hot.len() + i];
        &&& r.row_id == (#[trigger] cold[i]).row_id
        &&& r.encoded@ == cold[i].encoded@
        &&& r.create_time == 0
        &&& r.txn_id == -1
    } by {
        assert(records_cold(rows[hot.len() + i], cold[i]));
    }
}

/// A snapshot has a row for each version that is not deleted, with its content and its time, and none
/// for one that is.
pub proof fn snapshot_has_what_is_not_deleted(
    versions: Seq<StoredVersion>,
    rows: Seq<SnapshotRow>,
)
    requires
        rows_for_snapshot(versions, rows),
    ensures
        forall|i: int|
            0 <= i < versions.len() && !(#[trigger] versions[i]).deleted ==> exists|k: int|
                0 <= k < rows.len() && (#[trigger] rows[k]).row_id == versions[i].row_id
                    && rows[k].encoded@ == versions[i].encoded@ && rows[k].create_time
                    == versions[i].create_time,
        forall|k: int|
            0 <= k < rows.len() ==> (#[trigger] rows[k]).txn_id == -1 && exists|i: int|
                0 <= i < versions.len() && !(#[trigger] versions[i]).deleted && rows[k].row_id
                    == versions[i].row_id && rows[k].encoded@ == versions[i].encoded@,
        rows.len() <= versions.len(),
        (forall|i: int| 0 <= i < versions.len() ==> !(#[trigger] versions[i]).deleted) ==> rows.len()
            == versions.len(),
    decreases versions.len(),
{
    if versions.len() > 0 {
        let before = versions.drop_last();
        let n = versions.len() - 1;
        let shorter = if versions[n].deleted {
            rows
        } else {
            rows.drop_last()
        };
        snapshot_has_what_is_not_deleted(before, shorter);
        assert forall|i: int| 0 <= i < n implies #[trigger] before[i] == versions[i] by {}
        assert forall|i: int|
            0 <= i < versions.len() && !(#[trigger] versions[i]).deleted implies exists|k: int|
            0 <= k < rows.len() && (#[trigger] rows[k]).row_id == versions[i].row_id
                && rows[k].encoded@ == versions[i].encoded@ && rows[k].create_time
                == versions[i].create_time by {
            if i < n {
                assert(!before[i].deleted);
                let k = choose|k: int|
                    0 <= k < shorter.len() && (#[trigger] shorter[k]).row_id == before[i].row_id
                        && shorter[k].encoded@ == before[i].encoded@ && shorter[k].create_time
                        == before[i].create_time;
                assert(rows[k] == shorter[k]);
            } else {
                assert(rows[rows.len() - 1].row_id == versions[n].row_id);
            }
        }
        assert forall|k: int| 0 <= k < rows.len() implies (#[trigger] rows[k]).txn_id == -1
            && exists|i: int|
            0 <= i < versions.len() && !(#[trigger] versions[i]).deleted && rows[k].row_id
                == versions[i].row_id && rows[k].encoded@ == versions[i].encoded@ by {
            if k < shorter.len() {
                assert(rows[k] == shorter[k]);
                let i = choose|i: int|
                    0 <= i < before.len() && !(#[trigger] before[i]).deleted && shorter[k].row_id
                        == before[i].row_id && shorter[k].encoded@ == before[i].encoded@;
                assert(versions[i] == before[i]);
            } else {
                assert(!versions[n].deleted);
            }
        }
        if forall|i: int| 0 <= i < versions.len() ==> !(#[trigger] versions[i]).deleted {
            assert(!versions[n].deleted);
            assert forall|i: int| 0 <= i < before.len() implies !(#[trigger] before[i]).deleted by {
                assert(!versions[i].deleted);
            }
        }
    }
}

/// Rows repeat one another just where two of them have the same identity.
pub proof fn repeated_rows_share_their_identity(rows: Seq<SnapshotRow>)
    ensures
        !repeats_row(rows) <==> forall|i: int, j: int|
            0 <= i < rows.len() && 0 <= j < rows.len() && i != j ==> (#[trigger] rows[i]).row_id
                != (#[trigger] rows[j]).row_id,
{
}

// ---------------------------------------------------------------------------
// The list of tables
// ---------------------------------------------------------------------------

/// A backslash stands before each backslash and each double quote of an escaped text, and every other
/// character is as it was; a text is escaped character by character.
pub proof fn escapes_stand_before_quotes(a: Seq<char>, b: Seq<char>, c: char)
    ensures
        json_escaped(a + b) == json_escaped(a) + json_escaped(b),
        c == '"' || c == '\\' ==> json_escaped(seq![c]) == seq!['\\', c],
        c != '"' && c != '\\' ==> json_escaped(seq![c]) == seq![c],
        json_escaped(Seq::empty()) == Seq::<char>::empty(),
    decreases b.len(),
{
    reveal_with_fuel(json_escaped, 2);
    let one = seq![c];
    assert(one.drop_last() =~= Seq::empty());
    assert(one.last() == c);
    assert(json_escaped(one) =~= if c == '"' || c == '\\' {
        seq!['\\', c]
    } else {
        seq![c]
    });
    if b.len() == 0 {
        assert(a + b =~= a);
        assert(json_escaped(a) + Seq::<char>::empty() =~= json_escaped(a));
    } else {
        escapes_stand_before_quotes(a, b.drop_last(), c);
        assert((a + b).drop_last() =~= a + b.drop_last());
        assert((a + b).last() == b.last());
        let x = json_escaped(b).subrange(
            json_escaped(b.drop_last()).len() as int,
            json_escaped(b).len() as int,
        );
        assert(json_escaped(b) =~= json_escaped(b.drop_last()) + x);
        assert(json_escaped(a + b) =~= json_escaped(a + b.drop_last()) + x);
        assert(json_escaped(a) + (json_escaped(b.drop_last()) + x) =~= (json_escaped(a)
            + json_escaped(b.drop_last())) + x);
    }
}

/// The list of a backup's tables has each name, escaped and in quotes, behind those before it and a
/// comma.
pub proof fn manifest_lists_names(timestamp: Seq<char>, names: Seq<Seq<char>>, name: Seq<char>)
    ensures
        json_names(seq![name]) == "\""@ + json_escaped(name) + "\""@,
        names.len() > 0 ==> json_names(names.push(name)) == json_names(names) + ","@ + json_names(
            seq![name],
        ),
        manifest_of(timestamp, names) == "{\"timestamp\":\""@ + timestamp + "\",\"tables\":["@
            + json_names(names) + "]}"@,
        manifest_of(timestamp, Seq::empty()) == "{\"timestamp\":\""@ + timestamp
            + "\",\"tables\":["@ + "]}"@,
{
    let more = names.push(name);
    assert(more.drop_last() =~= names);
    assert(more.last() == name);
    assert(seq![name].last() == name);
    let head = "{\"timestamp\":\""@ + timestamp + "\",\"tables\":["@;
    assert(head + Seq::<char>::empty() =~= head);
}

// ---------------------------------------------------------------------------
// The steps of a backup
// ---------------------------------------------------------------------------

/// A backup in which nothing fails waits for commits, writes the snapshot of each table in order,
/// names them all, describes them and removes what is old; then it has been made. What describes it
/// may fail.
pub proof fn backup_runs_through(tables: usize, events: Seq<BackupEvent>)
    requires
        forall|i: int| 0 <= i < events.len() && i < tables + 2 ==> #[trigger] events[i] is Done,
    ensures
        ({
            let b = backup_trace(true, true, tables, events);
            let n = events.len();
            &&& b.tables == tables
            &&& n == 0 ==> b.phase == BackupPhase::Waiting
            &&& 1 <= n <= tables ==> b.phase == (BackupPhase::Writing { table: (n - 1) as usize })
            &&& n == tables + 1 ==> b.phase == (BackupPhase::Publishing {
                written: tables,
                whole: true,
            })
            &&& n == tables + 2 ==> b.phase == BackupPhase::Describing
            &&& n == tables + 3 ==> b.phase == BackupPhase::Retaining
            &&& n > tables + 3 ==> b.phase == (BackupPhase::Finished { result: Ok(true) })
        }),
    decreases events.len(),
{
    if events.len() > 0 {
        let before = events.drop_last();
        assert forall|i: int|
            0 <= i < before.len() && i < tables + 2 implies #[trigger] before[i] is Done by {
            assert(before[i] == events[i]);
        }
        backup_runs_through(tables, before);
        assert(events.last() == events[events.len() - 1]);
    }
}

/// A backup whose wait for commits, or one of whose snapshots, fails: the first ends at once; after
/// the second the snapshots that were written go, and no backup was made. So it is where the
/// snapshots cannot be named.
pub proof fn failed_backup_is_not_made(tables: usize, events: Seq<BackupEvent>, at: int)
    requires
        0 <= at < events.len(),
        at < tables + 2,
        events[at] is Failed,
        forall|i: int| 0 <= i < at ==> #[trigger] events[i] is Done,
    ensures
        ({
            let phase = backup_trace(true, true, tables, events).phase;
            &&& at == 0 ==> phase == (BackupPhase::Finished { result: Err(BackupError::TimedOut) })
            &&& 0 < at <= tables && events.len() == at + 1 ==> phase == (BackupPhase::Publishing {
                written: (at - 1) as usize,
                whole: false,
            })
            &&& 0 < at <= tables && events.len() > at + 1 ==> phase == (BackupPhase::Finished {
                result: Err(BackupError::Failed),
            })
            &&& at == tables + 1 ==> phase == (BackupPhase::Finished {
                result: Err(BackupError::Failed),
            })
        }),
    decreases events.len(),
{
    let before = events.drop_last();
    if at < events.len() - 1 {
        assert forall|i: int| 0 <= i < at implies #[trigger] before[i] is Done by {
            assert(before[i] == events[i]);
        }
        failed_backup_is_not_made(tables, before, at);
    } else {
        assert forall|i: int|
            0 <= i < before.len() && i < tables + 2 implies #[trigger] before[i] is Done by {
            assert(before[i] == events[i]);
        }
        backup_runs_through(tables, before);
        assert(events.last() == events[at]);
    }
}

/// A publication after some steps, each of which worked or not.
pub open spec fn publish_trace(total: nat, worked: Seq<bool>) -> PublicationV
    decreases worked.len(),
{
    if worked.len() == 0 {
        PublicationV::Renaming(0)
    } else {
        publish_next(publish_trace(total, worked.drop_last()), total, worked.last())
    }
}

/// A publication in which every rename works names the snapshots one after the other and is then
/// published.
pub proof fn publication_runs_through(total: nat, worked: Seq<bool>)
    requires
        total <= usize::MAX,
        forall|i: int| 0 <= i < worked.len() && i < total ==> #[trigger] worked[i],
    ensures
        ({
            let s = publish_step(publish_trace(total, worked), total);
            let n = worked.len();
            &&& publish_trace(total, worked) == PublicationV::Renaming(
                if n < total {
                    n
                } else {
                    total
                },
            )
            &&& n < total ==> s == (PublishStep::Rename { position: n as usize })
            &&& n >= total ==> s == PublishStep::Published
        }),
    decreases worked.len(),
{
    if worked.len() > 0 {
        let before = worked.drop_last();
        assert forall|i: int| 0 <= i < before.len() && i < total implies #[trigger] before[i] by {
            assert(before[i] == worked[i]);
        }
        publication_runs_through(total, before);
        assert(worked.last() == worked[worked.len() - 1]);
    }
}

/// A publication one of whose renames fails takes the names back, the last first, then removes every
/// temporary file, and has then failed; whether those steps work changes nothing.
pub proof fn failed_publication_takes_names_back(total: nat, worked: Seq<bool>, at: int)
    requires
        total <= usize::MAX,
        0 <= at < total,
        at < worked.len(),
        !worked[at],
        forall|i: int| 0 <= i < at ==> #[trigger] worked[i],
    ensures
        ({
            let s = publish_step(publish_trace(total, worked), total);
            let n = worked.len() - at - 1;
            &&& n < at ==> publish_trace(total, worked) == PublicationV::Undoing((at - n) as nat)
            &&& n < at ==> s == (PublishStep::Undo { position: (at - n - 1) as usize })
            &&& at <= n < at + total ==> publish_trace(total, worked) == PublicationV::Removing(
                (n - at) as nat,
            )
            &&& at <= n < at + total ==> s == (PublishStep::RemoveTemporary {
                position: (n - at) as usize,
            })
            &&& n >= at + total ==> publish_trace(total, worked) == PublicationV::Removing(total)
            &&& n >= at + total ==> s == PublishStep::Failed
        }),
    decreases worked.len(),
{
    let before = worked.drop_last();
    if at < worked.len() - 1 {
        assert forall|i: int| 0 <= i < at implies #[trigger] before[i] by {
            assert(before[i] == worked[i]);
        }
        failed_publication_takes_names_back(total, before, at);
    } else {
        assert forall|i: int| 0 <= i < before.len() && i < total implies #[trigger] before[i] by {
            assert(before[i] == worked[i]);
        }
        publication_runs_through(total, before);
        assert(worked.last() == worked[at]);
    }
}

// ---------------------------------------------------------------------------
// The steps of a restore
// ---------------------------------------------------------------------------

/// A restore in which nothing fails waits for transactions, chooses the snapshots, finds the
/// definitions, clears the engine, loads each chosen snapshot in order, makes the definitions, raises
/// the counters, records, checkpoints and compacts; then transactions are accepted and it is restored.
pub proof fn restore_runs_through(events: Seq<RestoreEvent>, count: usize)
    requires
        count > 0,
        events.len() > 1 ==> events[1] == (RestoreEvent::Chosen { count }),
        forall|i: int| 0 <= i < events.len() ==> !(#[trigger] events[i] is Failed),
    ensures
        ({
            let r = restore_trace(events);
            let n = events.len();
            &&& n == 0 ==> r.phase == RestorePhase::Draining
            &&& n == 1 ==> r.phase == RestorePhase::Choosing
            &&& n >= 2 ==> r.count == count
            &&& n == 2 ==> r.phase == RestorePhase::Defining
            &&& n == 3 ==> r.phase == RestorePhase::Clearing
            &&& 4 <= n < 4 + count ==> r.phase == (RestorePhase::Loading {
                position: (n - 4) as usize,
            })
            &&& n == 4 + count ==> r.phase == RestorePhase::Redefining
            &&& n == 5 + count ==> r.phase == RestorePhase::Counting
            &&& n == 6 + count ==> r.phase == RestorePhase::Recording
            &&& n == 7 + count ==> r.phase == RestorePhase::Checkpointing
            &&& n == 8 + count ==> r.phase == RestorePhase::Compacting
            &&& n == 9 + count ==> r.phase == (RestorePhase::Accepting {
                outcome: RestoreOutcome::Restored,
            })
            &&& n > 9 + count ==> r.phase == (RestorePhase::Finished {
                outcome: RestoreOutcome::Restored,
            })
        }),
    decreases events.len(),
{
    if events.len() > 0 {
        let before = events.drop_last();
        assert forall|i: int| 0 <= i < before.len() implies !(#[trigger] before[i] is Failed) by {
            assert(before[i] == events[i]);
        }
        restore_runs_through(before, count);
        assert(events.last() == events[events.len() - 1]);
    }
}

/// A step of a restore that fails ends it, for the reason that goes with the step, and transactions
/// are accepted again. Only that the definitions cannot be made or recorded, or that a part cannot be
/// made durable, ends nothing more. A table that cannot be loaded after another was: what was loaded
/// is made durable first.
pub proof fn failed_restore_says_why(r: RestoreRun)
    ensures
        ({
            let next = restore_after(r, RestoreEvent::Failed).phase;
            &&& r.phase is Draining ==> next == (RestorePhase::Accepting {
                outcome: RestoreOutcome::StillActive,
            })
            &&& r.phase is Choosing ==> next == (RestorePhase::Accepting {
                outcome: RestoreOutcome::DirectoryUnreadable,
            })
            &&& r.phase is Defining ==> next == (RestorePhase::Accepting {
                outcome: RestoreOutcome::MissingDefinitions,
            })
            &&& r.phase matches RestorePhase::Loading { position } ==> {
                &&& r.progress.tables == 0 ==> next == (RestorePhase::Accepting {
                    outcome: RestoreOutcome::LoadFailed { position },
                })
                &&& r.progress.tables > 0 ==> next == (RestorePhase::PersistingPart {
                    failed: position,
                })
            }
            &&& r.phase matches RestorePhase::PersistingPart { failed } ==> next == (
            RestorePhase::Accepting { outcome: RestoreOutcome::LoadFailed { position: failed } })
            &&& r.phase is Redefining ==> next == RestorePhase::Counting
            &&& r.phase is Counting ==> next == (RestorePhase::Accepting {
                outcome: RestoreOutcome::CountersFailed,
            })
            &&& r.phase is Recording ==> next == RestorePhase::Checkpointing
            &&& r.phase is Checkpointing ==> next == (RestorePhase::Accepting {
                outcome: RestoreOutcome::NotDurable,
            })
            &&& r.phase is Compacting ==> next == (RestorePhase::Accepting {
                outcome: RestoreOutcome::CompactionFailed,
            })
            &&& r.phase matches RestorePhase::Accepting { outcome } ==> next == (
            RestorePhase::Finished { outcome })
            &&& r.phase is Finished ==> next == r.phase
        }),
{
}

/// A restore that finds no snapshot, or of a table none that is intact, ends before anything is
/// removed, and says so.
pub proof fn restore_without_snapshots_ends(r: RestoreRun, directory: usize)
    requires
        r.phase is Choosing,
    ensures
        restore_after(r, RestoreEvent::Chosen { count: 0 }).phase == (RestorePhase::Accepting {
            outcome: RestoreOutcome::NoMatchingSnapshots,
        }),
        restore_after(r, RestoreEvent::Invalid { directory }).phase == (RestorePhase::Accepting {
            outcome: RestoreOutcome::InvalidSnapshot { directory },
        }),
{
}

/// A restore counts each table that it loads, and its rows in memory and in volumes; no other step
/// counts anything.
pub proof fn restore_counts_what_it_loads(r: RestoreRun, event: RestoreEvent)
    requires
        r.progress.tables < u32::MAX,
    ensures
        ({
            let next = restore_after(r, event).progress;
            &&& r.phase is Loading ==> match event {
                RestoreEvent::Failed => next == r.progress,
                RestoreEvent::Loaded { hot_rows, cold_rows } => next.tables == r.progress.tables + 1
                    && (r.progress.rows + hot_rows + cold_rows <= u64::MAX ==> next.rows
                    == r.progress.rows + hot_rows + cold_rows),
                _ => next.tables == r.progress.tables + 1 && next.rows == r.progress.rows,
            }
            &&& !(r.phase is Loading) ==> next == r.progress
        }),
{
}

} // verus!
