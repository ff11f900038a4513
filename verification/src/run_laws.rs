//! What the steps of a seal, a rewrite, a commit, a checkpoint and an opening come to.

use crate::checkpoint::{
    CheckpointEvent, CheckpointPhase, checkpoint_trace, elapsed_nanos,
};
use crate::commit::{
    CommitEvent, CommitPhase, CommitV, commit_after, commit_trace,
};
use crate::compaction_run::{RewriteEvent, RewriteOutcome, RewritePhase, rewrite_trace};
use crate::opening::{OpenEvent, OpenPhase, OpenRun, open_phase_after, phase_writes_log};
use crate::seal_run::{SealEvent, SealPhase, seal_trace};
use vstd::prelude::*;

verus! {

// ---------------------------------------------------------------------------
// Seals
// ---------------------------------------------------------------------------

/// A seal whose volumes can be written, read back and given their side files registers them, takes
/// every batch of rows out of memory in order, settles the tombstones and the counter, and ends
/// sealed. What is said of the steps after the registration changes nothing.
pub proof fn seal_runs_through(batches: usize, events: Seq<SealEvent>, volumes: usize)
    requires
        events.len() > 0,
        events[0] == (SealEvent::Written { volumes }),
        forall|i: int| 0 < i < events.len() && i < volumes + 2 ==> !(#[trigger] events[i] is Failed),
    ensures
        ({
            let s = seal_trace(batches, events);
            let n = events.len();
            &&& s.volumes == volumes
            &&& s.batches == batches
            &&& n == 1 ==> s.phase == SealPhase::Indexing
            &&& 2 <= n < volumes + 2 ==> s.phase == (SealPhase::BuildingSide {
                volume: (n - 2) as usize,
            })
            &&& n == volumes + 2 ==> s.phase == SealPhase::Registering
            &&& volumes + 3 <= n < volumes + 3 + batches ==> s.phase == (SealPhase::Removing {
                batch: (n - volumes - 3) as usize,
            })
            &&& n == volumes + 3 + batches ==> s.phase == SealPhase::SettlingTombstones
            &&& n == volumes + 4 + batches ==> s.phase == SealPhase::Settling
            &&& n > volumes + 4 + batches ==> s.phase == (SealPhase::Finished { sealed: true })
        }),
    decreases events.len(),
{
    if events.len() > 1 {
        let before = events.drop_last();
        assert forall|i: int| 0 < i < before.len() && i < volumes + 2 implies !(
        #[trigger] before[i] is Failed) by {
            assert(before[i] == events[i]);
        }
        seal_runs_through(batches, before, volumes);
        assert(events[events.len() - 1] == events.last());
    } else {
        reveal_with_fuel(seal_trace, 2);
        assert(events.last() == events[0]);
    }
}

/// A seal that cannot write its volumes ends at once; one that cannot read one back or build its side
/// file removes the files again and then ends. Neither ends sealed.
pub proof fn failed_seal_ends_unsealed(
    batches: usize,
    events: Seq<SealEvent>,
    volumes: usize,
    at: int,
)
    requires
        0 <= at < events.len(),
        at < volumes + 2,
        events[at] is Failed,
        at > 0 ==> events[0] == (SealEvent::Written { volumes }),
        forall|i: int| 0 < i < at ==> !(#[trigger] events[i] is Failed),
    ensures
        at == 0 ==> seal_trace(batches, events).phase == (SealPhase::Finished { sealed: false }),
        at > 0 && events.len() == at + 1 ==> seal_trace(batches, events).phase
            == SealPhase::Discarding,
        at > 0 && events.len() > at + 1 ==> seal_trace(batches, events).phase == (
        SealPhase::Finished { sealed: false }),
    decreases events.len(),
{
    let before = events.drop_last();
    if at < events.len() - 1 {
        assert forall|i: int| 0 < i < at implies !(#[trigger] before[i] is Failed) by {
            assert(before[i] == events[i]);
        }
        failed_seal_ends_unsealed(batches, before, volumes, at);
    } else if at > 0 {
        assert forall|i: int| 0 < i < before.len() && i < volumes + 2 implies !(
        #[trigger] before[i] is Failed) by {
            assert(before[i] == events[i]);
        }
        seal_runs_through(batches, before, volumes);
        assert(events.last() == events[at]);
    } else {
        reveal_with_fuel(seal_trace, 2);
        assert(events.last() == events[0]);
    }
}

// ---------------------------------------------------------------------------
// Rewrites
// ---------------------------------------------------------------------------

proof fn lemma_rewrite_writes(outputs: usize, events: Seq<RewriteEvent>)
    requires
        events.len() <= outputs + 1,
        forall|i: int| 0 <= i < events.len() ==> !(#[trigger] events[i] is Failed),
    ensures
        rewrite_trace(outputs, events).outputs == outputs,
        events.len() < outputs ==> rewrite_trace(outputs, events).phase == (RewritePhase::Writing {
            output: events.len() as usize,
        }),
        events.len() == outputs ==> rewrite_trace(outputs, events).phase
            == RewritePhase::Collecting,
        events.len() == outputs + 1 ==> rewrite_trace(outputs, events).phase
            == RewritePhase::Publishing,
    decreases events.len(),
{
    if events.len() > 0 {
        let before = events.drop_last();
        assert forall|i: int| 0 <= i < before.len() implies !(#[trigger] before[i] is Failed) by {
            assert(before[i] == events[i]);
        }
        lemma_rewrite_writes(outputs, before);
        assert(events[events.len() - 1] == events.last());
    }
}

/// A rewrite that writes every new volume and reads the old rows publishes the new volumes, as often
/// as a seal comes between; it then clears the tombstones, writes the manifest and removes the old
/// files. Where the manifest cannot be written, the new volumes stay and so do the old files.
pub proof fn rewrite_runs_through(outputs: usize, events: Seq<RewriteEvent>, moved: int)
    requires
        moved >= 0,
        forall|i: int| 0 <= i < events.len() && i <= outputs ==> !(#[trigger] events[i] is Failed),
        forall|i: int|
            outputs < i < events.len() && i <= outputs + moved ==> #[trigger] events[i] is Moved,
        events.len() > outputs + moved + 1 ==> !(events[outputs + moved + 1] is Moved),
    ensures
        ({
            let phase = rewrite_trace(outputs, events).phase;
            let n = events.len();
            &&& n < outputs ==> phase == (RewritePhase::Writing { output: n as usize })
            &&& n == outputs ==> phase == RewritePhase::Collecting
            &&& outputs < n <= outputs + moved + 1 ==> phase == RewritePhase::Publishing
            &&& n == outputs + moved + 2 ==> phase == RewritePhase::Clearing
            &&& n == outputs + moved + 3 ==> phase == RewritePhase::Persisting
            &&& n > outputs + moved + 3 && events[outputs + moved + 3] is Failed ==> phase == (
            RewritePhase::Finished { outcome: RewriteOutcome::FilesKept })
            &&& n == outputs + moved + 4 && !(events[outputs + moved + 3] is Failed) ==> phase
                == RewritePhase::Removing
            &&& n > outputs + moved + 4 && !(events[outputs + moved + 3] is Failed) ==> phase == (
            RewritePhase::Finished { outcome: RewriteOutcome::Replaced })
        }),
    decreases events.len(),
{
    let n = events.len();
    if n <= outputs + 1 {
        lemma_rewrite_writes(outputs, events);
    } else {
        let before = events.drop_last();
        assert forall|i: int| 0 <= i < before.len() && i <= outputs implies !(
        #[trigger] before[i] is Failed) by {
            assert(before[i] == events[i]);
        }
        assert forall|i: int|
            outputs < i < before.len() && i <= outputs + moved implies #[trigger] before[i] is Moved by {
            assert(before[i] == events[i]);
        }
        rewrite_runs_through(outputs, before, moved);
        assert(events.last() == events[n - 1]);
    }
}

/// A rewrite that fails before it publishes removes the new volumes that it wrote and then ends, with
/// nothing changed.
pub proof fn failed_rewrite_changes_nothing(outputs: usize, events: Seq<RewriteEvent>, at: int)
    requires
        0 <= at < events.len(),
        at <= outputs,
        events[at] is Failed,
        forall|i: int| 0 <= i < at ==> !(#[trigger] events[i] is Failed),
    ensures
        events.len() == at + 1 ==> rewrite_trace(outputs, events).phase == (
        RewritePhase::Discarding { written: at as usize }),
        events.len() > at + 1 ==> rewrite_trace(outputs, events).phase == (RewritePhase::Finished {
            outcome: RewriteOutcome::Failed,
        }),
    decreases events.len(),
{
    let before = events.drop_last();
    if at < events.len() - 1 {
        assert forall|i: int| 0 <= i < at implies !(#[trigger] before[i] is Failed) by {
            assert(before[i] == events[i]);
        }
        failed_rewrite_changes_nothing(outputs, before, at);
    } else {
        assert forall|i: int| 0 <= i < before.len() implies !(#[trigger] before[i] is Failed) by {
            assert(before[i] == events[i]);
        }
        lemma_rewrite_writes(outputs, before);
        assert(events.last() == events[at]);
    }
}

// ---------------------------------------------------------------------------
// Commits
// ---------------------------------------------------------------------------

/// A commit that is written to the log takes four steps for each table, one table after the other: it
/// logs the deletions, logs the versions, checks, and commits. Then it forgets the versions. While no
/// step fails, a table counts as committed once its fourth step is done, and not before.
pub proof fn recorded_commit_goes_table_by_table(
    tables: usize,
    managers: Seq<Option<usize>>,
    events: Seq<CommitEvent>,
)
    requires
        events.len() <= 4 * tables,
        forall|i: int| 0 <= i < events.len() ==> #[trigger] events[i] is Done,
    ensures
        ({
            let c = commit_trace(true, tables, managers, events);
            let n = events.len() as int;
            let t = (n / 4) as usize;
            &&& c.record && c.tables == tables && c.managers == managers && !c.failed
            &&& c.committed == n / 4
            &&& n == 4 * tables ==> c.phase == CommitPhase::Forgetting
            &&& n < 4 * tables && n % 4 == 0 ==> c.phase == (CommitPhase::LoggingTombstones {
                table: t,
            })
            &&& n < 4 * tables && n % 4 == 1 ==> c.phase == (CommitPhase::LoggingVersions {
                table: t,
            })
            &&& n < 4 * tables && n % 4 == 2 ==> c.phase == (CommitPhase::Checking { table: t })
            &&& n < 4 * tables && n % 4 == 3 ==> c.phase == (CommitPhase::Committing { table: t })
        }),
    decreases events.len(),
{
    if events.len() > 0 {
        let before = events.drop_last();
        assert forall|i: int| 0 <= i < before.len() implies #[trigger] before[i] is Done by {
            assert(before[i] == events[i]);
        }
        recorded_commit_goes_table_by_table(tables, managers, before);
        assert(events[events.len() - 1] is Done);
    }
}

/// A commit that is not written to the log takes two steps for each table: it checks and commits.
pub proof fn unrecorded_commit_goes_table_by_table(
    tables: usize,
    managers: Seq<Option<usize>>,
    events: Seq<CommitEvent>,
)
    requires
        events.len() <= 2 * tables,
        forall|i: int| 0 <= i < events.len() ==> #[trigger] events[i] is Done,
    ensures
        ({
            let c = commit_trace(false, tables, managers, events);
            let n = events.len() as int;
            let t = (n / 2) as usize;
            &&& !c.record && c.tables == tables && c.managers == managers && !c.failed
            &&& c.committed == n / 2
            &&& n == 2 * tables ==> c.phase == CommitPhase::Forgetting
            &&& n < 2 * tables && n % 2 == 0 ==> c.phase == (CommitPhase::Checking { table: t })
            &&& n < 2 * tables && n % 2 == 1 ==> c.phase == (CommitPhase::Committing { table: t })
        }),
    decreases events.len(),
{
    if events.len() > 0 {
        let before = events.drop_last();
        assert forall|i: int| 0 <= i < before.len() implies #[trigger] before[i] is Done by {
            assert(before[i] == events[i]);
        }
        unrecorded_commit_goes_table_by_table(tables, managers, before);
        assert(events[events.len() - 1] is Done);
    }
}

/// A failure at a table ends the work on tables: the commit has failed, no further table is committed,
/// and the versions are forgotten next.
pub proof fn failure_ends_the_tables(c: CommitV)
    requires
        c.phase is LoggingTombstones || c.phase is LoggingVersions || c.phase is Checking
            || c.phase is Committing,
    ensures
        commit_after(c, CommitEvent::Failed).phase == CommitPhase::Forgetting,
        commit_after(c, CommitEvent::Failed).failed,
        commit_after(c, CommitEvent::Failed).committed == c.committed,
        commit_after(c, CommitEvent::Failed).tables == c.tables,
        commit_after(c, CommitEvent::Failed).managers == c.managers,
        commit_after(c, CommitEvent::Failed).record == c.record,
{
}

/// The position among the tables with volumes that a phase is at.
pub open spec fn manager_of(phase: CommitPhase) -> Option<usize> {
    match phase {
        CommitPhase::LoggingCold { manager } => Some(manager),
        CommitPhase::Settling { manager, commit } => Some(manager),
        _ => None,
    }
}

/// Once the versions are forgotten, the tables with volumes are settled one after the other, none is
/// passed over, and then the commit is finished. Deletions that are not in the log are logged first
/// where the transaction is written to it and has not failed; one whose logging fails is rolled back
/// and fails the commit, and one whose logging goes well is committed.
pub proof fn tombstones_are_settled_in_order(c: CommitV, event: CommitEvent)
    requires
        c.managers.len() <= usize::MAX,
        c.phase is Forgetting || c.phase is Settling || c.phase is LoggingCold,
        c.phase is Settling || c.phase is LoggingCold ==> manager_of(c.phase)->Some_0
            < c.managers.len(),
    ensures
        ({
            let next = commit_after(c, event);
            let due = if c.phase is Forgetting {
                0int
            } else {
                manager_of(c.phase)->Some_0 + 1
            };
            let logged = c.record && due < c.managers.len() && c.managers[due] is Some
                && c.managers[due]->Some_0 < c.committed;
            &&& next.record == c.record && next.tables == c.tables && next.managers == c.managers
                && next.committed == c.committed
            &&& !(c.phase is LoggingCold) ==> {
                &&& next.failed == c.failed
                &&& due >= c.managers.len() ==> next.phase == CommitPhase::Finished
                &&& due < c.managers.len() ==> manager_of(next.phase) == Some(due as usize)
                &&& due < c.managers.len() ==> (next.phase is LoggingCold <==> c.record
                    && !c.failed && !logged)
                &&& next.phase matches CommitPhase::Settling { manager, commit } ==> commit == (
                !c.failed || logged)
            }
            &&& c.phase matches CommitPhase::LoggingCold { manager } ==> {
                &&& event is Done ==> next.phase == (CommitPhase::Settling {
                    manager,
                    commit: true,
                }) && next.failed == c.failed
                &&& event is Failed ==> next.phase == (CommitPhase::Settling {
                    manager,
                    commit: false,
                }) && next.failed
            }
        }),
{
}

// ---------------------------------------------------------------------------
// Checkpoints
// ---------------------------------------------------------------------------

/// A checkpoint of a persistent database in which nothing fails and no row is left in memory takes
/// the position in the log, records the catalog, publishes the position, writes the manifests and
/// drops the log up to that position; then it is finished and has not failed.
pub proof fn checkpoint_runs_through(force: bool, events: Seq<CheckpointEvent>, lsn: u64)
    requires
        lsn > 0,
        forall|i: int|
            0 <= i < events.len() && i != 2 && i != 3 ==> #[trigger] events[i]
                == CheckpointEvent::Done,
        events.len() > 2 ==> events[2] == (CheckpointEvent::Rows { left: false }),
        events.len() > 3 ==> events[3] == (CheckpointEvent::Cut { lsn }),
    ensures
        ({
            let phase = checkpoint_trace(true, force, events).phase;
            let n = events.len();
            &&& n == 0 ==> phase == (CheckpointPhase::Sealing { forced: force })
            &&& n == 1 ==> phase == (CheckpointPhase::Notifying { failed: false })
            &&& n == 2 ==> phase == CheckpointPhase::Fencing
            &&& n == 3 ==> phase == CheckpointPhase::Cutting
            &&& n == 4 ==> phase == (CheckpointPhase::Recording { lsn })
            &&& n == 5 ==> phase == (CheckpointPhase::Publishing { lsn })
            &&& n == 6 ==> phase == (CheckpointPhase::Persisting { lsn })
            &&& n == 7 ==> phase == (CheckpointPhase::Truncating { lsn })
            &&& n > 7 ==> phase == (CheckpointPhase::Finished { failed: false })
        }),
    decreases events.len(),
{
    if events.len() > 0 {
        let before = events.drop_last();
        assert forall|i: int|
            0 <= i < before.len() && i != 2 && i != 3 implies #[trigger] before[i]
            == CheckpointEvent::Done by {
            assert(before[i] == events[i]);
        }
        checkpoint_runs_through(force, before, lsn);
        assert(events.last() == events[events.len() - 1]);
    }
}

/// Where rows are left in memory, commits cannot be kept out, or the log has no position to cut at,
/// the manifests are written without one, the log stays as it is, and the checkpoint has not failed.
pub proof fn log_stays_while_rows_are_left(
    force: bool,
    events: Seq<CheckpointEvent>,
    event: CheckpointEvent,
)
    requires
        ({
            let phase = checkpoint_trace(true, force, events).phase;
            ||| phase == CheckpointPhase::Fencing && (event == (CheckpointEvent::Rows { left: true })
                || event == CheckpointEvent::TimedOut)
            ||| phase == CheckpointPhase::Cutting && event == (CheckpointEvent::Cut { lsn: 0 })
        }),
    ensures
        checkpoint_trace(true, force, events.push(event)).phase == (CheckpointPhase::Persisting {
            lsn: 0,
        }),
        forall|more: CheckpointEvent|
            #![trigger events.push(event).push(more)]
            checkpoint_trace(true, force, events.push(event).push(more)).phase == (
            CheckpointPhase::Finished { failed: false }),
{
    assert(events.push(event).drop_last() =~= events);
    assert forall|more: CheckpointEvent|
        #![trigger events.push(event).push(more)]
        checkpoint_trace(true, force, events.push(event).push(more)).phase == (
        CheckpointPhase::Finished { failed: false }) by {
        assert(events.push(event).push(more).drop_last() =~= events.push(event));
    }
}

/// A seal that fails fails the checkpoint once the waiting commits are woken; so does a position that
/// cannot be taken or published. A catalog that cannot be recorded, or a manifest that cannot be
/// written, ends it without an error; the log stays as it is in each case.
pub proof fn failed_checkpoint_keeps_the_log(
    force: bool,
    events: Seq<CheckpointEvent>,
)
    ensures
        ({
            let phase = checkpoint_trace(true, force, events).phase;
            let next = checkpoint_trace(true, force, events.push(CheckpointEvent::Failed)).phase;
            &&& phase is Sealing ==> next == (CheckpointPhase::Notifying { failed: true })
            &&& phase == (CheckpointPhase::Notifying { failed: true }) ==> next == (
            CheckpointPhase::Finished { failed: true })
            &&& phase == (CheckpointPhase::Notifying { failed: false }) ==> next
                == CheckpointPhase::Fencing
            &&& phase is Cutting ==> next == (CheckpointPhase::Finished { failed: true })
            &&& phase is Recording ==> next == (CheckpointPhase::Finished { failed: false })
            &&& phase is Publishing ==> next == (CheckpointPhase::Finished { failed: true })
            &&& phase is Persisting ==> next == (CheckpointPhase::Finished { failed: false })
            &&& phase is Finished ==> next == phase
        }),
{
    assert(events.push(CheckpointEvent::Failed).drop_last() =~= events);
}

/// A database in memory has nothing to checkpoint.
pub proof fn memory_has_no_checkpoint(force: bool, events: Seq<CheckpointEvent>)
    ensures
        checkpoint_trace(false, force, events).phase == (CheckpointPhase::Finished {
            failed: false,
        }),
    decreases events.len(),
{
    if events.len() > 0 {
        memory_has_no_checkpoint(force, events.drop_last());
    }
}

/// The time between two moments is their difference, where that fits; it is moved to the end of the
/// range where it does not.
pub proof fn elapsed_time_is_the_difference(now: i64, last: i64)
    ensures
        i64::MIN <= now - last <= i64::MAX ==> elapsed_nanos(now, last) == now - last,
        now - last > i64::MAX ==> elapsed_nanos(now, last) == i64::MAX,
        now - last < i64::MIN ==> elapsed_nanos(now, last) == i64::MIN,
        now >= last <==> elapsed_nanos(now, last) >= 0,
{
}

// ---------------------------------------------------------------------------
// Openings
// ---------------------------------------------------------------------------

/// The opening after some events.
pub open spec fn open_trace(start: OpenRun, events: Seq<OpenEvent>) -> OpenPhase
    decreases events.len(),
{
    if events.len() == 0 {
        start.phase
    } else {
        open_phase_after(
            OpenRun { phase: open_trace(start, events.drop_last()), persistent: start.persistent },
            events.last(),
        )
    }
}

/// The opening of a persistent database in which nothing fails: the lock, the start, the manifests;
/// then the volumes where the manifests give a position, the snapshots and the volumes beside them
/// where there are snapshots only, and neither where there is nothing; then the log from the position
/// that was found, the defaults, the indexes and the counters. A database that came from snapshots is
/// migrated at the end; others are not.
pub proof fn opening_runs_through(
    events: Seq<OpenEvent>,
    volume_lsn: Option<u64>,
    snapshots: bool,
    snapshot_lsn: u64,
)
    requires
        events.len() > 2 ==> events[2] == (OpenEvent::Found { volume_lsn, snapshots }),
        forall|i: int|
            0 <= i < events.len() && i != 2 && !(i == 3 && volume_lsn is None && snapshots)
                ==> #[trigger] events[i] == OpenEvent::Done,
        events.len() > 3 && volume_lsn is None && snapshots ==> events[3] == (OpenEvent::Loaded {
            lsn: snapshot_lsn,
        }),
    ensures
        ({
            let phase = open_trace(
                OpenRun { phase: OpenPhase::Locking, persistent: true },
                events,
            );
            let n = events.len();
            let loads: int = match volume_lsn {
                Some(_) => 1,
                None => if snapshots {
                    2
                } else {
                    0
                },
            };
            let lsn: u64 = match volume_lsn {
                Some(l) => l,
                None => if snapshots {
                    snapshot_lsn
                } else {
                    0
                },
            };
            let migrate = volume_lsn is None && snapshots;
            &&& n == 0 ==> phase == OpenPhase::Locking
            &&& n == 1 ==> phase == OpenPhase::Starting
            &&& n == 2 ==> phase == OpenPhase::ReadingManifests
            &&& n == 3 && volume_lsn is Some ==> phase == (OpenPhase::LoadingVolumes { lsn })
            &&& n == 3 && migrate ==> phase == OpenPhase::LoadingSnapshots
            &&& n == 4 && migrate ==> phase == (OpenPhase::LoadingStandalone { lsn })
            &&& n == 3 + loads ==> phase == (OpenPhase::Replaying { lsn, migrate })
            &&& n == 4 + loads ==> phase == (OpenPhase::FillingDefaults { migrate })
            &&& n == 5 + loads ==> phase == (OpenPhase::FillingIndexes { migrate })
            &&& n == 6 + loads ==> phase == (OpenPhase::Counting { migrate })
            &&& n == 7 + loads && migrate ==> phase == OpenPhase::Migrating
            &&& n == 7 + loads && !migrate ==> phase == OpenPhase::LookingForRows
        }),
    decreases events.len(),
{
    if events.len() > 0 {
        let before = events.drop_last();
        assert forall|i: int|
            0 <= i < before.len() && i != 2 && !(i == 3 && volume_lsn is None
                && snapshots) implies #[trigger] before[i] == OpenEvent::Done by {
            assert(before[i] == events[i]);
        }
        opening_runs_through(before, volume_lsn, snapshots, snapshot_lsn);
        assert(events.last() == events[events.len() - 1]);
    }
}

/// What an opening does after its tables are there: rows that are left in memory are sealed and the
/// manifests written, and that these fail is no failure of the opening. Snapshots that were migrated
/// are removed unless they are a user's backups.
pub proof fn opening_seals_what_is_left(o: OpenRun, event: OpenEvent)
    ensures
        ({
            let next = open_phase_after(o, event);
            &&& o.phase == OpenPhase::LookingForRows ==> (next == OpenPhase::Sealing <==> event == (
            OpenEvent::Rows { left: true })) && (next != OpenPhase::Sealing ==> next == (
            OpenPhase::Finished { failed: false }))
            &&& o.phase == OpenPhase::Sealing ==> next == OpenPhase::Persisting
            &&& o.phase == OpenPhase::Persisting ==> next == (OpenPhase::Finished { failed: false })
            &&& o.phase == OpenPhase::Migrating && event == (OpenEvent::Migrated { backups: false })
                ==> next == OpenPhase::RemovingSnapshots
            &&& o.phase == OpenPhase::Migrating && event == (OpenEvent::Migrated { backups: true })
                ==> next == OpenPhase::LookingForRows
            &&& o.phase == OpenPhase::RemovingSnapshots ==> next == OpenPhase::LookingForRows
            &&& o.phase is Finished ==> next == o.phase
            &&& o.phase == OpenPhase::Starting && !o.persistent && !(event is Failed) ==> next == (
            OpenPhase::Finished { failed: false })
        }),
{
}

/// An opening fails where the lock, the start, the manifests, the snapshots, the log, the indexes, the
/// counters or the migration fail, and nowhere else.
pub proof fn opening_fails_where_data_is_at_stake(o: OpenRun)
    requires
        !(o.phase is Finished),
    ensures
        open_phase_after(o, OpenEvent::Failed) == (OpenPhase::Finished { failed: true }) <==> {
            ||| o.phase is Locking
            ||| o.phase is Starting
            ||| o.phase is ReadingManifests
            ||| o.phase is LoadingSnapshots
            ||| o.phase is Replaying
            ||| o.phase is FillingIndexes
            ||| o.phase is Counting
            ||| o.phase is Migrating
        },
{
}

/// While an opening takes in what is on disk, the engine writes nothing to its log; it writes again
/// once the tables are there.
pub proof fn nothing_is_logged_while_loading(phase: OpenPhase)
    ensures
        phase is Locking || phase is Starting || phase is ReadingManifests
            || phase is LoadingVolumes || phase is LoadingSnapshots || phase is LoadingStandalone
            || phase is Replaying || phase is FillingDefaults || phase is FillingIndexes
            || phase is Counting ==> !phase_writes_log(phase),
        phase is Migrating || phase is LookingForRows || phase is Sealing || phase is Persisting
            ==> phase_writes_log(phase),
        phase == (OpenPhase::Finished { failed: false }) ==> phase_writes_log(phase),
        phase == (OpenPhase::Finished { failed: true }) ==> !phase_writes_log(phase),
{
}

} // verus!
