//! The course of a restore, step by step.

use crate::restore::RestoreProgress;
use vstd::prelude::*;

verus! {

/// How a restore ends.
#[derive(Debug, Clone, Copy, PartialEq, Eq, Structural)]
pub enum RestoreOutcome {
    Restored,
    /// Transactions were still active after the wait for them.
    StillActive,
    /// The directory of the snapshots could not be read.
    DirectoryUnreadable,
    NoMatchingSnapshots,
    /// Of the table in the directory at the position no snapshot that could be taken is intact.
    InvalidSnapshot { directory: usize },
    /// There is no file with the indexes and views of the time stamp that was asked for.
    MissingDefinitions,
    /// The snapshot at the position could not be loaded.
    LoadFailed { position: usize },
    /// The largest row ids of the volumes could not be read.
    CountersFailed,
    /// The restored rows could not be made durable.
    NotDurable,
    CompactionFailed,
}

/// What a restore does next.
#[derive(Debug, Clone, Copy, PartialEq, Eq, Structural)]
pub enum RestorePhase {
    /// Refuse new transactions and wait for those that are active.
    Draining,
    /// Open the tables' snapshots, and their volume files, from the newest on, and choose of each
    /// table the first that is intact.
    Choosing,
    /// Find the indexes and views.
    Defining,
    /// Remove what the engine has.
    Clearing,
    /// Load the snapshot at the position.
    Loading { position: usize },
    /// Make what was loaded durable, after the snapshot at the position could not be loaded.
    PersistingPart { failed: usize },
    /// Make the indexes and views, and the columns' default values.
    Redefining,
    /// Raise the row id counters to the largest ids of the volumes.
    Counting,
    /// Invalidate the caches and record the schemas, indexes and views in the log.
    Recording,
    /// Seal all rows and truncate the log.
    Checkpointing,
    /// Compact the volumes.
    Compacting,
    /// Accept transactions again.
    Accepting { outcome: RestoreOutcome },
    /// Nothing more.
    Finished { outcome: RestoreOutcome },
}

/// How a step of a restore went.
#[derive(Debug, Clone, Copy, PartialEq, Eq, Structural)]
pub enum RestoreEvent {
    Done,
    Failed,
    /// So many snapshots were chosen; each is intact.
    Chosen { count: usize },
    /// No snapshot that could be taken of the table in the directory at the position is intact.
    Invalid { directory: usize },
    /// A snapshot was loaded: its table has so many rows in memory and in volumes.
    Loaded { hot_rows: u64, cold_rows: u64 },
}

/// The number of snapshots that an event says were chosen.
pub open spec fn chosen_count(event: RestoreEvent) -> usize {
    match event {
        RestoreEvent::Chosen { count } => count,
        _ => 0,
    }
}

/// The rows that an event says were loaded.
pub open spec fn loaded_rows(event: RestoreEvent) -> int {
    match event {
        RestoreEvent::Loaded { hot_rows, cold_rows } => hot_rows + cold_rows,
        _ => 0,
    }
}

/// A restore.
#[derive(Debug, Clone, Copy, PartialEq, Eq, Structural)]
pub struct RestoreRun {
    pub phase: RestorePhase,
    /// The number of chosen snapshots.
    pub count: usize,
    pub progress: RestoreProgress,
}

/// The phase after an event.
pub open spec fn phase_after(r: RestoreRun, event: RestoreEvent) -> RestorePhase {
    let failed = event is Failed;
    match r.phase {
        RestorePhase::Draining => if failed {
            RestorePhase::Accepting { outcome: RestoreOutcome::StillActive }
        } else {
            RestorePhase::Choosing
        },
        RestorePhase::Choosing => match event {
            RestoreEvent::Invalid { directory } => RestorePhase::Accepting {
                outcome: RestoreOutcome::InvalidSnapshot { directory },
            },
            RestoreEvent::Failed => RestorePhase::Accepting {
                outcome: RestoreOutcome::DirectoryUnreadable,
            },
            _ => if chosen_count(event) == 0 {
                RestorePhase::Accepting { outcome: RestoreOutcome::NoMatchingSnapshots }
            } else {
                RestorePhase::Defining
            },
        },
        RestorePhase::Defining => if failed {
            RestorePhase::Accepting { outcome: RestoreOutcome::MissingDefinitions }
        } else {
            RestorePhase::Clearing
        },
        RestorePhase::Clearing => RestorePhase::Loading { position: 0 },
        RestorePhase::Loading { position } => if failed {
            if r.progress.tables > 0 {
                RestorePhase::PersistingPart { failed: position }
            } else {
                RestorePhase::Accepting { outcome: RestoreOutcome::LoadFailed { position } }
            }
        } else if position + 1 < r.count {
            RestorePhase::Loading { position: (position + 1) as usize }
        } else {
            RestorePhase::Redefining
        },
        RestorePhase::PersistingPart { failed } => RestorePhase::Accepting {
            outcome: RestoreOutcome::LoadFailed { position: failed },
        },
        RestorePhase::Redefining => RestorePhase::Counting,
        RestorePhase::Counting => if failed {
            RestorePhase::Accepting { outcome: RestoreOutcome::CountersFailed }
        } else {
            RestorePhase::Recording
        },
        RestorePhase::Recording => RestorePhase::Checkpointing,
        RestorePhase::Checkpointing => if failed {
            RestorePhase::Accepting { outcome: RestoreOutcome::NotDurable }
        } else {
            RestorePhase::Compacting
        },
        RestorePhase::Compacting => RestorePhase::Accepting {
            outcome: if failed {
                RestoreOutcome::CompactionFailed
            } else {
                RestoreOutcome::Restored
            },
        },
        RestorePhase::Accepting { outcome } => RestorePhase::Finished { outcome },
        RestorePhase::Finished { outcome } => RestorePhase::Finished { outcome },
    }
}

/// What has been loaded after an event.
pub open spec fn progress_after(r: RestoreRun, event: RestoreEvent) -> RestoreProgress {
    if r.phase is Loading && !(event is Failed) {
        RestoreProgress {
            tables: (r.progress.tables + 1) as u32,
            rows: (r.progress.rows + loaded_rows(event)) as u64,
        }
    } else {
        r.progress
    }
}

/// A restore after an event.
pub open spec fn restore_after(r: RestoreRun, event: RestoreEvent) -> RestoreRun {
    RestoreRun {
        phase: phase_after(r, event),
        count: if r.phase is Choosing {
            chosen_count(event)
        } else {
            r.count
        },
        progress: progress_after(r, event),
    }
}

/// A restore before its first step.
pub open spec fn new_restore() -> RestoreRun {
    RestoreRun {
        phase: RestorePhase::Draining,
        count: 0,
        progress: RestoreProgress { tables: 0, rows: 0 },
    }
}

impl RestoreRun {
    /// A restore before its first step.
    pub fn new() -> (r: RestoreRun)
        ensures
            r == new_restore(),
    {
        RestoreRun { phase: RestorePhase::Draining, count: 0, progress: RestoreProgress::new() }
    }

    /// Goes on after the step of the phase, which went as the event says. A table that cannot be
    /// loaded ends the restore; what was loaded before is made durable first. A failure to record
    /// the definitions, or to make a part durable, ends nothing.
    pub fn step(&mut self, event: RestoreEvent)
        requires
            old(self).progress.tables < u32::MAX,
            old(self).progress.rows + loaded_rows(event) <= u64::MAX,
        ensures
            *final(self) == restore_after(*old(self), event),
    {
        let failed: bool = matches!(event, RestoreEvent::Failed);
        match self.phase {
            RestorePhase::Draining => {
                self.phase = if failed {
                    RestorePhase::Accepting { outcome: RestoreOutcome::StillActive }
                } else {
                    RestorePhase::Choosing
                };
            },
            RestorePhase::Choosing => {
                self.count = match event {
                    RestoreEvent::Chosen { count } => count,
                    _ => 0,
                };
                self.phase = match event {
                    RestoreEvent::Invalid { directory } => RestorePhase::Accepting {
                        outcome: RestoreOutcome::InvalidSnapshot { directory },
                    },
                    RestoreEvent::Failed => RestorePhase::Accepting {
                        outcome: RestoreOutcome::DirectoryUnreadable,
                    },
                    _ => if self.count == 0 {
                        RestorePhase::Accepting { outcome: RestoreOutcome::NoMatchingSnapshots }
                    } else {
                        RestorePhase::Defining
                    },
                };
            },
            RestorePhase::Defining => {
                self.phase = if failed {
                    RestorePhase::Accepting { outcome: RestoreOutcome::MissingDefinitions }
                } else {
                    RestorePhase::Clearing
                };
            },
            RestorePhase::Clearing => {
                self.phase = RestorePhase::Loading { position: 0 };
            },
            RestorePhase::Loading { position } => {
                if failed {
                    self.phase = if self.progress.keeps_partial_restore() {
                        RestorePhase::PersistingPart { failed: position }
                    } else {
                        RestorePhase::Accepting { outcome: RestoreOutcome::LoadFailed { position } }
                    };
                } else {
                    match event {
                        RestoreEvent::Loaded { hot_rows, cold_rows } => {
                            self.progress.table_loaded(hot_rows, cold_rows);
                        },
                        _ => {
                            self.progress.table_loaded(0, 0);
                        },
                    }
                    self.phase = if position < self.count && position + 1 < self.count {
                        RestorePhase::Loading { position: position + 1 }
                    } else {
                        RestorePhase::Redefining
                    };
                }
            },
            RestorePhase::PersistingPart { failed: position } => {
                self.phase = RestorePhase::Accepting {
                    outcome: RestoreOutcome::LoadFailed { position },
                };
            },
            RestorePhase::Redefining => {
                self.phase = RestorePhase::Counting;
            },
            RestorePhase::Counting => {
                self.phase = if failed {
                    RestorePhase::Accepting { outcome: RestoreOutcome::CountersFailed }
                } else {
                    RestorePhase::Recording
                };
            },
            RestorePhase::Recording => {
                self.phase = RestorePhase::Checkpointing;
            },
            RestorePhase::Checkpointing => {
                self.phase = if failed {
                    RestorePhase::Accepting { outcome: RestoreOutcome::NotDurable }
                } else {
                    RestorePhase::Compacting
                };
            },
            RestorePhase::Compacting => {
                self.phase = RestorePhase::Accepting {
                    outcome: if failed {
                        RestoreOutcome::CompactionFailed
                    } else {
                        RestoreOutcome::Restored
                    },
                };
            },
            RestorePhase::Accepting { outcome } => {
                self.phase = RestorePhase::Finished { outcome };
            },
            RestorePhase::Finished { outcome } => {},
        }
    }
}

// ---------------------------------------------------------------------------
// Laws
// ---------------------------------------------------------------------------

/// A restore after some events.
pub open spec fn restore_trace(events: Seq<RestoreEvent>) -> RestoreRun
    decreases events.len(),
{
    if events.len() == 0 {
        new_restore()
    } else {
        restore_after(restore_trace(events.drop_last()), events.last())
    }
}

/// Whether a phase comes once the engine's tables are to be removed.
pub open spec fn is_destructive(phase: RestorePhase) -> bool {
    ||| phase is Clearing
    ||| phase is Loading
    ||| phase is PersistingPart
    ||| phase is Redefining
    ||| phase is Counting
    ||| phase is Recording
    ||| phase is Checkpointing
    ||| phase is Compacting
}

/// Nothing is removed from the engine before intact snapshots were chosen and the file with the
/// indexes and views was found or is not needed.
pub proof fn nothing_is_removed_unvalidated(events: Seq<RestoreEvent>)
    requires
        is_destructive(restore_trace(events).phase),
    ensures
        restore_trace(events).count > 0,
        events.len() >= 3,
        !(events[0] is Failed),
        events[1] == (RestoreEvent::Chosen { count: restore_trace(events).count }),
        !(events[2] is Failed),
{
    lemma_trace_shape(events);
}

/// A restore ends for want of an intact snapshot only where the choice found none for a table.
pub proof fn invalid_snapshot_comes_from_the_choice(
    r: RestoreRun,
    event: RestoreEvent,
    directory: usize,
)
    requires
        !(r.phase is Accepting),
        restore_after(r, event).phase == (RestorePhase::Accepting {
            outcome: RestoreOutcome::InvalidSnapshot { directory },
        }),
    ensures
        r.phase is Choosing,
        event == (RestoreEvent::Invalid { directory }),
{
}

proof fn lemma_trace_shape(events: Seq<RestoreEvent>)
    ensures
        ({
            let r = restore_trace(events);
            match r.phase {
                RestorePhase::Draining => r.count == 0 && events.len() == 0,
                RestorePhase::Choosing => r.count == 0 && events.len() == 1 && !(
                events[0] is Failed),
                RestorePhase::Defining => r.count > 0 && events.len() == 2 && !(
                events[0] is Failed) && events[1] == (RestoreEvent::Chosen { count: r.count }),
                RestorePhase::Accepting { outcome } => true,
                RestorePhase::Finished { outcome } => true,
                _ => r.count > 0 && events.len() >= 3 && !(events[0] is Failed) && events[1] == (
                RestoreEvent::Chosen { count: r.count }) && !(events[2] is Failed),
            }
        }),
    decreases events.len(),
{
    if events.len() > 0 {
        let before = events.drop_last();
        lemma_trace_shape(before);
        assert(forall|i: int| 0 <= i < before.len() ==> before[i] == events[i]);
        assert(events.last() == events[events.len() - 1]);
    }
}

/// However a restore ends, transactions are accepted again before it is finished.
pub proof fn restore_ends_with_transactions(r: RestoreRun, event: RestoreEvent)
    requires
        !(r.phase is Finished),
        restore_after(r, event).phase is Finished,
    ensures
        r.phase is Accepting,
        restore_after(r, event).phase->Finished_outcome == r.phase->Accepting_outcome,
{
}

/// A restore that ends well has loaded each chosen snapshot.
pub proof fn restored_tables_are_all_loaded(events: Seq<RestoreEvent>)
    requires
        restore_trace(events).count <= u32::MAX,
        ({
            let phase = restore_trace(events).phase;
            phase == (RestorePhase::Accepting { outcome: RestoreOutcome::Restored }) || phase == (
            RestorePhase::Finished { outcome: RestoreOutcome::Restored })
        }),
    ensures
        restore_trace(events).progress.tables == restore_trace(events).count,
{
    lemma_trace_progress(events);
}

proof fn lemma_trace_progress(events: Seq<RestoreEvent>)
    requires
        restore_trace(events).count <= u32::MAX,
    ensures
        ({
            let r = restore_trace(events);
            match r.phase {
                RestorePhase::Loading { position } => position < r.count && r.progress.tables
                    == position,
                RestorePhase::Redefining => r.progress.tables == r.count,
                RestorePhase::Counting => r.progress.tables == r.count,
                RestorePhase::Recording => r.progress.tables == r.count,
                RestorePhase::Checkpointing => r.progress.tables == r.count,
                RestorePhase::Compacting => r.progress.tables == r.count,
                RestorePhase::Accepting { outcome } => outcome is Restored ==> r.progress.tables
                    == r.count,
                RestorePhase::Finished { outcome } => outcome is Restored ==> r.progress.tables
                    == r.count,
                RestorePhase::PersistingPart { failed } => true,
                _ => r.progress.tables == 0,
            }
        }),
    decreases events.len(),
{
    if events.len() > 0 {
        let before = events.drop_last();
        lemma_trace_shape(events);
        lemma_trace_shape(before);
        if restore_trace(before).count <= u32::MAX {
            lemma_trace_progress(before);
        }
    }
}

} // verus!
