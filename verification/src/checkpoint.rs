//! The checkpoint: seal the rows in memory, and truncate the log where nothing needs it any more.

use crate::hot_limits::seal_threshold;
use crate::seal::{HotTable, is_sealed};
use vstd::prelude::*;

verus! {

/// What a checkpoint does next.
#[derive(Debug, Clone, Copy, PartialEq, Eq, Structural)]
pub enum CheckpointPhase {
    /// Seal the tables that are over their thresholds, or all where `forced`.
    Sealing { forced: bool },
    /// Wake the commits that wait for room; the seal failed or not.
    Notifying { failed: bool },
    /// Keep commits out, and see whether rows are left in memory.
    Fencing,
    /// Take the position in the log up to which volumes hold everything; commits are still kept out.
    Cutting,
    /// Write copies of the catalog to the log and make the log durable.
    Recording { lsn: u64 },
    /// Make the position the one that recovery starts from.
    Publishing { lsn: u64 },
    /// Write the manifests, with the position where it is not 0.
    Persisting { lsn: u64 },
    /// Drop the log up to the position.
    Truncating { lsn: u64 },
    /// Nothing more.
    Finished { failed: bool },
}

/// How a step of a checkpoint went.
#[derive(Debug, Clone, Copy, PartialEq, Eq, Structural)]
pub enum CheckpointEvent {
    Done,
    Failed,
    /// Commits are kept out; whether rows are left in memory.
    Rows { left: bool },
    /// Commits could not be kept out in time.
    TimedOut,
    /// The position in the log was taken.
    Cut { lsn: u64 },
}

/// A checkpoint.
#[derive(Debug, Clone, Copy, PartialEq, Eq, Structural)]
pub struct CheckpointRun {
    pub phase: CheckpointPhase,
}

/// A checkpoint after an event.
pub open spec fn checkpoint_after(c: CheckpointRun, event: CheckpointEvent) -> CheckpointRun {
    let phase = match c.phase {
        CheckpointPhase::Sealing { forced } => CheckpointPhase::Notifying {
            failed: event is Failed,
        },
        CheckpointPhase::Notifying { failed } => if failed {
            CheckpointPhase::Finished { failed: true }
        } else {
            CheckpointPhase::Fencing
        },
        CheckpointPhase::Fencing => match event {
            CheckpointEvent::Rows { left: false } => CheckpointPhase::Cutting,
            _ => CheckpointPhase::Persisting { lsn: 0 },
        },
        CheckpointPhase::Cutting => match event {
            CheckpointEvent::Failed => CheckpointPhase::Finished { failed: true },
            CheckpointEvent::Cut { lsn } => if lsn > 0 {
                CheckpointPhase::Recording { lsn }
            } else {
                CheckpointPhase::Persisting { lsn: 0 }
            },
            _ => CheckpointPhase::Persisting { lsn: 0 },
        },
        CheckpointPhase::Recording { lsn } => match event {
            CheckpointEvent::Failed => CheckpointPhase::Finished { failed: false },
            _ => CheckpointPhase::Publishing { lsn },
        },
        CheckpointPhase::Publishing { lsn } => match event {
            CheckpointEvent::Failed => CheckpointPhase::Finished { failed: true },
            _ => CheckpointPhase::Persisting { lsn },
        },
        CheckpointPhase::Persisting { lsn } => match event {
            CheckpointEvent::Failed => CheckpointPhase::Finished { failed: false },
            _ => if lsn > 0 {
                CheckpointPhase::Truncating { lsn }
            } else {
                CheckpointPhase::Finished { failed: false }
            },
        },
        CheckpointPhase::Truncating { lsn } => CheckpointPhase::Finished { failed: false },
        CheckpointPhase::Finished { failed } => CheckpointPhase::Finished { failed },
    };
    CheckpointRun { phase }
}

/// A checkpoint before its first step: none is made of a database in memory.
pub open spec fn new_checkpoint(persistent: bool, force: bool) -> CheckpointRun {
    CheckpointRun {
        phase: if persistent {
            CheckpointPhase::Sealing { forced: force }
        } else {
            CheckpointPhase::Finished { failed: false }
        },
    }
}

impl CheckpointRun {
    /// A checkpoint before its first step.
    pub fn new(persistent: bool, force: bool) -> (c: CheckpointRun)
        ensures
            c == new_checkpoint(persistent, force),
    {
        CheckpointRun {
            phase: if persistent {
                CheckpointPhase::Sealing { forced: force }
            } else {
                CheckpointPhase::Finished { failed: false }
            },
        }
    }

    /// Goes on after the step of the phase, which went as the event says. Tables below their
    /// thresholds are sealed by force alone. Where rows are left in memory, the log stays as it is.
    pub fn step(&mut self, event: CheckpointEvent)
        ensures
            *final(self) == checkpoint_after(*old(self), event),
    {
        let failed: bool = matches!(event, CheckpointEvent::Failed);
        self.phase = match self.phase {
            CheckpointPhase::Sealing { forced } => CheckpointPhase::Notifying { failed },
            CheckpointPhase::Notifying { failed: seal_failed } => if seal_failed {
                CheckpointPhase::Finished { failed: true }
            } else {
                CheckpointPhase::Fencing
            },
            CheckpointPhase::Fencing => match event {
                CheckpointEvent::Rows { left } => if left {
                    CheckpointPhase::Persisting { lsn: 0 }
                } else {
                    CheckpointPhase::Cutting
                },
                _ => CheckpointPhase::Persisting { lsn: 0 },
            },
            CheckpointPhase::Cutting => match event {
                CheckpointEvent::Failed => CheckpointPhase::Finished { failed: true },
                CheckpointEvent::Cut { lsn } => if lsn > 0 {
                    CheckpointPhase::Recording { lsn }
                } else {
                    CheckpointPhase::Persisting { lsn: 0 }
                },
                _ => CheckpointPhase::Persisting { lsn: 0 },
            },
            CheckpointPhase::Recording { lsn } => if failed {
                CheckpointPhase::Finished { failed: false }
            } else {
                CheckpointPhase::Publishing { lsn }
            },
            CheckpointPhase::Publishing { lsn } => if failed {
                CheckpointPhase::Finished { failed: true }
            } else {
                CheckpointPhase::Persisting { lsn }
            },
            CheckpointPhase::Persisting { lsn } => if !failed && lsn > 0 {
                CheckpointPhase::Truncating { lsn }
            } else {
                CheckpointPhase::Finished { failed: false }
            },
            CheckpointPhase::Truncating { lsn } => CheckpointPhase::Finished { failed: false },
            CheckpointPhase::Finished { failed: before } => CheckpointPhase::Finished {
                failed: before,
            },
        };
    }
}

/// Whether no table has rows in memory.
pub fn all_sealed(row_counts: &[usize]) -> (r: bool)
    ensures
        r == forall|i: int| 0 <= i < row_counts@.len() ==> #[trigger] row_counts@[i] == 0,
{
    let mut i: usize = 0;
    while i < row_counts.len()
        invariant
            i <= row_counts@.len(),
            forall|k: int| 0 <= k < i ==> #[trigger] row_counts@[k] == 0,
        decreases row_counts@.len() - i,
    {
        if row_counts[i] != 0 {
            return false;
        }
        i = i + 1;
    }
    true
}

// ---------------------------------------------------------------------------
// Laws
// ---------------------------------------------------------------------------

/// A checkpoint after some events.
pub open spec fn checkpoint_trace(
    persistent: bool,
    force: bool,
    events: Seq<CheckpointEvent>,
) -> CheckpointRun
    decreases events.len(),
{
    if events.len() == 0 {
        new_checkpoint(persistent, force)
    } else {
        checkpoint_after(checkpoint_trace(persistent, force, events.drop_last()), events.last())
    }
}

/// The log is dropped up to a position only after, in this order: with commits kept out, no row was
/// left in memory and the position was taken; copies of the catalog became durable in the log; the
/// position was made the one that recovery starts from; and every manifest was written.
pub proof fn log_is_truncated_last(
    persistent: bool,
    force: bool,
    events: Seq<CheckpointEvent>,
    lsn: u64,
)
    requires
        checkpoint_trace(persistent, force, events).phase == (CheckpointPhase::Truncating { lsn }),
    ensures
        persistent,
        lsn > 0,
        events.len() >= 7,
        ({
            let n = events.len();
            &&& events[n - 5] == (CheckpointEvent::Rows { left: false })
            &&& events[n - 4] == (CheckpointEvent::Cut { lsn })
            &&& !(events[n - 3] is Failed)
            &&& !(events[n - 2] is Failed)
            &&& !(events[n - 1] is Failed)
        }),
{
    lemma_checkpoint_shape(persistent, force, events);
}

/// Whether the last events of some ended with the position being taken, and `n` more that did not
/// fail.
spec fn was_cut(events: Seq<CheckpointEvent>, lsn: u64, n: int) -> bool {
    let len = events.len();
    &&& lsn > 0
    &&& len >= 4 + n
    &&& events[len - n - 2] == (CheckpointEvent::Rows { left: false })
    &&& events[len - n - 1] == (CheckpointEvent::Cut { lsn })
    &&& forall|i: int| len - n <= i < len ==> !(#[trigger] events[i] is Failed)
}

proof fn lemma_checkpoint_shape(persistent: bool, force: bool, events: Seq<CheckpointEvent>)
    ensures
        ({
            let n = events.len();
            match checkpoint_trace(persistent, force, events).phase {
                CheckpointPhase::Sealing { forced } => persistent,
                CheckpointPhase::Notifying { failed } => persistent && n >= 1,
                CheckpointPhase::Fencing => persistent && n >= 2,
                CheckpointPhase::Cutting => persistent && n >= 3 && events[n - 1] == (
                CheckpointEvent::Rows { left: false }),
                CheckpointPhase::Recording { lsn } => persistent && was_cut(events, lsn, 0),
                CheckpointPhase::Publishing { lsn } => persistent && was_cut(events, lsn, 1),
                CheckpointPhase::Persisting { lsn } => persistent && (lsn > 0 ==> was_cut(
                    events,
                    lsn,
                    2,
                )),
                CheckpointPhase::Truncating { lsn } => persistent && was_cut(events, lsn, 3),
                CheckpointPhase::Finished { failed } => true,
            }
        }),
    decreases events.len(),
{
    if events.len() > 0 {
        let before = events.drop_last();
        lemma_checkpoint_shape(persistent, force, before);
        assert(forall|i: int| 0 <= i < before.len() ==> before[i] == events[i]);
        assert(events.last() == events[events.len() - 1]);
    }
}

/// Commits that wait for room are woken by every checkpoint right after the seal, whether or not that
/// failed.
pub proof fn waiting_commits_are_woken(c: CheckpointRun, event: CheckpointEvent)
    requires
        c.phase is Sealing,
    ensures
        checkpoint_after(c, event).phase == (CheckpointPhase::Notifying { failed: event is Failed }),
{
}

/// A checkpoint seals by force only where it is forced. One that is not respects the thresholds: a
/// table below its threshold is not sealed at any step, and its rows stay in memory.
pub proof fn thresholds_are_respected(
    persistent: bool,
    force: bool,
    events: Seq<CheckpointEvent>,
    t: HotTable,
    max_rows: nat,
)
    ensures
        checkpoint_trace(persistent, force, events).phase matches CheckpointPhase::Sealing { forced }
            ==> forced == force && (!force && t.rows < seal_threshold(max_rows, t.has_segments)
            ==> !is_sealed(t, max_rows, forced)),
    decreases events.len(),
{
    if events.len() > 0 {
        thresholds_are_respected(persistent, force, events.drop_last(), t, max_rows);
    }
}

// ---------------------------------------------------------------------------
// Closing
// ---------------------------------------------------------------------------

/// The number of checkpoints that are tried when the engine closes.
pub const CLOSE_ATTEMPTS: u32 = 5;

/// What follows a checkpoint of a closing engine.
#[derive(Debug, Clone, Copy, PartialEq, Eq, Structural)]
pub enum CloseStep {
    /// Wait a moment, then checkpoint again.
    WaitAndRetry,
    /// Compact and close.
    GoOn,
}

/// What follows the checkpoint number `attempt`, counted from 0, of a closing engine. Commits that
/// were under way may add rows between two seals, so it is tried again while rows are left.
pub fn after_closing_checkpoint(attempt: u32, failed: bool, rows_left: bool) -> (step: CloseStep)
    ensures
        step == if !failed && rows_left && attempt + 1 < CLOSE_ATTEMPTS {
            CloseStep::WaitAndRetry
        } else {
            CloseStep::GoOn
        },
{
    if failed || !rows_left || attempt >= CLOSE_ATTEMPTS - 1 {
        CloseStep::GoOn
    } else {
        CloseStep::WaitAndRetry
    }
}

// ---------------------------------------------------------------------------
// In the background
// ---------------------------------------------------------------------------

/// The time between two rounds in the background, in nanoseconds: the interval of the clean-up, or
/// that of checkpoints where there is one and it is shorter.
pub fn round_interval(cleanup_interval: u64, checkpoint_interval: u64) -> (r: u64)
    ensures
        r == if 0 < checkpoint_interval < cleanup_interval {
            checkpoint_interval
        } else {
            cleanup_interval
        },
{
    if 0 < checkpoint_interval && checkpoint_interval < cleanup_interval {
        checkpoint_interval
    } else {
        cleanup_interval
    }
}

/// The time since the last clean-up in the background.
#[derive(Debug, Clone, Copy, PartialEq, Eq, Structural)]
pub struct CleanupClock {
    pub since_cleanup: u64,
}

impl CleanupClock {
    /// Adds the time that went by, and says whether it is time for a clean-up; the time then starts
    /// anew.
    pub fn advance(&mut self, elapsed: u64, interval: u64) -> (due: bool)
        requires
            old(self).since_cleanup + elapsed <= u64::MAX,
        ensures
            due == (old(self).since_cleanup + elapsed >= interval),
            final(self).since_cleanup == if due {
                0
            } else {
                old(self).since_cleanup + elapsed
            },
    {
        let total: u64 = self.since_cleanup + elapsed;
        if total >= interval {
            self.since_cleanup = 0;
            true
        } else {
            self.since_cleanup = total;
            false
        }
    }
}

/// `now - last`, moved into the range of the type.
pub open spec fn elapsed_nanos(now: i64, last: i64) -> i64 {
    if now - last > i64::MAX {
        i64::MAX
    } else if now - last < i64::MIN {
        i64::MIN
    } else {
        (now - last) as i64
    }
}

/// Whether a round in the background makes a checkpoint: a commit asked for it, or there is an
/// interval and the last checkpoint is as long ago. Times are in nanoseconds.
pub fn checkpoint_is_due(requested: bool, interval: i64, last: i64, now: i64) -> (due: bool)
    ensures
        due == (requested || (interval > 0 && elapsed_nanos(now, last) >= interval)),
{
    let elapsed: i128 = now as i128 - last as i128;
    requested || (interval > 0 && elapsed >= interval as i128)
}

} // verus!
