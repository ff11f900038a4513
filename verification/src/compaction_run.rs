//! The rewrite of a table's volumes, step by step.

use crate::batch_merge::{are_members, carries_batch, holds_row, newest_copy_is_carried};
use crate::live_rows::{RowPlace, tombstoned};
use crate::row_set::{
    contains_row, get_row_value, holds_entries, insert_row_value, new_row_map, row_entries,
};
use rustc_hash::{FxHashMap, FxHashSet};
use vstd::prelude::*;

verus! {

/// How a rewrite ends.
#[derive(Debug, Clone, Copy, PartialEq, Eq, Structural)]
pub enum RewriteOutcome {
    /// The new volumes are in place and the old files gone.
    Replaced,
    /// The new volumes are in place; the manifest could not be written, so the old files stay.
    FilesKept,
    /// Nothing has changed.
    Failed,
}

/// What a rewrite does next.
#[derive(Debug, Clone, Copy, PartialEq, Eq, Structural)]
pub enum RewritePhase {
    /// Write the new volume at the position, and its side file.
    Writing { output: usize },
    /// Read the rows of the old volumes, whose tombstones are cleared.
    Collecting,
    /// Remove the files of so many new volumes.
    Discarding { written: usize },
    /// Put the new volumes in the place of the old ones; just take those out where there are none.
    Publishing,
    /// Clear the tombstones that were applied.
    Clearing,
    /// Write the manifest.
    Persisting,
    /// Remove the files of the old volumes.
    Removing,
    /// Nothing more.
    Finished { outcome: RewriteOutcome },
}

/// How a step of a rewrite went.
#[derive(Debug, Clone, Copy, PartialEq, Eq, Structural)]
pub enum RewriteEvent {
    Done,
    Failed,
    /// A seal added a volume meanwhile: the publication is prepared again.
    Moved,
}

/// A rewrite of a batch of volumes.
#[derive(Debug, Clone, Copy, PartialEq, Eq, Structural)]
pub struct RewriteRun {
    pub phase: RewritePhase,
    /// The number of new volumes; none where no row is live.
    pub outputs: usize,
}

/// A rewrite before its first step.
pub open spec fn new_rewrite(outputs: usize) -> RewriteRun {
    RewriteRun {
        phase: if outputs == 0 {
            RewritePhase::Collecting
        } else {
            RewritePhase::Writing { output: 0 }
        },
        outputs,
    }
}

/// A rewrite after an event.
pub open spec fn rewrite_after(r: RewriteRun, event: RewriteEvent) -> RewriteRun {
    let failed = event is Failed;
    let phase = match r.phase {
        RewritePhase::Writing { output } => if failed {
            RewritePhase::Discarding { written: output }
        } else if output + 1 < r.outputs {
            RewritePhase::Writing { output: (output + 1) as usize }
        } else {
            RewritePhase::Collecting
        },
        RewritePhase::Collecting => if failed {
            RewritePhase::Discarding { written: r.outputs }
        } else {
            RewritePhase::Publishing
        },
        RewritePhase::Discarding { written } => RewritePhase::Finished {
            outcome: RewriteOutcome::Failed,
        },
        RewritePhase::Publishing => if event is Moved {
            RewritePhase::Publishing
        } else {
            RewritePhase::Clearing
        },
        RewritePhase::Clearing => RewritePhase::Persisting,
        RewritePhase::Persisting => if failed {
            RewritePhase::Finished { outcome: RewriteOutcome::FilesKept }
        } else {
            RewritePhase::Removing
        },
        RewritePhase::Removing => RewritePhase::Finished { outcome: RewriteOutcome::Replaced },
        RewritePhase::Finished { outcome } => RewritePhase::Finished { outcome },
    };
    RewriteRun { phase, ..r }
}

impl RewriteRun {
    /// A rewrite with so many new volumes, before its first step.
    pub fn new(outputs: usize) -> (r: RewriteRun)
        ensures
            r == new_rewrite(outputs),
    {
        RewriteRun {
            phase: if outputs == 0 {
                RewritePhase::Collecting
            } else {
                RewritePhase::Writing { output: 0 }
            },
            outputs,
        }
    }

    /// Goes on after the step of the phase, which went as the event says. What was written is removed
    /// again where a new volume fails. The old files stay until a manifest without them is written.
    pub fn step(&mut self, event: RewriteEvent)
        ensures
            *final(self) == rewrite_after(*old(self), event),
    {
        let failed: bool = matches!(event, RewriteEvent::Failed);
        self.phase = match self.phase {
            RewritePhase::Writing { output } => if failed {
                RewritePhase::Discarding { written: output }
            } else if output < self.outputs && output + 1 < self.outputs {
                RewritePhase::Writing { output: output + 1 }
            } else {
                RewritePhase::Collecting
            },
            RewritePhase::Collecting => if failed {
                RewritePhase::Discarding { written: self.outputs }
            } else {
                RewritePhase::Publishing
            },
            RewritePhase::Discarding { written } => RewritePhase::Finished {
                outcome: RewriteOutcome::Failed,
            },
            RewritePhase::Publishing => if matches!(event, RewriteEvent::Moved) {
                RewritePhase::Publishing
            } else {
                RewritePhase::Clearing
            },
            RewritePhase::Clearing => RewritePhase::Persisting,
            RewritePhase::Persisting => if failed {
                RewritePhase::Finished { outcome: RewriteOutcome::FilesKept }
            } else {
                RewritePhase::Removing
            },
            RewritePhase::Removing => RewritePhase::Finished { outcome: RewriteOutcome::Replaced },
            RewritePhase::Finished { outcome } => RewritePhase::Finished { outcome },
        };
    }
}

// ---------------------------------------------------------------------------
// Tombstones
// ---------------------------------------------------------------------------

/// The tombstones after a rewrite: those that it applied to its rows are gone. One that was set anew
/// meanwhile stays.
pub open spec fn tombstones_rewritten(
    tombstones: Map<i64, u64>,
    applied: Map<i64, u64>,
    rows: Set<i64>,
) -> Map<i64, u64> {
    Map::new(
        |x: i64|
            tombstones.contains_key(x) && !(rows.contains(x) && applied.contains_key(x)
                && applied[x] == tombstones[x]),
        |x: i64| tombstones[x],
    )
}

/// The tombstones after a rewrite of `rows` that applied `applied`.
pub fn tombstones_after_rewrite(
    tombstones: &FxHashMap<i64, u64>,
    applied: &FxHashMap<i64, u64>,
    rows: &FxHashSet<i64>,
) -> (r: FxHashMap<i64, u64>)
    ensures
        r@ == tombstones_rewritten(tombstones@, applied@, rows@),
{
    let entries = row_entries(tombstones);
    let ghost goal = tombstones_rewritten(tombstones@, applied@, rows@);
    let mut out = new_row_map();
    let mut i: usize = 0;
    while i < entries.len()
        invariant
            i <= entries@.len(),
            holds_entries(entries@, tombstones@),
            goal == tombstones_rewritten(tombstones@, applied@, rows@),
            forall|x: i64| #[trigger]
                out@.contains_key(x) <==> goal.contains_key(x) && exists|k: int|
                    0 <= k < i && (#[trigger] entries@[k]).0 == x,
            forall|x: i64| #[trigger] out@.contains_key(x) ==> out@[x] == tombstones@[x],
        decreases entries@.len() - i,
    {
        let (row_id, seq) = entries[i];
        let ghost before = out@;
        assert(tombstones@.contains_key(entries@[i as int].0));
        let cleared: bool = contains_row(rows, row_id) && match get_row_value(applied, row_id) {
            Some(s) => s == seq,
            None => false,
        };
        assert(cleared == !goal.contains_key(row_id));
        if !cleared {
            insert_row_value(&mut out, row_id, seq);
        }
        proof {
            assert forall|x: i64| #[trigger] out@.contains_key(x) <==> goal.contains_key(x)
                && exists|k: int| 0 <= k < i + 1 && (#[trigger] entries@[k]).0 == x by {
                if before.contains_key(x) {
                    let k = choose|k: int| 0 <= k < i && (#[trigger] entries@[k]).0 == x;
                    assert(entries@[k].0 == x);
                }
                if x == row_id {
                    assert(entries@[i as int].0 == x);
                }
                if exists|k: int| 0 <= k < i + 1 && (#[trigger] entries@[k]).0 == x {
                    let k = choose|k: int| 0 <= k < i + 1 && (#[trigger] entries@[k]).0 == x;
                    if k < i {
                        assert(entries@[k].0 == x);
                    }
                }
            }
        }
        i = i + 1;
    }
    assert(out@ =~= goal);
    out
}

// ---------------------------------------------------------------------------
// Laws
// ---------------------------------------------------------------------------

/// Whether a reader sees a row that a volume holds: no tombstone for it stands at or before the
/// reader's point in time.
pub open spec fn is_seen(tombstones: Map<i64, u64>, reader: u64, row_id: i64) -> bool {
    !(tombstones.contains_key(row_id) && tombstones[row_id] <= reader)
}

/// A rewrite changes nothing for a reader: a row of the old volumes is seen before it exactly where
/// it is in the new volumes and seen there after it. The readers are those that a rewrite with the
/// given limit allows for: it applies tombstones from before the limit, or all where there is none.
pub proof fn rewrite_keeps_what_readers_see(
    refs: Seq<RowPlace>,
    members: Seq<usize>,
    volumes: Seq<Seq<i64>>,
    tombstones: Map<i64, u64>,
    limit: Option<u64>,
    applied: Map<i64, u64>,
    rows: Set<i64>,
    reader: u64,
    v: int,
    i: int,
)
    requires
        are_members(members, volumes.len()),
        carries_batch(refs, members, volumes, tombstones, limit),
        forall|x: i64| #[trigger] applied.contains_key(x) <==> tombstoned(tombstones, limit, x),
        forall|x: i64| #[trigger] applied.contains_key(x) ==> applied[x] == tombstones[x],
        holds_row(members, volumes, v, i),
        rows.contains(volumes[v][i]),
        match limit {
            Some(l) => reader >= l,
            None => forall|x: i64| #[trigger]
                tombstones.contains_key(x) ==> tombstones[x] <= reader,
        },
    ensures
        is_seen(tombstones, reader, volumes[v][i]) <==> {
            &&& exists|k: int| 0 <= k < refs.len() && (#[trigger] refs[k]).0 == volumes[v][i]
            &&& is_seen(tombstones_rewritten(tombstones, applied, rows), reader, volumes[v][i])
        },
{
    newest_copy_is_carried(refs, members, volumes, tombstones, limit, v, i);
}

/// A rewrite after some events.
pub open spec fn rewrite_trace(outputs: usize, events: Seq<RewriteEvent>) -> RewriteRun
    decreases events.len(),
{
    if events.len() == 0 {
        new_rewrite(outputs)
    } else {
        rewrite_after(rewrite_trace(outputs, events.drop_last()), events.last())
    }
}

/// The old files go only after every new volume was written and a manifest that names the new ones
/// was written.
pub proof fn old_files_go_last(outputs: usize, events: Seq<RewriteEvent>)
    requires
        rewrite_trace(outputs, events).phase is Removing,
    ensures
        events.len() >= outputs + 4,
        forall|i: int| 0 <= i <= outputs ==> !(#[trigger] events[i] is Failed),
        !(events[events.len() - 1] is Failed),
{
    lemma_rewrite_shape(outputs, events);
}

/// Where a rewrite fails, the files that are removed again are those of the new volumes that were
/// written: the first ones, up to the one that failed.
pub proof fn failed_rewrite_removes_its_files(outputs: usize, events: Seq<RewriteEvent>, written: usize)
    requires
        rewrite_trace(outputs, events).phase == (RewritePhase::Discarding { written }),
    ensures
        written <= outputs,
        events.len() == written + 1,
        events[written as int] is Failed,
        forall|i: int| 0 <= i < written ==> !(#[trigger] events[i] is Failed),
{
    lemma_rewrite_shape(outputs, events);
}

proof fn lemma_rewrite_shape(outputs: usize, events: Seq<RewriteEvent>)
    ensures
        ({
            let n = events.len();
            let r = rewrite_trace(outputs, events);
            &&& r.outputs == outputs
            &&& match r.phase {
                RewritePhase::Writing { output } => n == output && output < outputs && forall|i: int|
                    0 <= i < n ==> !(#[trigger] events[i] is Failed),
                RewritePhase::Collecting => n == outputs && forall|i: int|
                    0 <= i < n ==> !(#[trigger] events[i] is Failed),
                RewritePhase::Discarding { written } => written <= outputs && n == written + 1
                    && events[written as int] is Failed && forall|i: int|
                    0 <= i < written ==> !(#[trigger] events[i] is Failed),
                RewritePhase::Publishing => n >= outputs + 1 && forall|i: int|
                    0 <= i <= outputs ==> !(#[trigger] events[i] is Failed),
                RewritePhase::Clearing => n >= outputs + 2 && forall|i: int|
                    0 <= i <= outputs ==> !(#[trigger] events[i] is Failed),
                RewritePhase::Persisting => n >= outputs + 3 && forall|i: int|
                    0 <= i <= outputs ==> !(#[trigger] events[i] is Failed),
                RewritePhase::Removing => n >= outputs + 4 && !(events[n - 1] is Failed)
                    && forall|i: int| 0 <= i <= outputs ==> !(#[trigger] events[i] is Failed),
                RewritePhase::Finished { outcome } => true,
            }
        }),
    decreases events.len(),
{
    if events.len() > 0 {
        let before = events.drop_last();
        lemma_rewrite_shape(outputs, before);
        assert(forall|i: int| 0 <= i < before.len() ==> before[i] == events[i]);
        assert(events.last() == events[events.len() - 1]);
    }
}

} // verus!
