//! The seal of a table, step by step.

use vstd::prelude::*;

verus! {

/// What a seal does next.
#[derive(Debug, Clone, Copy, PartialEq, Eq, Structural)]
pub enum SealPhase {
    /// Write the rows to volumes.
    Writing,
    /// Build the volumes' unique indexes.
    Indexing,
    /// Build the side file of the volume at the position.
    BuildingSide { volume: usize },
    /// Remove the files of the volumes again.
    Discarding,
    /// Keep writers out, and register the volumes.
    Registering,
    /// Take the batch of rows at the position out of memory, but for those that changed meanwhile.
    Removing { batch: usize },
    /// Hide the copies of the rows that changed meanwhile, and clear the tombstones of the others.
    SettlingTombstones,
    /// Raise the row id counter and take the removed rows out of the indexes; then let writers in.
    Settling,
    /// Nothing more.
    Finished { sealed: bool },
}

/// How a step of a seal went.
#[derive(Debug, Clone, Copy, PartialEq, Eq, Structural)]
pub enum SealEvent {
    Done,
    Failed,
    /// So many volumes were written.
    Written { volumes: usize },
}

/// The seal of a table.
#[derive(Debug, Clone, Copy, PartialEq, Eq, Structural)]
pub struct SealRun {
    pub phase: SealPhase,
    /// The number of volumes that were written.
    pub volumes: usize,
    /// The number of batches in which the rows are taken out of memory.
    pub batches: usize,
}

/// A seal of rows in so many batches, before its first step.
pub open spec fn new_seal(batches: usize) -> SealRun {
    SealRun { phase: SealPhase::Writing, volumes: 0, batches }
}

/// The number of volumes that an event says were written.
pub open spec fn written_volumes(event: SealEvent) -> usize {
    match event {
        SealEvent::Written { volumes } => volumes,
        _ => 0,
    }
}

/// The phase after an event.
pub open spec fn seal_phase_after(s: SealRun, event: SealEvent) -> SealPhase {
    let failed = event is Failed;
    match s.phase {
        SealPhase::Writing => if failed {
            SealPhase::Finished { sealed: false }
        } else {
            SealPhase::Indexing
        },
        SealPhase::Indexing => if failed {
            SealPhase::Discarding
        } else if s.volumes > 0 {
            SealPhase::BuildingSide { volume: 0 }
        } else {
            SealPhase::Registering
        },
        SealPhase::BuildingSide { volume } => if failed {
            SealPhase::Discarding
        } else if volume + 1 < s.volumes {
            SealPhase::BuildingSide { volume: (volume + 1) as usize }
        } else {
            SealPhase::Registering
        },
        SealPhase::Discarding => SealPhase::Finished { sealed: false },
        SealPhase::Registering => if s.batches > 0 {
            SealPhase::Removing { batch: 0 }
        } else {
            SealPhase::SettlingTombstones
        },
        SealPhase::Removing { batch } => if batch + 1 < s.batches {
            SealPhase::Removing { batch: (batch + 1) as usize }
        } else {
            SealPhase::SettlingTombstones
        },
        SealPhase::SettlingTombstones => SealPhase::Settling,
        SealPhase::Settling => SealPhase::Finished { sealed: true },
        SealPhase::Finished { sealed } => SealPhase::Finished { sealed },
    }
}

/// A seal after an event.
pub open spec fn seal_after(s: SealRun, event: SealEvent) -> SealRun {
    SealRun {
        phase: seal_phase_after(s, event),
        volumes: if s.phase is Writing {
            written_volumes(event)
        } else {
            s.volumes
        },
        batches: s.batches,
    }
}

impl SealRun {
    /// A seal of rows in so many batches, before its first step.
    pub fn new(batches: usize) -> (s: SealRun)
        ensures
            s == new_seal(batches),
    {
        SealRun { phase: SealPhase::Writing, volumes: 0, batches }
    }

    /// Goes on after the step of the phase, which went as the event says. Where an index or a side
    /// file cannot be built because a volume cannot be read back, the volumes are removed again and
    /// the rows stay in memory.
    pub fn step(&mut self, event: SealEvent)
        ensures
            *final(self) == seal_after(*old(self), event),
    {
        let failed: bool = matches!(event, SealEvent::Failed);
        match self.phase {
            SealPhase::Writing => {
                self.volumes = match event {
                    SealEvent::Written { volumes } => volumes,
                    _ => 0,
                };
                self.phase = if failed {
                    SealPhase::Finished { sealed: false }
                } else {
                    SealPhase::Indexing
                };
            },
            SealPhase::Indexing => {
                self.phase = if failed {
                    SealPhase::Discarding
                } else if self.volumes > 0 {
                    SealPhase::BuildingSide { volume: 0 }
                } else {
                    SealPhase::Registering
                };
            },
            SealPhase::BuildingSide { volume } => {
                self.phase = if failed {
                    SealPhase::Discarding
                } else if volume < self.volumes && volume + 1 < self.volumes {
                    SealPhase::BuildingSide { volume: volume + 1 }
                } else {
                    SealPhase::Registering
                };
            },
            SealPhase::Discarding => {
                self.phase = SealPhase::Finished { sealed: false };
            },
            SealPhase::Registering => {
                self.phase = if self.batches > 0 {
                    SealPhase::Removing { batch: 0 }
                } else {
                    SealPhase::SettlingTombstones
                };
            },
            SealPhase::Removing { batch } => {
                self.phase = if batch < self.batches && batch + 1 < self.batches {
                    SealPhase::Removing { batch: batch + 1 }
                } else {
                    SealPhase::SettlingTombstones
                };
            },
            SealPhase::SettlingTombstones => {
                self.phase = SealPhase::Settling;
            },
            SealPhase::Settling => {
                self.phase = SealPhase::Finished { sealed: true };
            },
            SealPhase::Finished { sealed } => {},
        }
    }
}

// ---------------------------------------------------------------------------
// Laws
// ---------------------------------------------------------------------------

/// A seal after some events.
pub open spec fn seal_trace(batches: usize, events: Seq<SealEvent>) -> SealRun
    decreases events.len(),
{
    if events.len() == 0 {
        new_seal(batches)
    } else {
        seal_after(seal_trace(batches, events.drop_last()), events.last())
    }
}

/// Whether the first `n` events are not failures.
spec fn all_went_well(events: Seq<SealEvent>, n: int) -> bool {
    &&& n <= events.len()
    &&& forall|i: int| 0 <= i < n ==> !(#[trigger] events[i] is Failed)
}

/// Rows leave memory only once the volumes that hold them were written, can be read back, have their
/// side files and are registered: no step before was a failure.
pub proof fn rows_leave_memory_last(batches: usize, events: Seq<SealEvent>, batch: usize)
    requires
        seal_trace(batches, events).phase == (SealPhase::Removing { batch }),
    ensures
        batch < batches,
        events.len() == seal_trace(batches, events).volumes + 3 + batch,
        forall|i: int|
            0 <= i < seal_trace(batches, events).volumes + 2 ==> !(#[trigger] events[i] is Failed),
{
    lemma_seal_shape(batches, events);
}

/// A seal that gives up has taken no row out of memory.
pub proof fn failed_seal_keeps_rows(batches: usize, events: Seq<SealEvent>, n: int)
    requires
        seal_trace(batches, events).phase is Discarding,
        0 <= n <= events.len(),
    ensures
        !(seal_trace(batches, events.take(n)).phase is Removing),
{
    lemma_seal_shape(batches, events);
    lemma_seal_shape(batches, events.take(n));
    let k = events.len() - 1;
    if n <= k {
        assert(events.take(n) =~= events.drop_last().take(n));
        lemma_prefix_is_early(batches, events.drop_last(), n);
    } else {
        assert(events.take(n) =~= events);
    }
}

/// Whether a phase comes before the volumes are registered.
spec fn is_early(phase: SealPhase) -> bool {
    phase is Writing || phase is Indexing || phase is BuildingSide
}

proof fn lemma_prefix_is_early(batches: usize, events: Seq<SealEvent>, n: int)
    requires
        is_early(seal_trace(batches, events).phase),
        0 <= n <= events.len(),
    ensures
        is_early(seal_trace(batches, events.take(n)).phase),
    decreases events.len(),
{
    if n < events.len() {
        assert(events.take(n) =~= events.drop_last().take(n));
        lemma_prefix_is_early(batches, events.drop_last(), n);
    } else {
        assert(events.take(n) =~= events);
    }
}

proof fn lemma_seal_shape(batches: usize, events: Seq<SealEvent>)
    ensures
        ({
            let s = seal_trace(batches, events);
            let n = events.len();
            &&& s.batches == batches
            &&& match s.phase {
                SealPhase::Writing => n == 0,
                SealPhase::Indexing => n == 1 && all_went_well(events, 1),
                SealPhase::BuildingSide { volume } => volume < s.volumes && n == volume + 2
                    && all_went_well(events, n as int),
                SealPhase::Discarding => n >= 2 && is_early(
                    seal_trace(batches, events.drop_last()).phase,
                ),
                SealPhase::Registering => n == s.volumes + 2 && all_went_well(events, n as int),
                SealPhase::Removing { batch } => batch < batches && n == s.volumes + 3 + batch
                    && all_went_well(events, s.volumes + 2),
                _ => true,
            }
        }),
    decreases events.len(),
{
    if events.len() > 0 {
        let before = events.drop_last();
        lemma_seal_shape(batches, before);
        assert(forall|i: int| 0 <= i < before.len() ==> before[i] == events[i]);
        assert(events.last() == events[events.len() - 1]);
    }
}

} // verus!
