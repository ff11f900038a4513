//! The opening of a database, step by step.

use crate::recovery::{RecoveryMode, recovery_mode};
use vstd::prelude::*;

verus! {

/// What the opening of a database does next.
#[derive(Debug, Clone, Copy, PartialEq, Eq, Structural)]
pub enum OpenPhase {
    /// Take the lock on the directory.
    Locking,
    /// Accept transactions and start the log.
    Starting,
    /// Load the manifests of the volumes, raise the schema epoch above theirs, and see whether there
    /// are snapshots.
    ReadingManifests,
    /// Load the volumes.
    LoadingVolumes { lsn: u64 },
    /// Load the tables' snapshots.
    LoadingSnapshots,
    /// Load the volumes beside the snapshots.
    LoadingStandalone { lsn: u64 },
    /// Replay the log from a position on.
    Replaying { lsn: u64, migrate: bool },
    /// Fill in the columns' default values, and where volumes have the columns.
    FillingDefaults { migrate: bool },
    /// Add the rows of volumes to the vector indexes.
    FillingIndexes { migrate: bool },
    /// Raise the row id counters to the largest ids of the volumes.
    Counting { migrate: bool },
    /// Seal all rows and compact, once for a database that had snapshots and no volumes.
    Migrating,
    /// Remove the snapshots that were migrated.
    RemovingSnapshots,
    /// See whether rows are left in memory.
    LookingForRows,
    /// Seal all rows.
    Sealing,
    /// Write the manifests.
    Persisting,
    /// Nothing more.
    Finished { failed: bool },
}

/// How a step of the opening went.
#[derive(Debug, Clone, Copy, PartialEq, Eq, Structural)]
pub enum OpenEvent {
    Done,
    Failed,
    /// The position in the log that the manifests give, and whether there are snapshots.
    Found { volume_lsn: Option<u64>, snapshots: bool },
    /// The position in the log that the snapshots give.
    Loaded { lsn: u64 },
    /// The snapshots were migrated; whether they are the user's backups.
    Migrated { backups: bool },
    /// Whether rows are left in memory.
    Rows { left: bool },
}

/// The opening of a database.
#[derive(Debug, Clone, Copy, PartialEq, Eq, Structural)]
pub struct OpenRun {
    pub phase: OpenPhase,
    /// Whether the database is kept on disk.
    pub persistent: bool,
}

/// The phase after an event.
pub open spec fn open_phase_after(o: OpenRun, event: OpenEvent) -> OpenPhase {
    let failed = OpenPhase::Finished { failed: true };
    match o.phase {
        OpenPhase::Locking => if event is Failed {
            failed
        } else {
            OpenPhase::Starting
        },
        OpenPhase::Starting => if event is Failed {
            failed
        } else if o.persistent {
            OpenPhase::ReadingManifests
        } else {
            OpenPhase::Finished { failed: false }
        },
        OpenPhase::ReadingManifests => match event {
            OpenEvent::Failed => failed,
            OpenEvent::Found { volume_lsn: Some(lsn), snapshots } => OpenPhase::LoadingVolumes {
                lsn,
            },
            OpenEvent::Found { volume_lsn: None, snapshots: true } => OpenPhase::LoadingSnapshots,
            _ => OpenPhase::Replaying { lsn: 0, migrate: false },
        },
        OpenPhase::LoadingVolumes { lsn } => OpenPhase::Replaying { lsn, migrate: false },
        OpenPhase::LoadingSnapshots => match event {
            OpenEvent::Failed => failed,
            OpenEvent::Loaded { lsn } => OpenPhase::LoadingStandalone { lsn },
            _ => OpenPhase::LoadingStandalone { lsn: 0 },
        },
        OpenPhase::LoadingStandalone { lsn } => OpenPhase::Replaying { lsn, migrate: true },
        OpenPhase::Replaying { lsn, migrate } => if event is Failed {
            failed
        } else {
            OpenPhase::FillingDefaults { migrate }
        },
        OpenPhase::FillingDefaults { migrate } => OpenPhase::FillingIndexes { migrate },
        OpenPhase::FillingIndexes { migrate } => if event is Failed {
            failed
        } else {
            OpenPhase::Counting { migrate }
        },
        OpenPhase::Counting { migrate } => if event is Failed {
            failed
        } else if migrate {
            OpenPhase::Migrating
        } else {
            OpenPhase::LookingForRows
        },
        OpenPhase::Migrating => match event {
            OpenEvent::Failed => failed,
            OpenEvent::Migrated { backups: true } => OpenPhase::LookingForRows,
            _ => OpenPhase::RemovingSnapshots,
        },
        OpenPhase::RemovingSnapshots => OpenPhase::LookingForRows,
        OpenPhase::LookingForRows => match event {
            OpenEvent::Rows { left: true } => OpenPhase::Sealing,
            _ => OpenPhase::Finished { failed: false },
        },
        OpenPhase::Sealing => OpenPhase::Persisting,
        OpenPhase::Persisting => OpenPhase::Finished { failed: false },
        OpenPhase::Finished { failed } => OpenPhase::Finished { failed },
    }
}

/// Whether the engine writes to its log in a phase: not while it takes in what is on disk.
pub open spec fn phase_writes_log(phase: OpenPhase) -> bool {
    match phase {
        OpenPhase::Migrating => true,
        OpenPhase::Sealing => true,
        OpenPhase::Persisting => true,
        OpenPhase::LookingForRows => true,
        OpenPhase::Finished { failed } => !failed,
        _ => false,
    }
}

impl OpenRun {
    /// The opening of a database, before its first step. One in memory has nothing to lock.
    pub fn new(in_memory: bool, persistent: bool) -> (o: OpenRun)
        ensures
            o == (OpenRun {
                phase: if in_memory {
                    OpenPhase::Starting
                } else {
                    OpenPhase::Locking
                },
                persistent,
            }),
    {
        OpenRun {
            phase: if in_memory {
                OpenPhase::Starting
            } else {
                OpenPhase::Locking
            },
            persistent,
        }
    }

    /// Goes on after the step of the phase, which went as the event says. Volumes come before
    /// snapshots, and both before the log. A seal that fails at the end ends nothing: the log still
    /// has its rows.
    pub fn step(&mut self, event: OpenEvent)
        ensures
            *final(self) == (OpenRun { phase: open_phase_after(*old(self), event), ..*old(self) }),
    {
        let failed: bool = matches!(event, OpenEvent::Failed);
        self.phase = match self.phase {
            OpenPhase::Locking => if failed {
                OpenPhase::Finished { failed: true }
            } else {
                OpenPhase::Starting
            },
            OpenPhase::Starting => if failed {
                OpenPhase::Finished { failed: true }
            } else if self.persistent {
                OpenPhase::ReadingManifests
            } else {
                OpenPhase::Finished { failed: false }
            },
            OpenPhase::ReadingManifests => match event {
                OpenEvent::Failed => OpenPhase::Finished { failed: true },
                OpenEvent::Found { volume_lsn, snapshots } => match recovery_mode(
                    volume_lsn,
                    snapshots,
                ) {
                    RecoveryMode::Volumes { lsn } => OpenPhase::LoadingVolumes { lsn },
                    RecoveryMode::Snapshots => OpenPhase::LoadingSnapshots,
                    RecoveryMode::Log => OpenPhase::Replaying { lsn: 0, migrate: false },
                },
                _ => OpenPhase::Replaying { lsn: 0, migrate: false },
            },
            OpenPhase::LoadingVolumes { lsn } => OpenPhase::Replaying { lsn, migrate: false },
            OpenPhase::LoadingSnapshots => match event {
                OpenEvent::Failed => OpenPhase::Finished { failed: true },
                OpenEvent::Loaded { lsn } => OpenPhase::LoadingStandalone { lsn },
                _ => OpenPhase::LoadingStandalone { lsn: 0 },
            },
            OpenPhase::LoadingStandalone { lsn } => OpenPhase::Replaying { lsn, migrate: true },
            OpenPhase::Replaying { lsn, migrate } => if failed {
                OpenPhase::Finished { failed: true }
            } else {
                OpenPhase::FillingDefaults { migrate }
            },
            OpenPhase::FillingDefaults { migrate } => OpenPhase::FillingIndexes { migrate },
            OpenPhase::FillingIndexes { migrate } => if failed {
                OpenPhase::Finished { failed: true }
            } else {
                OpenPhase::Counting { migrate }
            },
            OpenPhase::Counting { migrate } => if failed {
                OpenPhase::Finished { failed: true }
            } else if migrate {
                OpenPhase::Migrating
            } else {
                OpenPhase::LookingForRows
            },
            OpenPhase::Migrating => match event {
                OpenEvent::Failed => OpenPhase::Finished { failed: true },
                OpenEvent::Migrated { backups } => if backups {
                    OpenPhase::LookingForRows
                } else {
                    OpenPhase::RemovingSnapshots
                },
                _ => OpenPhase::RemovingSnapshots,
            },
            OpenPhase::RemovingSnapshots => OpenPhase::LookingForRows,
            OpenPhase::LookingForRows => if matches!(event, OpenEvent::Rows { left: true }) {
                OpenPhase::Sealing
            } else {
                OpenPhase::Finished { failed: false }
            },
            OpenPhase::Sealing => OpenPhase::Persisting,
            OpenPhase::Persisting => OpenPhase::Finished { failed: false },
            OpenPhase::Finished { failed: before } => OpenPhase::Finished { failed: before },
        };
    }

    /// Whether the engine writes to its log in the phase.
    pub fn writes_log(&self) -> (r: bool)
        ensures
            r == phase_writes_log(self.phase),
    {
        match self.phase {
            OpenPhase::Migrating => true,
            OpenPhase::Sealing => true,
            OpenPhase::Persisting => true,
            OpenPhase::LookingForRows => true,
            OpenPhase::Finished { failed } => !failed,
            _ => false,
        }
    }
}

// ---------------------------------------------------------------------------
// Laws
// ---------------------------------------------------------------------------

/// The log is replayed only after the volumes or snapshots that it goes on from were loaded, and from
/// the position that they give; from its beginning where there are none. The engine writes nothing to
/// the log meanwhile.
pub proof fn log_is_replayed_last(o: OpenRun, event: OpenEvent, lsn: u64, migrate: bool)
    requires
        !(o.phase is Replaying),
        open_phase_after(o, event) == (OpenPhase::Replaying { lsn, migrate }),
    ensures
        !phase_writes_log(open_phase_after(o, event)),
        o.phase == (OpenPhase::LoadingVolumes { lsn }) && !migrate || o.phase == (
        OpenPhase::LoadingStandalone { lsn }) && migrate || o.phase is ReadingManifests && lsn == 0
            && !migrate && !(event is Failed) && (event matches OpenEvent::Found {
            volume_lsn,
            snapshots,
        } ==> volume_lsn is None && !snapshots),
{
}

/// Snapshots are removed only once all their rows are sealed in volumes, and never where they are the
/// user's backups.
pub proof fn snapshots_are_removed_once_migrated(o: OpenRun, event: OpenEvent)
    requires
        open_phase_after(o, event) is RemovingSnapshots,
    ensures
        o.phase is Migrating,
        !(event is Failed),
        event != (OpenEvent::Migrated { backups: true }),
{
}

} // verus!
