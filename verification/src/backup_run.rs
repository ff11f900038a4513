//! The making of a backup, step by step.

use crate::names::{name_views, snapshot_file_name, snapshot_name};
use vstd::prelude::*;
use vstd::string::*;

verus! {

// ---------------------------------------------------------------------------
// Whether a backup begins
// ---------------------------------------------------------------------------

/// Why a backup is refused.
#[derive(Debug, Clone, Copy, PartialEq, Eq, Structural)]
pub enum BackupError {
    NotOpen,
    /// Commits were still under way at the deadline.
    TimedOut,
    /// A snapshot could not be written or named; no file of the backup is left.
    Failed,
}

/// Whether a backup is made: a closed engine refuses it, and of a database that is not kept on disk
/// there is nothing to back up.
pub fn check_backup(open: bool, persistent: bool) -> (r: Result<bool, BackupError>)
    ensures
        r == if !open {
            Err::<bool, BackupError>(BackupError::NotOpen)
        } else {
            Ok(persistent)
        },
{
    if !open {
        return Err(BackupError::NotOpen);
    }
    Ok(persistent)
}

/// What the wait for commits that are under way does next.
#[derive(Debug, Clone, Copy, PartialEq, Eq, Structural)]
pub enum CommitWait {
    /// None is under way.
    Proceed,
    /// Look again in a moment.
    Wait,
    /// The deadline has come.
    GiveUp,
}

/// What the wait for commits does next. None is under way where every commit up to the current one is
/// complete. Between the start of a commit and its end tombstones may be seen without the versions
/// that replace their rows, so that a backup would lose those rows.
pub fn commit_wait(safe_cutoff: i64, current: i64, now: u64, deadline: u64) -> (w: CommitWait)
    ensures
        w == if safe_cutoff == current {
            CommitWait::Proceed
        } else if now >= deadline {
            CommitWait::GiveUp
        } else {
            CommitWait::Wait
        },
{
    if safe_cutoff == current {
        CommitWait::Proceed
    } else if now >= deadline {
        CommitWait::GiveUp
    } else {
        CommitWait::Wait
    }
}

// ---------------------------------------------------------------------------
// Files
// ---------------------------------------------------------------------------

/// The snapshot file of a table, in the table's directory.
#[derive(Debug)]
pub struct BackupFile {
    pub table: String,
    /// The name under which it is written.
    pub temporary: String,
    pub file: String,
}

/// Whether `files` are those of a backup: one for each table, all under the same time stamp.
pub open spec fn are_backup_files(
    files: Seq<BackupFile>,
    tables: Seq<Seq<char>>,
    timestamp: Seq<char>,
) -> bool {
    &&& files.len() == tables.len()
    &&& forall|i: int|
        0 <= i < files.len() ==> {
            &&& (#[trigger] files[i]).table@ == tables[i]
            &&& files[i].file@ == snapshot_name(timestamp)
            &&& files[i].temporary@ == snapshot_name(timestamp) + ".tmp"@
        }
}

/// The files of a backup: one for each table, all under the same time stamp.
pub fn backup_files(tables: &[String], timestamp: &str) -> (files: Vec<BackupFile>)
    ensures
        are_backup_files(files@, name_views(tables@), timestamp@),
{
    let ghost views = name_views(tables@);
    let mut files: Vec<BackupFile> = Vec::new();
    let mut i: usize = 0;
    while i < tables.len()
        invariant
            i <= tables@.len(),
            views == name_views(tables@),
            files@.len() == i,
            forall|k: int|
                0 <= k < i ==> {
                    &&& (#[trigger] files@[k]).table@ == views[k]
                    &&& files@[k].file@ == snapshot_name(timestamp@)
                    &&& files@[k].temporary@ == snapshot_name(timestamp@) + ".tmp"@
                },
        decreases tables@.len() - i,
    {
        assert(views[i as int] == tables@[i as int]@);
        let file = snapshot_file_name(timestamp);
        let mut temporary = file.as_str().to_owned();
        temporary.append(".tmp");
        files.push(BackupFile { table: tables[i].as_str().to_owned(), temporary, file });
        i = i + 1;
    }
    files
}

// ---------------------------------------------------------------------------
// The course
// ---------------------------------------------------------------------------

/// What a backup does next.
#[derive(Debug, Clone, Copy, PartialEq, Eq)]
pub enum BackupPhase {
    /// Wait for the commits that are under way; then take the tombstones and the point in time.
    Waiting,
    /// Write the snapshot of the table at the position under its temporary name.
    Writing { table: usize },
    /// Give the written snapshots their names, or remove them where not all were written.
    Publishing { written: usize, whole: bool },
    /// Write the metadata, the indexes and views, and the list of tables.
    Describing,
    /// Remove what is older than the snapshots that are kept.
    Retaining,
    /// Nothing more; whether a backup was made.
    Finished { result: Result<bool, BackupError> },
}

/// How a step of a backup went.
#[derive(Debug, Clone, Copy, PartialEq, Eq, Structural)]
pub enum BackupEvent {
    Done,
    Failed,
}

/// A backup.
#[derive(Debug, Clone, Copy, PartialEq, Eq)]
pub struct BackupRun {
    pub phase: BackupPhase,
    /// The number of tables.
    pub tables: usize,
}

/// The step that follows once so many tables are written.
pub open spec fn writing_phase(tables: usize, table: int) -> BackupPhase {
    if table < tables {
        BackupPhase::Writing { table: table as usize }
    } else {
        BackupPhase::Publishing { written: tables, whole: true }
    }
}

/// A backup before its first step.
pub open spec fn new_backup(open: bool, persistent: bool, tables: usize) -> BackupRun {
    BackupRun {
        phase: if !open {
            BackupPhase::Finished { result: Err(BackupError::NotOpen) }
        } else if !persistent {
            BackupPhase::Finished { result: Ok(false) }
        } else {
            BackupPhase::Waiting
        },
        tables,
    }
}

/// A backup after an event.
pub open spec fn backup_after(b: BackupRun, event: BackupEvent) -> BackupRun {
    let failed = event is Failed;
    let phase = match b.phase {
        BackupPhase::Waiting => if failed {
            BackupPhase::Finished { result: Err(BackupError::TimedOut) }
        } else {
            writing_phase(b.tables, 0)
        },
        BackupPhase::Writing { table } => if failed {
            BackupPhase::Publishing { written: table, whole: false }
        } else {
            writing_phase(b.tables, table + 1)
        },
        BackupPhase::Publishing { written, whole } => if whole && !failed {
            BackupPhase::Describing
        } else {
            BackupPhase::Finished { result: Err(BackupError::Failed) }
        },
        BackupPhase::Describing => BackupPhase::Retaining,
        BackupPhase::Retaining => BackupPhase::Finished { result: Ok(true) },
        BackupPhase::Finished { result } => BackupPhase::Finished { result },
    };
    BackupRun { phase, ..b }
}

impl BackupRun {
    /// A backup of so many tables, before its first step.
    pub fn new(open: bool, persistent: bool, tables: usize) -> (b: BackupRun)
        ensures
            b == new_backup(open, persistent, tables),
    {
        let phase = match check_backup(open, persistent) {
            Err(e) => BackupPhase::Finished { result: Err(e) },
            Ok(false) => BackupPhase::Finished { result: Ok(false) },
            Ok(true) => BackupPhase::Waiting,
        };
        BackupRun { phase, tables }
    }

    fn after_writing(&self, table: usize) -> (phase: BackupPhase)
        ensures
            phase == writing_phase(self.tables, table as int),
    {
        if table < self.tables {
            BackupPhase::Writing { table }
        } else {
            BackupPhase::Publishing { written: self.tables, whole: true }
        }
    }

    /// Goes on after the step of the phase, which went as the event says. A snapshot that cannot be
    /// written or named fails the backup, and the others go with it. What describes the backup may
    /// fail without harm to the snapshots.
    pub fn step(&mut self, event: BackupEvent)
        ensures
            *final(self) == backup_after(*old(self), event),
    {
        let failed: bool = matches!(event, BackupEvent::Failed);
        self.phase = match self.phase {
            BackupPhase::Waiting => if failed {
                BackupPhase::Finished { result: Err(BackupError::TimedOut) }
            } else {
                self.after_writing(0)
            },
            BackupPhase::Writing { table } => if failed {
                BackupPhase::Publishing { written: table, whole: false }
            } else if table < self.tables {
                self.after_writing(table + 1)
            } else {
                BackupPhase::Publishing { written: self.tables, whole: true }
            },
            BackupPhase::Publishing { written, whole } => if whole && !failed {
                BackupPhase::Describing
            } else {
                BackupPhase::Finished { result: Err(BackupError::Failed) }
            },
            BackupPhase::Describing => BackupPhase::Retaining,
            BackupPhase::Retaining => BackupPhase::Finished { result: Ok(true) },
            BackupPhase::Finished { result } => BackupPhase::Finished { result },
        };
    }
}

// ---------------------------------------------------------------------------
// Laws
// ---------------------------------------------------------------------------

/// A backup after some events.
pub open spec fn backup_trace(
    open: bool,
    persistent: bool,
    tables: usize,
    events: Seq<BackupEvent>,
) -> BackupRun
    decreases events.len(),
{
    if events.len() == 0 {
        new_backup(open, persistent, tables)
    } else {
        backup_after(backup_trace(open, persistent, tables, events.drop_last()), events.last())
    }
}

/// A closed engine refuses a backup, and without persistence nothing is backed up: in neither case is
/// anything written, whatever happens.
pub proof fn nothing_is_written_without_cause(
    open: bool,
    persistent: bool,
    tables: usize,
    events: Seq<BackupEvent>,
)
    requires
        !open || !persistent,
    ensures
        backup_trace(open, persistent, tables, events).phase == (BackupPhase::Finished {
            result: if !open {
                Err(BackupError::NotOpen)
            } else {
                Ok(false)
            },
        }),
    decreases events.len(),
{
    if events.len() > 0 {
        nothing_is_written_without_cause(open, persistent, tables, events.drop_last());
    }
}

/// A backup succeeds only where the commits under way had ended, the snapshot of every table was
/// written, and all were given their names.
pub proof fn backup_is_whole(
    open: bool,
    persistent: bool,
    tables: usize,
    events: Seq<BackupEvent>,
)
    requires
        backup_trace(open, persistent, tables, events).phase == (BackupPhase::Finished {
            result: Ok(true),
        }),
    ensures
        open,
        persistent,
        events.len() >= tables + 2,
        forall|i: int| 0 <= i < tables + 2 ==> #[trigger] events[i] is Done,
{
    lemma_backup_shape(open, persistent, tables, events);
}

/// Where a snapshot cannot be written, the backup fails, and the snapshots before it, which are those
/// that were written, are removed.
pub proof fn failed_write_fails_the_backup(b: BackupRun, table: usize, event: BackupEvent)
    requires
        b.phase == (BackupPhase::Writing { table }),
    ensures
        backup_after(b, BackupEvent::Failed).phase == (BackupPhase::Publishing {
            written: table,
            whole: false,
        }),
        backup_after(backup_after(b, BackupEvent::Failed), event).phase == (BackupPhase::Finished {
            result: Err(BackupError::Failed),
        }),
{
}

/// Whether the first `n` events are not failures.
spec fn all_done(events: Seq<BackupEvent>, n: int) -> bool {
    &&& n <= events.len()
    &&& forall|i: int| 0 <= i < n ==> #[trigger] events[i] is Done
}

proof fn lemma_backup_shape(open: bool, persistent: bool, tables: usize, events: Seq<BackupEvent>)
    ensures
        ({
            let b = backup_trace(open, persistent, tables, events);
            let n = events.len();
            &&& b.tables == tables
            &&& match b.phase {
                BackupPhase::Waiting => open && persistent && n == 0,
                BackupPhase::Writing { table } => open && persistent && table < tables && n == table
                    + 1 && all_done(events, n as int),
                BackupPhase::Publishing { written, whole } => open && persistent && (whole ==> n
                    == tables + 1 && all_done(events, n as int)),
                BackupPhase::Describing => open && persistent && all_done(events, tables + 2),
                BackupPhase::Retaining => open && persistent && all_done(events, tables + 2),
                BackupPhase::Finished { result } => result == Ok::<bool, BackupError>(true) ==> open
                    && persistent && all_done(events, tables + 2),
            }
        }),
    decreases events.len(),
{
    if events.len() > 0 {
        let before = events.drop_last();
        lemma_backup_shape(open, persistent, tables, before);
        assert(forall|i: int| 0 <= i < before.len() ==> before[i] == events[i]);
        assert(events.last() == events[events.len() - 1]);
    }
}

} // verus!
