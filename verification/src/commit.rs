//! The commit of a transaction, step by step.

use vstd::prelude::*;

verus! {

/// What a commit does next.
#[derive(Debug, Clone, Copy, PartialEq, Eq, Structural)]
pub enum CommitPhase {
    /// Write to the log the deletions of the rows of volumes that the transaction replaced in the
    /// table at the position.
    LoggingTombstones { table: usize },
    /// Write the table's new row versions to the log.
    LoggingVersions { table: usize },
    /// Keep seals out, and check the table's new rows against the volumes where a seal may have moved
    /// a row that conflicts.
    Checking { table: usize },
    /// Commit the table's rows in memory; seals are still kept out.
    Committing { table: usize },
    /// Forget the transaction's row versions.
    Forgetting,
    /// Write to the log the deletions of rows of volumes of a table without changes in memory.
    LoggingCold { manager: usize },
    /// Commit or roll back the tombstones of the table at the position among those with volumes.
    Settling { manager: usize, commit: bool },
    /// Nothing more.
    Finished,
}

/// How a step of a commit went.
#[derive(Debug, Clone, Copy, PartialEq, Eq, Structural)]
pub enum CommitEvent {
    Done,
    Failed,
}

/// A commit.
#[derive(Debug)]
pub struct CommitRun {
    pub phase: CommitPhase,
    /// Whether the transaction is written to the log.
    pub record: bool,
    /// The number of tables with changes in memory.
    pub tables: usize,
    /// For each table that may have volumes, its position among the tables with changes in memory.
    pub managers: Vec<Option<usize>>,
    /// The number of tables whose changes in memory are committed: the first ones.
    pub committed: usize,
    /// Whether a step failed.
    pub failed: bool,
}

/// A commit, with its list as a sequence.
pub struct CommitV {
    pub phase: CommitPhase,
    pub record: bool,
    pub tables: usize,
    pub managers: Seq<Option<usize>>,
    pub committed: usize,
    pub failed: bool,
}

impl View for CommitRun {
    type V = CommitV;

    open spec fn view(&self) -> CommitV {
        CommitV {
            phase: self.phase,
            record: self.record,
            tables: self.tables,
            managers: self.managers@,
            committed: self.committed,
            failed: self.failed,
        }
    }
}

/// The first step for the table at a position.
pub open spec fn table_phase(record: bool, tables: usize, table: int) -> CommitPhase {
    if table >= tables {
        CommitPhase::Forgetting
    } else if record {
        CommitPhase::LoggingTombstones { table: table as usize }
    } else {
        CommitPhase::Checking { table: table as usize }
    }
}

/// Whether the tombstones of a table with volumes are in the log, and its changes in memory
/// committed.
pub open spec fn is_recorded(c: CommitV, manager: int) -> bool {
    c.record && match c.managers[manager] {
        Some(t) => t < c.committed,
        None => false,
    }
}

/// The first step for the table at a position among those with volumes.
pub open spec fn manager_phase(c: CommitV, manager: int) -> CommitPhase {
    if manager >= c.managers.len() {
        CommitPhase::Finished
    } else if c.failed {
        CommitPhase::Settling { manager: manager as usize, commit: is_recorded(c, manager) }
    } else if c.record && !is_recorded(c, manager) {
        CommitPhase::LoggingCold { manager: manager as usize }
    } else {
        CommitPhase::Settling { manager: manager as usize, commit: true }
    }
}

/// A commit after an event.
pub open spec fn commit_after(c: CommitV, event: CommitEvent) -> CommitV {
    let given_up = CommitV { phase: CommitPhase::Forgetting, failed: true, ..c };
    match c.phase {
        CommitPhase::LoggingTombstones { table } => if event is Failed {
            given_up
        } else {
            CommitV { phase: CommitPhase::LoggingVersions { table }, ..c }
        },
        CommitPhase::LoggingVersions { table } => if event is Failed {
            given_up
        } else {
            CommitV { phase: CommitPhase::Checking { table }, ..c }
        },
        CommitPhase::Checking { table } => if event is Failed {
            given_up
        } else {
            CommitV { phase: CommitPhase::Committing { table }, ..c }
        },
        CommitPhase::Committing { table } => if event is Failed {
            given_up
        } else {
            CommitV {
                phase: table_phase(c.record, c.tables, table + 1),
                committed: (table + 1) as usize,
                ..c
            }
        },
        CommitPhase::Forgetting => CommitV { phase: manager_phase(c, 0), ..c },
        CommitPhase::LoggingCold { manager } => if event is Failed {
            CommitV { phase: CommitPhase::Settling { manager, commit: false }, failed: true, ..c }
        } else {
            CommitV { phase: CommitPhase::Settling { manager, commit: true }, ..c }
        },
        CommitPhase::Settling { manager, commit } => CommitV {
            phase: manager_phase(c, manager + 1),
            ..c
        },
        CommitPhase::Finished => c,
    }
}

/// A commit before its first step.
pub open spec fn new_commit(record: bool, tables: usize, managers: Seq<Option<usize>>) -> CommitV {
    CommitV {
        phase: table_phase(record, tables, 0),
        record,
        tables,
        managers,
        committed: 0,
        failed: false,
    }
}

impl CommitRun {
    /// Whether the positions are those of tables.
    pub open spec fn wf(&self) -> bool {
        match self.phase {
            CommitPhase::LoggingTombstones { table } => table < self.tables,
            CommitPhase::LoggingVersions { table } => table < self.tables,
            CommitPhase::Checking { table } => table < self.tables,
            CommitPhase::Committing { table } => table < self.tables,
            CommitPhase::LoggingCold { manager } => manager < self.managers@.len(),
            CommitPhase::Settling { manager, commit } => manager < self.managers@.len(),
            _ => true,
        }
    }

    /// A commit before its first step. `managers` has, for each table that may have volumes, its
    /// position among the tables with changes in memory.
    pub fn new(record: bool, tables: usize, managers: Vec<Option<usize>>) -> (c: CommitRun)
        ensures
            c.wf(),
            c@ == new_commit(record, tables, managers@),
    {
        let phase = if tables == 0 {
            CommitPhase::Forgetting
        } else if record {
            CommitPhase::LoggingTombstones { table: 0 }
        } else {
            CommitPhase::Checking { table: 0 }
        };
        CommitRun { phase, record, tables, managers, committed: 0, failed: false }
    }

    fn first_step(&self, manager: usize) -> (phase: CommitPhase)
        ensures
            phase == manager_phase(self@, manager as int),
    {
        if manager >= self.managers.len() {
            return CommitPhase::Finished;
        }
        let recorded: bool = self.record && match self.managers[manager] {
            Some(t) => t < self.committed,
            None => false,
        };
        if self.failed {
            CommitPhase::Settling { manager, commit: recorded }
        } else if self.record && !recorded {
            CommitPhase::LoggingCold { manager }
        } else {
            CommitPhase::Settling { manager, commit: true }
        }
    }

    /// Goes on after the step of the phase, which went as the event says. A failure ends the work on
    /// the tables in memory; those that were committed before stay committed, and so do their
    /// tombstones.
    pub fn step(&mut self, event: CommitEvent)
        requires
            old(self).wf(),
        ensures
            final(self).wf(),
            final(self)@ == commit_after(old(self)@, event),
    {
        let failed: bool = matches!(event, CommitEvent::Failed);
        match self.phase {
            CommitPhase::LoggingTombstones { table } => {
                if failed {
                    self.give_up();
                } else {
                    self.phase = CommitPhase::LoggingVersions { table };
                }
            },
            CommitPhase::LoggingVersions { table } => {
                if failed {
                    self.give_up();
                } else {
                    self.phase = CommitPhase::Checking { table };
                }
            },
            CommitPhase::Checking { table } => {
                if failed {
                    self.give_up();
                } else {
                    self.phase = CommitPhase::Committing { table };
                }
            },
            CommitPhase::Committing { table } => {
                if failed {
                    self.give_up();
                } else {
                    let next: usize = table + 1;
                    self.committed = next;
                    self.phase = if next >= self.tables {
                        CommitPhase::Forgetting
                    } else if self.record {
                        CommitPhase::LoggingTombstones { table: next }
                    } else {
                        CommitPhase::Checking { table: next }
                    };
                }
            },
            CommitPhase::Forgetting => {
                self.phase = self.first_step(0);
            },
            CommitPhase::LoggingCold { manager } => {
                if failed {
                    self.failed = true;
                }
                self.phase = CommitPhase::Settling { manager, commit: !failed };
            },
            CommitPhase::Settling { manager, commit } => {
                let count: usize = self.managers.len();
                assert(manager < count);
                let next: usize = manager + 1;
                self.phase = self.first_step(next);
            },
            CommitPhase::Finished => {},
        }
    }

    fn give_up(&mut self)
        ensures
            final(self).wf(),
            final(self)@ == (CommitV {
                phase: CommitPhase::Forgetting,
                failed: true,
                ..old(self)@
            }),
    {
        self.phase = CommitPhase::Forgetting;
        self.failed = true;
    }

    /// Whether any table's changes in memory were committed.
    pub fn any_committed(&self) -> (r: bool)
        ensures
            r == (self.committed > 0),
    {
        self.committed > 0
    }
}

// ---------------------------------------------------------------------------
// Laws
// ---------------------------------------------------------------------------

/// A commit after some events.
pub open spec fn commit_trace(
    record: bool,
    tables: usize,
    managers: Seq<Option<usize>>,
    events: Seq<CommitEvent>,
) -> CommitV
    decreases events.len(),
{
    if events.len() == 0 {
        new_commit(record, tables, managers)
    } else {
        commit_after(commit_trace(record, tables, managers, events.drop_last()), events.last())
    }
}

/// The tombstones of a table that has changes in memory share the fate of those changes: where the
/// transaction is written to the log, they are committed exactly where the changes are, even if the
/// commit fails at another table. So no row of a volume is hidden without its new version, and none
/// stays visible beside it.
pub proof fn tombstones_share_the_changes_fate(
    record: bool,
    tables: usize,
    managers: Seq<Option<usize>>,
    events: Seq<CommitEvent>,
    manager: usize,
    commit: bool,
    table: usize,
)
    requires
        managers.len() <= usize::MAX,
        record,
        commit_trace(record, tables, managers, events).phase == (CommitPhase::Settling {
            manager,
            commit,
        }),
        managers[manager as int] == Some(table),
        table < tables,
    ensures
        commit == (table < commit_trace(record, tables, managers, events).committed),
{
    lemma_commit_shape(record, tables, managers, events);
}

/// A commit in which no step fails commits every table's changes and tombstones.
pub proof fn commit_without_failure_is_whole(
    record: bool,
    tables: usize,
    managers: Seq<Option<usize>>,
    events: Seq<CommitEvent>,
)
    requires
        managers.len() <= usize::MAX,
        forall|i: int| 0 <= i < events.len() ==> #[trigger] events[i] is Done,
    ensures
        ({
            let c = commit_trace(record, tables, managers, events);
            &&& !c.failed
            &&& c.phase is Finished ==> c.committed == tables
            &&& c.phase matches CommitPhase::Settling { manager, commit } ==> commit && c.committed
                == tables
        }),
{
    lemma_commit_shape(record, tables, managers, events);
    lemma_no_failure(record, tables, managers, events);
}

proof fn lemma_no_failure(
    record: bool,
    tables: usize,
    managers: Seq<Option<usize>>,
    events: Seq<CommitEvent>,
)
    requires
        forall|i: int| 0 <= i < events.len() ==> #[trigger] events[i] is Done,
    ensures
        !commit_trace(record, tables, managers, events).failed,
    decreases events.len(),
{
    if events.len() > 0 {
        let before = events.drop_last();
        assert forall|i: int| 0 <= i < before.len() implies #[trigger] before[i] is Done by {
            assert(before[i] == events[i]);
        }
        lemma_no_failure(record, tables, managers, before);
        assert(events[events.len() - 1] is Done);
    }
}

/// A table's deletions stand in the log before its new row versions, and its changes are committed
/// only after both: a replay then sees that the old row is superseded before it meets the new one.
pub proof fn log_puts_deletions_first(c: CommitV, event: CommitEvent, table: usize)
    requires
        c.phase != commit_after(c, event).phase,
        !(c.phase is Committing),
        c.record,
    ensures
        commit_after(c, event).phase == (CommitPhase::LoggingVersions { table }) ==> c.phase == (
        CommitPhase::LoggingTombstones { table }) && event is Done,
        commit_after(c, event).phase == (CommitPhase::Checking { table }) ==> c.phase == (
        CommitPhase::LoggingVersions { table }) && event is Done,
        commit_after(c, event).phase == (CommitPhase::Committing { table }) ==> c.phase == (
        CommitPhase::Checking { table }) && event is Done,
{
}

proof fn lemma_commit_shape(
    record: bool,
    tables: usize,
    managers: Seq<Option<usize>>,
    events: Seq<CommitEvent>,
)
    requires
        managers.len() <= usize::MAX,
    ensures
        ({
            let c = commit_trace(record, tables, managers, events);
            &&& c.record == record && c.tables == tables && c.managers == managers
            &&& match c.phase {
                CommitPhase::LoggingTombstones { table } => !c.failed && c.committed == table
                    && table < tables,
                CommitPhase::LoggingVersions { table } => !c.failed && c.committed == table && table
                    < tables,
                CommitPhase::Checking { table } => !c.failed && c.committed == table && table
                    < tables,
                CommitPhase::Committing { table } => !c.failed && c.committed == table && table
                    < tables,
                CommitPhase::LoggingCold { manager } => !c.failed && c.committed == tables
                    && manager < managers.len() && !is_recorded(c, manager as int),
                CommitPhase::Settling { manager, commit } => {
                    &&& manager < managers.len()
                    &&& c.committed <= tables
                    &&& !c.failed ==> c.committed == tables && commit
                    &&& is_recorded(c, manager as int) ==> commit
                    &&& record && c.failed && commit ==> is_recorded(c, manager as int)
                },
                _ => c.committed <= tables && (!c.failed ==> c.committed == tables),
            }
        }),
    decreases events.len(),
{
    if events.len() > 0 {
        lemma_commit_shape(record, tables, managers, events.drop_last());
    }
}

} // verus!
