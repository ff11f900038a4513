//! How much a table may keep in memory, and when it is sealed.

use vstd::prelude::*;

verus! {

/// The limits on what a table keeps in memory, and what commits have asked for.
#[derive(Debug, Clone, Copy, PartialEq, Eq, Structural)]
pub struct HotLimits {
    /// The rows that a table may keep; 0 for no limit.
    pub max_rows: usize,
    /// The bytes that a table may keep; 0 for no limit.
    pub max_bytes: usize,
    /// Whether a commit has asked for a seal.
    pub seal_requested: bool,
    /// The number of commits that waited for a seal.
    pub admission_waits: u64,
}

/// Limits before any commit.
pub open spec fn new_limits(max_rows: usize, max_bytes: usize) -> HotLimits {
    HotLimits { max_rows, max_bytes, seal_requested: false, admission_waits: 0 }
}

/// Limits with other bounds.
pub open spec fn with_limits(l: HotLimits, max_rows: usize, max_bytes: usize) -> HotLimits {
    HotLimits { max_rows, max_bytes, ..l }
}

/// The rows from which a table without volumes is sealed.
pub const SEAL_ROW_THRESHOLD: usize = 100_000;

/// The rows from which a table with volumes is sealed.
pub const SEAL_INCREMENTAL_THRESHOLD: usize = 10_000;

/// The rows from which a table is sealed: the threshold for its kind, or the limit on rows where it
/// is lower.
pub open spec fn seal_threshold(max_rows: nat, has_segments: bool) -> nat {
    let threshold: nat = if has_segments {
        10_000
    } else {
        100_000
    };
    if 0 < max_rows < threshold {
        max_rows
    } else {
        threshold
    }
}

/// A table that a commit writes to.
#[derive(Debug, Clone, Copy, PartialEq, Eq, Structural)]
pub struct AdmissionTable {
    /// The bytes that the table keeps in memory.
    pub hot_bytes: usize,
    /// Whether the transaction has claimed rows of the table in memory. A seal passes over claimed
    /// rows, so the wait for one might not end.
    pub claimed: bool,
}

/// Whether one of the tables is at the limit on bytes, but for those of which the transaction has
/// claimed rows.
pub open spec fn some_at_limit(tables: Seq<AdmissionTable>, limit: usize) -> bool {
    exists|i: int|
        0 <= i < tables.len() && !(#[trigger] tables[i]).claimed && tables[i].hot_bytes >= limit
}

impl HotLimits {
    /// Limits before any commit.
    pub fn new(hot_max_rows: usize, hot_max_bytes: usize) -> (l: HotLimits)
        ensures
            l == new_limits(hot_max_rows, hot_max_bytes),
    {
        HotLimits {
            max_rows: hot_max_rows,
            max_bytes: hot_max_bytes,
            seal_requested: false,
            admission_waits: 0,
        }
    }

    /// Takes other bounds.
    pub fn set(&mut self, max_rows: usize, max_bytes: usize)
        ensures
            *final(self) == with_limits(*old(self), max_rows, max_bytes),
    {
        self.max_rows = max_rows;
        self.max_bytes = max_bytes;
    }

    /// Asks for a seal where a committed table is at a limit.
    pub fn request_seal_if_over(&mut self, any_table_at_limit: bool)
        ensures
            *final(self) == (HotLimits {
                seal_requested: old(self).seal_requested || any_table_at_limit,
                ..*old(self)
            }),
    {
        if any_table_at_limit {
            self.seal_requested = true;
        }
    }

    /// The rows from which a table is sealed.
    pub fn seal_rows(&self, has_segments: bool) -> (rows: usize)
        ensures
            rows == seal_threshold(self.max_rows as nat, has_segments),
    {
        let threshold: usize = if has_segments {
            SEAL_INCREMENTAL_THRESHOLD
        } else {
            SEAL_ROW_THRESHOLD
        };
        if self.max_rows > 0 && self.max_rows < threshold {
            self.max_rows
        } else {
            threshold
        }
    }

    /// Whether a commit has to wait for a seal: there is a limit on bytes, the database is
    /// persistent, and one of the commit's tables is at the limit.
    pub fn must_wait(&self, persistent: bool, tables: &[AdmissionTable]) -> (r: bool)
        ensures
            r == (self.max_bytes != 0 && persistent && some_at_limit(tables@, self.max_bytes)),
    {
        if self.max_bytes == 0 || !persistent {
            return false;
        }
        let mut i: usize = 0;
        while i < tables.len()
            invariant
                i <= tables@.len(),
                self.max_bytes != 0,
                persistent,
                forall|k: int|
                    0 <= k < i ==> (#[trigger] tables@[k]).claimed || tables@[k].hot_bytes
                        < self.max_bytes,
            decreases tables@.len() - i,
        {
            if !tables[i].claimed && tables[i].hot_bytes >= self.max_bytes {
                assert(!tables@[i as int].claimed);
                return true;
            }
            i = i + 1;
        }
        false
    }

    /// Whether a commit that waits goes on waiting: one of its tables is still at the limit, and the
    /// deadline has not come. A commit is never refused; after the deadline it goes on.
    pub fn keeps_waiting(&self, tables: &[AdmissionTable], now: u64, deadline: u64) -> (r: bool)
        ensures
            r == (self.max_bytes != 0 && some_at_limit(tables@, self.max_bytes) && now < deadline),
    {
        now < deadline && self.must_wait(true, tables)
    }

    /// Notes that a commit begins to wait, and asks for the seal that it waits for.
    pub fn begin_wait(&mut self)
        ensures
            *final(self) == (HotLimits {
                seal_requested: true,
                admission_waits: if old(self).admission_waits == u64::MAX {
                    0
                } else {
                    (old(self).admission_waits + 1) as u64
                },
                ..*old(self)
            }),
    {
        self.admission_waits = self.admission_waits.wrapping_add(1);
        self.seal_requested = true;
    }

    /// Whether a seal was asked for since the last time this was asked.
    pub fn take_request(&mut self) -> (r: bool)
        ensures
            r == old(self).seal_requested,
            *final(self) == (HotLimits { seal_requested: false, ..*old(self) }),
    {
        let r: bool = self.seal_requested;
        self.seal_requested = false;
        r
    }
}

} // verus!
