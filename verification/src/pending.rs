//! What a transaction has changed and not yet committed.

use crate::engine::IsolationLevel;
use crate::names::name_views;
use crate::pending_laws::{is_conflict_of, rows_pass_without_clash, some_key_clashes};
use crate::recovery::WalOperation;
use crate::row_set::contains_row;
use crate::bytes::{i64_bits, i64_to_bits};
use rustc_hash::FxHashSet;
use vstd::prelude::*;
use vstd::string::*;

verus! {

// ---------------------------------------------------------------------------
// Conflicts with rows in volumes
// ---------------------------------------------------------------------------

/// A key of a new row version: that of the primary key or of a unique index.
#[derive(Debug, Clone, Copy, PartialEq, Eq, Structural)]
pub struct PendingKey {
    /// Whether the row has a value, other than NULL, for each of the key's columns.
    pub complete: bool,
    /// Whether the key differs from that of the version that the transaction read, or it read none.
    pub changed: bool,
    /// The row with this key in a volume.
    pub found: Option<i64>,
}

/// A new row version of a transaction.
#[derive(Debug)]
pub struct PendingRow {
    pub row_id: i64,
    /// Whether the version deletes the row.
    pub deleted: bool,
    /// Whether the transaction read a version of the row in memory.
    pub has_read_version: bool,
    /// The primary key, where the table has one and the row a value for it.
    pub primary_key: Option<PendingKey>,
    /// The keys of the unique indexes.
    pub unique_keys: Vec<PendingKey>,
}

/// Why a transaction cannot be committed: a row in a volume has the same key.
#[derive(Debug, Clone, Copy, PartialEq, Eq, Structural)]
pub enum Conflict {
    PrimaryKey { row_id: i64 },
    /// The unique index at a position.
    Unique { index: usize, row_id: i64 },
}

/// Whether a version is of a new row: the transaction read no version of it in memory, and claimed
/// none in a volume.
pub open spec fn is_insert(row: PendingRow, claimed: Set<i64>) -> bool {
    !row.has_read_version && !claimed.contains(row.row_id)
}

/// The row in a volume that a key conflicts with. Rows that the transaction claimed do not count,
/// nor does the row itself where it is an update; an update whose key is unchanged is not checked.
pub open spec fn key_conflict(row: PendingRow, key: PendingKey, claimed: Set<i64>) -> Option<i64> {
    let insert = is_insert(row, claimed);
    match key.found {
        Some(found) => if key.complete && (insert || key.changed) && (insert || found
            != row.row_id) && !claimed.contains(found) {
            Some(found)
        } else {
            None
        },
        None => None,
    }
}

/// The first conflict among the first `n` unique keys of a row.
pub open spec fn unique_conflict(row: PendingRow, claimed: Set<i64>, n: int) -> Option<Conflict>
    decreases n,
{
    if n <= 0 {
        None
    } else {
        match unique_conflict(row, claimed, n - 1) {
            Some(c) => Some(c),
            None => match key_conflict(row, row.unique_keys@[n - 1], claimed) {
                Some(row_id) => Some(Conflict::Unique { index: (n - 1) as usize, row_id }),
                None => None,
            },
        }
    }
}

/// The conflict of the primary key of a row.
pub open spec fn primary_conflict(row: PendingRow, claimed: Set<i64>) -> Option<Conflict> {
    match row.primary_key {
        Some(key) => match key_conflict(row, key, claimed) {
            Some(row_id) => Some(Conflict::PrimaryKey { row_id }),
            None => None,
        },
        None => None,
    }
}

/// The first conflict of a row: that of its primary key comes first.
pub open spec fn row_conflict(row: PendingRow, claimed: Set<i64>) -> Option<Conflict> {
    if row.deleted {
        None
    } else {
        match primary_conflict(row, claimed) {
            Some(c) => Some(c),
            None => unique_conflict(row, claimed, row.unique_keys@.len() as int),
        }
    }
}

/// The first conflict of some rows.
pub open spec fn first_conflict(rows: Seq<PendingRow>, claimed: Set<i64>) -> Option<Conflict>
    decreases rows.len(),
{
    if rows.len() == 0 {
        None
    } else {
        match first_conflict(rows.drop_last(), claimed) {
            Some(c) => Some(c),
            None => row_conflict(rows.last(), claimed),
        }
    }
}

fn conflicting_row(row: &PendingRow, key: &PendingKey, claimed: &FxHashSet<i64>) -> (r: Option<i64>)
    ensures
        r == key_conflict(*row, *key, claimed@),
{
    let insert: bool = !row.has_read_version && !contains_row(claimed, row.row_id);
    match key.found {
        Some(found) => if key.complete && (insert || (key.changed && found != row.row_id))
            && !contains_row(claimed, found) {
            Some(found)
        } else {
            None
        },
        None => None,
    }
}

fn conflict_of_row(row: &PendingRow, claimed: &FxHashSet<i64>) -> (r: Option<Conflict>)
    ensures
        r == row_conflict(*row, claimed@),
{
    if row.deleted {
        return None;
    }
    match &row.primary_key {
        Some(key) => match conflicting_row(row, key, claimed) {
            Some(row_id) => {
                return Some(Conflict::PrimaryKey { row_id });
            },
            None => {},
        },
        None => {},
    }
    let mut i: usize = 0;
    while i < row.unique_keys.len()
        invariant
            i <= row.unique_keys@.len(),
            !row.deleted,
            primary_conflict(*row, claimed@) is None,
            unique_conflict(*row, claimed@, i as int) is None,
        decreases row.unique_keys@.len() - i,
    {
        match conflicting_row(row, &row.unique_keys[i], claimed) {
            Some(row_id) => {
                let c = Conflict::Unique { index: i, row_id };
                proof {
                    assert(unique_conflict(*row, claimed@, i + 1) == Some(c));
                    lemma_unique_conflict_stays(
                        *row,
                        claimed@,
                        i + 1,
                        row.unique_keys@.len() as int,
                    );
                }
                return Some(c);
            },
            None => {},
        }
        i = i + 1;
    }
    None
}

proof fn lemma_unique_conflict_stays(row: PendingRow, claimed: Set<i64>, n: int, m: int)
    requires
        0 <= n <= m,
        unique_conflict(row, claimed, n) is Some,
    ensures
        unique_conflict(row, claimed, m) == unique_conflict(row, claimed, n),
    decreases m - n,
{
    if n < m {
        lemma_unique_conflict_stays(row, claimed, n, m - 1);
    }
}

proof fn lemma_conflict_stays(rows: Seq<PendingRow>, claimed: Set<i64>, n: int)
    requires
        0 <= n <= rows.len(),
        first_conflict(rows.take(n), claimed) is Some,
    ensures
        first_conflict(rows, claimed) == first_conflict(rows.take(n), claimed),
    decreases rows.len() - n,
{
    if n < rows.len() {
        let before = rows.drop_last();
        assert(before.take(n) =~= rows.take(n));
        lemma_conflict_stays(before, claimed, n);
    } else {
        assert(rows.take(n) =~= rows);
    }
}

/// Checks the new rows of a table against its volumes, once a seal may have moved rows there since
/// the transaction made its own checks. `claimed` has the rows of volumes that the transaction
/// replaces or deletes.
pub fn validate_pending_against_cold(rows: &[PendingRow], claimed: &FxHashSet<i64>) -> (r: Result<
    (),
    Conflict,
>)
    ensures
        r == match first_conflict(rows@, claimed@) {
            Some(c) => Err::<(), Conflict>(c),
            None => Ok(()),
        },
        r is Ok <==> forall|i: int|
            0 <= i < rows@.len() ==> !some_key_clashes(#[trigger] rows@[i], claimed@),
        r matches Err(c) ==> exists|i: int|
            0 <= i < rows@.len() && is_conflict_of(#[trigger] rows@[i], claimed@, c),
{
    proof {
        rows_pass_without_clash(rows@, claimed@);
    }
    let mut i: usize = 0;
    assert(rows@.take(0) =~= Seq::empty());
    while i < rows.len()
        invariant
            i <= rows@.len(),
            first_conflict(rows@.take(i as int), claimed@) is None,
        decreases rows@.len() - i,
    {
        proof {
            assert(rows@.take(i + 1).drop_last() =~= rows@.take(i as int));
            assert(rows@.take(i + 1).last() == rows@[i as int]);
        }
        match conflict_of_row(&rows[i], claimed) {
            Some(c) => {
                proof {
                    lemma_conflict_stays(rows@, claimed@, i + 1);
                    rows_pass_without_clash(rows@, claimed@);
                }
                return Err(c);
            },
            None => {},
        }
        i = i + 1;
    }
    assert(rows@.take(i as int) =~= rows@);
    Ok(())
}

/// The row that a conflict is with.
pub open spec fn conflicting_id(c: Conflict) -> i64 {
    match c {
        Conflict::PrimaryKey { row_id } => row_id,
        Conflict::Unique { index, row_id } => row_id,
    }
}

/// A transaction does not conflict with a row of a volume that it replaces or deletes itself.
pub proof fn no_conflict_with_own_rows(rows: Seq<PendingRow>, claimed: Set<i64>)
    ensures
        match first_conflict(rows, claimed) {
            Some(c) => !claimed.contains(conflicting_id(c)),
            None => true,
        },
    decreases rows.len(),
{
    if rows.len() > 0 {
        no_conflict_with_own_rows(rows.drop_last(), claimed);
        let row = rows.last();
        lemma_unique_conflict_unclaimed(row, claimed, row.unique_keys@.len() as int);
    }
}

proof fn lemma_unique_conflict_unclaimed(row: PendingRow, claimed: Set<i64>, n: int)
    ensures
        match unique_conflict(row, claimed, n) {
            Some(c) => !claimed.contains(conflicting_id(c)),
            None => true,
        },
    decreases n,
{
    if n > 0 {
        lemma_unique_conflict_unclaimed(row, claimed, n - 1);
    }
}

/// Whether a table's new rows are checked against its volumes at commit: a seal came between, or the
/// transaction noted no seal and there are volumes.
pub fn needs_recheck(recorded: Option<u64>, generation: u64, has_segments: bool) -> (r: bool)
    ensures
        r == match recorded {
            Some(g) => g != generation,
            None => has_segments,
        },
{
    match recorded {
        Some(g) => g != generation,
        None => has_segments,
    }
}

// ---------------------------------------------------------------------------
// What is written to the log
// ---------------------------------------------------------------------------

/// A new row version of a transaction, as it is written to the log.
#[derive(Debug, Clone, Copy, PartialEq, Eq, Structural)]
pub struct LoggedVersion {
    pub row_id: i64,
    pub operation: WalOperation,
    /// The transaction that made the version.
    pub txn_id: i64,
    /// The transaction that deleted the row; 0 for none.
    pub deleted_at_txn_id: i64,
}

/// A version as it is written to the log.
pub fn logged_version(row_id: i64, deleted: bool, txn_id: i64) -> (v: LoggedVersion)
    ensures
        v == (LoggedVersion {
            row_id,
            operation: if deleted {
                WalOperation::Delete
            } else {
                WalOperation::Insert
            },
            txn_id,
            deleted_at_txn_id: if deleted {
                txn_id
            } else {
                0
            },
        }),
{
    if deleted {
        LoggedVersion {
            row_id,
            operation: WalOperation::Delete,
            txn_id,
            deleted_at_txn_id: txn_id,
        }
    } else {
        LoggedVersion { row_id, operation: WalOperation::Insert, txn_id, deleted_at_txn_id: 0 }
    }
}

// ---------------------------------------------------------------------------
// The tables of transactions
// ---------------------------------------------------------------------------

/// A table that a transaction has used.
#[derive(Debug)]
pub struct TouchedTable {
    pub name: String,
    /// Whether the transaction has changes of the table in memory.
    pub has_changes: bool,
    /// Whether the table still exists.
    pub exists: bool,
    /// Whether the transaction has tombstones for rows of the table's volumes.
    pub has_tombstones: bool,
}

/// Whether a transaction has changed something: rows in memory, or, by tombstones, rows in volumes.
pub fn has_pending_dml_changes(touched: &[TouchedTable]) -> (r: bool)
    ensures
        r == exists|i: int|
            0 <= i < touched@.len() && ((#[trigger] touched@[i]).has_changes
                || touched@[i].has_tombstones),
{
    let mut i: usize = 0;
    while i < touched.len()
        invariant
            i <= touched@.len(),
            forall|k: int|
                0 <= k < i ==> !((#[trigger] touched@[k]).has_changes || touched@[k].has_tombstones),
        decreases touched@.len() - i,
    {
        if touched[i].has_changes || touched[i].has_tombstones {
            assert(touched@[i as int].has_changes || touched@[i as int].has_tombstones);
            return true;
        }
        i = i + 1;
    }
    false
}

/// The positions of the tables whose changes in memory are committed.
pub open spec fn changed_positions(touched: Seq<TouchedTable>) -> Seq<usize>
    decreases touched.len(),
{
    if touched.len() == 0 {
        Seq::empty()
    } else {
        let before = changed_positions(touched.drop_last());
        if touched.last().has_changes && touched.last().exists {
            before.push((touched.len() - 1) as usize)
        } else {
            before
        }
    }
}

/// The positions of the tables whose changes in memory are committed.
pub fn tables_to_commit(touched: &[TouchedTable]) -> (r: Vec<usize>)
    ensures
        r@ == changed_positions(touched@),
{
    let mut out: Vec<usize> = Vec::new();
    let mut i: usize = 0;
    assert(touched@.take(0) =~= Seq::empty());
    while i < touched.len()
        invariant
            i <= touched@.len(),
            out@ == changed_positions(touched@.take(i as int)),
        decreases touched@.len() - i,
    {
        proof {
            assert(touched@.take(i + 1).drop_last() =~= touched@.take(i as int));
            assert(touched@.take(i + 1).last() == touched@[i as int]);
        }
        if touched[i].has_changes && touched[i].exists {
            out.push(i);
        }
        i = i + 1;
    }
    assert(touched@.take(i as int) =~= touched@);
    out
}

/// The tables that each transaction has used.
pub struct TransactionTables {
    entries: Vec<(i64, Vec<String>)>,
}

/// The names under a transaction, in a list of transactions and names.
pub open spec fn names_under(entries: Seq<(i64, Vec<String>)>, txn_id: i64) -> Seq<Seq<char>>
    decreases entries.len(),
{
    if entries.len() == 0 {
        Seq::empty()
    } else if entries.last().0 == txn_id {
        name_views(entries.last().1@)
    } else {
        names_under(entries.drop_last(), txn_id)
    }
}

impl TransactionTables {
    /// Whether no transaction is listed twice.
    pub closed spec fn wf(&self) -> bool {
        forall|i: int, j: int|
            0 <= i < j < self.entries@.len() ==> (#[trigger] self.entries@[i]).0 != (
            #[trigger] self.entries@[j]).0
    }

    /// The tables that a transaction has used, in the order of their first use.
    pub closed spec fn names_of(&self, txn_id: i64) -> Seq<Seq<char>> {
        names_under(self.entries@, txn_id)
    }

    /// No transaction has used a table.
    pub fn new() -> (t: TransactionTables)
        ensures
            t.wf(),
            forall|txn_id: i64| (#[trigger] t.names_of(txn_id)).len() == 0,
    {
        TransactionTables { entries: Vec::new() }
    }

    fn position(&self, txn_id: i64) -> (r: Option<usize>)
        requires
            self.wf(),
        ensures
            match r {
                Some(i) => i < self.entries@.len() && self.entries@[i as int].0 == txn_id
                    && self.names_of(txn_id) == name_views(self.entries@[i as int].1@),
                None => self.names_of(txn_id).len() == 0 && forall|k: int|
                    0 <= k < self.entries@.len() ==> (#[trigger] self.entries@[k]).0 != txn_id,
            },
    {
        let mut i: usize = 0;
        while i < self.entries.len()
            invariant
                i <= self.entries@.len(),
                self.wf(),
                forall|k: int| 0 <= k < i ==> (#[trigger] self.entries@[k]).0 != txn_id,
            decreases self.entries@.len() - i,
        {
            if self.entries[i].0 == txn_id {
                proof {
                    lemma_names_under(self.entries@, i as int);
                }
                return Some(i);
            }
            i = i + 1;
        }
        proof {
            lemma_names_absent(self.entries@, txn_id);
        }
        None
    }

    /// The tables that a transaction has used.
    pub fn tables(&self, txn_id: i64) -> (r: Vec<String>)
        requires
            self.wf(),
        ensures
            name_views(r@) == self.names_of(txn_id),
    {
        let mut out: Vec<String> = Vec::new();
        match self.position(txn_id) {
            None => {
                assert(name_views(out@) =~= self.names_of(txn_id));
            },
            Some(p) => {
                let ghost views = name_views(self.entries@[p as int].1@);
                let mut i: usize = 0;
                assert(name_views(out@) =~= views.take(0));
                while i < self.entries[p].1.len()
                    invariant
                        p < self.entries@.len(),
                        i <= self.entries@[p as int].1@.len(),
                        views == name_views(self.entries@[p as int].1@),
                        name_views(out@) == views.take(i as int),
                    decreases self.entries@[p as int].1@.len() - i,
                {
                    let ghost before = name_views(out@);
                    out.push(self.entries[p].1[i].as_str().to_owned());
                    proof {
                        assert(views[i as int] == self.entries@[p as int].1@[i as int]@);
                        assert(name_views(out@) =~= before.push(views[i as int]));
                        assert(views.take(i + 1) =~= views.take(i as int).push(views[i as int]));
                    }
                    i = i + 1;
                }
                assert(views.take(i as int) =~= views);
            },
        }
        out
    }

    /// Notes that a transaction uses a table, by its name in lower case, and says whether it is the
    /// first use.
    pub fn touch(&mut self, txn_id: i64, table: &str) -> (fresh: bool)
        requires
            old(self).wf(),
        ensures
            final(self).wf(),
            fresh == !old(self).names_of(txn_id).contains(table@),
            final(self).names_of(txn_id) == if fresh {
                old(self).names_of(txn_id).push(table@)
            } else {
                old(self).names_of(txn_id)
            },
            forall|other: i64|
                other != txn_id ==> #[trigger] final(self).names_of(other) == old(self).names_of(
                    other,
                ),
    {
        let ghost start = self.entries@;
        match self.position(txn_id) {
            Some(p) => {
                let ghost views = name_views(self.entries@[p as int].1@);
                let wanted = table.to_owned();
                let mut i: usize = 0;
                while i < self.entries[p].1.len()
                    invariant
                        p < self.entries@.len(),
                        self.entries@ == start,
                        self.wf(),
                        *self == *old(self),
                        i <= self.entries@[p as int].1@.len(),
                        views == name_views(self.entries@[p as int].1@),
                        views == old(self).names_of(txn_id),
                        wanted@ == table@,
                        forall|k: int| 0 <= k < i ==> #[trigger] views[k] != table@,
                    decreases self.entries@[p as int].1@.len() - i,
                {
                    assert(views[i as int] == self.entries@[p as int].1@[i as int]@);
                    if self.entries[p].1[i] == wanted {
                        assert(views.contains(table@));
                        return false;
                    }
                    i = i + 1;
                }
                self.entries[p].1.push(wanted);
                proof {
                    assert(name_views(self.entries@[p as int].1@) =~= views.push(table@));
                    assert forall|a: int, b: int| 0 <= a < b < self.entries@.len() implies (
                    #[trigger] self.entries@[a]).0 != (#[trigger] self.entries@[b]).0 by {
                        assert(start[a].0 != start[b].0);
                    }
                    lemma_names_under(self.entries@, p as int);
                    assert forall|other: i64| other != txn_id implies #[trigger] self.names_of(other)
                        == old(self).names_of(other) by {
                        lemma_names_elsewhere(start, self.entries@, p as int, other);
                    }
                }
                true
            },
            None => {
                let mut names: Vec<String> = Vec::new();
                names.push(table.to_owned());
                assert(name_views(names@) =~= old(self).names_of(txn_id).push(table@));
                self.entries.push((txn_id, names));
                proof {
                    assert(self.entries@.drop_last() =~= start);
                    assert forall|a: int, b: int| 0 <= a < b < self.entries@.len() implies (
                    #[trigger] self.entries@[a]).0 != (#[trigger] self.entries@[b]).0 by {
                        assert(self.entries@[a] == start[a]);
                        if b < start.len() {
                            assert(self.entries@[b] == start[b]);
                        }
                    }
                }
                true
            },
        }
    }

    /// Forgets a transaction.
    pub fn remove(&mut self, txn_id: i64)
        requires
            old(self).wf(),
        ensures
            final(self).wf(),
            final(self).names_of(txn_id).len() == 0,
            forall|other: i64|
                other != txn_id ==> #[trigger] final(self).names_of(other) == old(self).names_of(
                    other,
                ),
    {
        let ghost start = self.entries@;
        match self.position(txn_id) {
            None => {},
            Some(p) => {
                self.entries.remove(p);
                proof {
                    let after = self.entries@;
                    assert forall|a: int, b: int| 0 <= a < b < after.len() implies (
                    #[trigger] after[a]).0 != (#[trigger] after[b]).0 by {
                        let x = if a < p { a } else { a + 1 };
                        let y = if b < p { b } else { b + 1 };
                        assert(after[a] == start[x] && after[b] == start[y]);
                        assert(start[x].0 != start[y].0);
                    }
                    assert forall|k: int| 0 <= k < after.len() implies (#[trigger] after[k]).0
                        != txn_id by {
                        let x = if k < p { k } else { k + 1 };
                        assert(after[k] == start[x]);
                        if x < p {
                            assert(start[x].0 != start[p as int].0);
                        } else {
                            assert(start[p as int].0 != start[x].0);
                        }
                    }
                    lemma_names_absent(after, txn_id);
                    assert forall|other: i64| other != txn_id implies #[trigger] self.names_of(other)
                        == old(self).names_of(other) by {
                        lemma_names_removed(start, p as int, other);
                    }
                }
            },
        }
    }
}

proof fn lemma_names_under(entries: Seq<(i64, Vec<String>)>, i: int)
    requires
        0 <= i < entries.len(),
        forall|a: int, b: int|
            0 <= a < b < entries.len() ==> (#[trigger] entries[a]).0 != (#[trigger] entries[b]).0,
    ensures
        names_under(entries, entries[i].0) == name_views(entries[i].1@),
    decreases entries.len(),
{
    if i < entries.len() - 1 {
        let before = entries.drop_last();
        assert forall|a: int, b: int| 0 <= a < b < before.len() implies (#[trigger] before[a]).0 != (
        #[trigger] before[b]).0 by {
            assert(entries[a].0 != entries[b].0);
        }
        assert(entries[i].0 != entries[entries.len() - 1].0);
        assert(before[i] == entries[i]);
        lemma_names_under(before, i);
    }
}

proof fn lemma_names_absent(entries: Seq<(i64, Vec<String>)>, txn_id: i64)
    requires
        forall|k: int| 0 <= k < entries.len() ==> (#[trigger] entries[k]).0 != txn_id,
    ensures
        names_under(entries, txn_id).len() == 0,
    decreases entries.len(),
{
    if entries.len() > 0 {
        assert(entries[entries.len() - 1].0 != txn_id);
        lemma_names_absent(entries.drop_last(), txn_id);
    }
}

proof fn lemma_names_elsewhere(
    s: Seq<(i64, Vec<String>)>,
    t: Seq<(i64, Vec<String>)>,
    p: int,
    other: i64,
)
    requires
        s.len() == t.len(),
        0 <= p < s.len() ==> s[p].0 == t[p].0 && s[p].0 != other,
        forall|k: int| 0 <= k < s.len() && k != p ==> #[trigger] s[k] == t[k],
    ensures
        names_under(s, other) == names_under(t, other),
    decreases s.len(),
{
    if s.len() > 0 {
        lemma_names_elsewhere(s.drop_last(), t.drop_last(), p, other);
    }
}

proof fn lemma_names_removed(s: Seq<(i64, Vec<String>)>, p: int, other: i64)
    requires
        0 <= p < s.len(),
        s[p].0 != other,
    ensures
        names_under(s.remove(p), other) == names_under(s, other),
    decreases s.len(),
{
    if p < s.len() - 1 {
        lemma_names_removed(s.drop_last(), p, other);
        assert(s.remove(p).drop_last() =~= s.drop_last().remove(p));
    } else {
        assert(s.remove(p) =~= s.drop_last());
    }
}

/// The point in time at which a transaction sees the rows of volumes: its beginning, where it is
/// isolated from later commits.
pub fn snapshot_sequence(level: IsolationLevel, begin_sequence: i64) -> (r: Option<u64>)
    ensures
        r == if level == IsolationLevel::SnapshotIsolation {
            Some(i64_bits(begin_sequence as int) as u64)
        } else {
            None
        },
{
    match level {
        IsolationLevel::SnapshotIsolation => Some(i64_to_bits(begin_sequence)),
        IsolationLevel::ReadCommitted => None,
    }
}

/// Whether a table is read together with its volumes: always in a persistent database, which may seal
/// rows at any moment, and elsewhere once there are volumes.
pub fn reads_volumes(persistent: bool, has_segments: bool) -> (r: bool)
    ensures
        r == (persistent || has_segments),
{
    persistent || has_segments
}

} // verus!
