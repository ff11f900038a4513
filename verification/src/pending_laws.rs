//! What a commit that passes its checks, and one that does not, says of the rows.

use crate::pending::{
    Conflict, PendingKey, PendingRow, TouchedTable, changed_positions, first_conflict, key_conflict,
    row_conflict, unique_conflict,
};
use vstd::prelude::*;

verus! {

/// Whether a key of a new row version stands in the way of its commit: the key is complete, a volume
/// has it in a row that the transaction has not claimed, and the version is an insert, or an update
/// that changed the key into that of another row.
pub open spec fn clashes(row: PendingRow, key: PendingKey, claimed: Set<i64>) -> bool {
    &&& !row.deleted
    &&& key.complete
    &&& key.found is Some
    &&& !claimed.contains(key.found->Some_0)
    &&& {
        ||| !row.has_read_version && !claimed.contains(row.row_id)
        ||| key.changed && key.found->Some_0 != row.row_id
    }
}

/// Whether some key of a row, its primary key or one of a unique index, clashes.
pub open spec fn some_key_clashes(row: PendingRow, claimed: Set<i64>) -> bool {
    ||| row.primary_key matches Some(key) && clashes(row, key, claimed)
    ||| exists|k: int|
        0 <= k < row.unique_keys@.len() && clashes(row, #[trigger] row.unique_keys@[k], claimed)
}

/// Whether a conflict is that of a row: it names a key of the row that clashes, with the row that
/// has the key in a volume, and no key before it clashes.
pub open spec fn is_conflict_of(row: PendingRow, claimed: Set<i64>, c: Conflict) -> bool {
    match c {
        Conflict::PrimaryKey { row_id } => row.primary_key matches Some(key) && clashes(
            row,
            key,
            claimed,
        ) && key.found == Some(row_id),
        Conflict::Unique { index, row_id } => {
            &&& index < row.unique_keys@.len()
            &&& clashes(row, row.unique_keys@[index as int], claimed)
            &&& row.unique_keys@[index as int].found == Some(row_id)
            &&& !(row.primary_key matches Some(key) && clashes(row, key, claimed))
            &&& forall|k: int|
                0 <= k < index ==> !clashes(row, #[trigger] row.unique_keys@[k], claimed)
        },
    }
}

proof fn lemma_unique(row: PendingRow, claimed: Set<i64>, n: int)
    requires
        !row.deleted,
        0 <= n <= row.unique_keys@.len(),
    ensures
        match unique_conflict(row, claimed, n) {
            None => forall|k: int|
                0 <= k < n ==> !clashes(row, #[trigger] row.unique_keys@[k], claimed),
            Some(Conflict::Unique { index, row_id }) => {
                &&& index < n
                &&& clashes(row, row.unique_keys@[index as int], claimed)
                &&& row.unique_keys@[index as int].found == Some(row_id)
                &&& forall|k: int|
                    0 <= k < index ==> !clashes(row, #[trigger] row.unique_keys@[k], claimed)
            },
            Some(_) => false,
        },
    decreases n,
{
    if n > 0 {
        assert(row.unique_keys.len() == row.unique_keys@.len());
        lemma_unique(row, claimed, n - 1);
        lemma_key(row, row.unique_keys@[n - 1], claimed);
    }
}

proof fn lemma_key(row: PendingRow, key: PendingKey, claimed: Set<i64>)
    requires
        !row.deleted,
    ensures
        key_conflict(row, key, claimed) is Some <==> clashes(row, key, claimed),
        key_conflict(row, key, claimed) is Some ==> key_conflict(row, key, claimed) == key.found,
{
}

proof fn lemma_row(row: PendingRow, claimed: Set<i64>)
    ensures
        match row_conflict(row, claimed) {
            None => !some_key_clashes(row, claimed),
            Some(c) => is_conflict_of(row, claimed, c),
        },
{
    if !row.deleted {
        lemma_unique(row, claimed, row.unique_keys@.len() as int);
        match row.primary_key {
            Some(key) => lemma_key(row, key, claimed),
            None => {},
        }
    }
}

/// Rows pass the check just where no key of any of them clashes, be it the primary key or that of a
/// unique index, and whichever of the two the row has. Where they do not pass, the conflict is that
/// of a row, and no row before it has a key that clashes.
pub proof fn rows_pass_without_clash(rows: Seq<PendingRow>, claimed: Set<i64>)
    ensures
        first_conflict(rows, claimed) is None <==> forall|i: int|
            0 <= i < rows.len() ==> !some_key_clashes(#[trigger] rows[i], claimed),
        first_conflict(rows, claimed) matches Some(c) ==> exists|i: int|
            0 <= i < rows.len() && is_conflict_of(#[trigger] rows[i], claimed, c) && forall|j: int|
                0 <= j < i ==> !some_key_clashes(#[trigger] rows[j], claimed),
    decreases rows.len(),
{
    if rows.len() > 0 {
        let before = rows.drop_last();
        let n = rows.len() - 1;
        rows_pass_without_clash(before, claimed);
        lemma_row(rows[n], claimed);
        assert forall|i: int| 0 <= i < n implies #[trigger] rows[i] == before[i] by {}
        match first_conflict(before, claimed) {
            Some(c) => {
                let i = choose|i: int|
                    0 <= i < before.len() && is_conflict_of(#[trigger] before[i], claimed, c)
                        && forall|j: int|
                        0 <= j < i ==> !some_key_clashes(#[trigger] before[j], claimed);
                assert(rows[i] == before[i]);
                assert forall|j: int| 0 <= j < i implies !some_key_clashes(
                    #[trigger] rows[j],
                    claimed,
                ) by {
                    assert(before[j] == rows[j]);
                }
                assert(is_conflict_of(rows[i], claimed, c));
                assert(some_key_clashes(rows[i], claimed));
            },
            None => {
                assert forall|j: int| 0 <= j < n implies !some_key_clashes(
                    #[trigger] rows[j],
                    claimed,
                ) by {
                    assert(!some_key_clashes(before[j], claimed));
                }
                match row_conflict(rows[n], claimed) {
                    Some(c) => {
                        assert(is_conflict_of(rows[n], claimed, c));
                        assert(some_key_clashes(rows[n], claimed));
                    },
                    None => {},
                }
            },
        }
    }
}

/// The tables whose changes are committed are those that the transaction changed and that are still
/// there: each once, in the order of their use.
pub proof fn changed_tables_are_committed(touched: Seq<TouchedTable>)
    requires
        touched.len() <= usize::MAX,
    ensures
        ({
            let r = changed_positions(touched);
            &&& forall|i: int|
                0 <= i < touched.len() && (#[trigger] touched[i]).has_changes && touched[i].exists
                    ==> r.contains(i as usize)
            &&& forall|k: int|
                0 <= k < r.len() ==> #[trigger] r[k] < touched.len() && touched[r[k] as int].exists
                    && touched[r[k] as int].has_changes
            &&& forall|k: int, m: int| 0 <= k < m < r.len() ==> #[trigger] r[k] < #[trigger] r[m]
        }),
    decreases touched.len(),
{
    if touched.len() > 0 {
        let before = touched.drop_last();
        let n = touched.len() - 1;
        changed_tables_are_committed(before);
        let r0 = changed_positions(before);
        let r = changed_positions(touched);
        assert forall|i: int|
            0 <= i < touched.len() && (#[trigger] touched[i]).has_changes
                && touched[i].exists implies r.contains(i as usize) by {
            if i < n {
                assert(before[i] == touched[i]);
                assert(r0.contains(i as usize));
                let k = choose|k: int| 0 <= k < r0.len() && r0[k] == i as usize;
                assert(r[k] == i as usize);
            } else {
                assert(r[r0.len() as int] == i as usize);
            }
        }
        assert forall|k: int| 0 <= k < r.len() implies #[trigger] r[k] < touched.len()
            && touched[r[k] as int].exists && touched[r[k] as int].has_changes by {
            if k < r0.len() {
                assert(r[k] == r0[k]);
                assert(before[r0[k] as int] == touched[r0[k] as int]);
            }
        }
        assert forall|k: int, m: int| 0 <= k < m < r.len() implies #[trigger] r[k]
            < #[trigger] r[m] by {
            assert(r[k] == r0[k]);
            if m < r0.len() {
                assert(r[m] == r0[m]);
            }
        }
    }
}

/// Rows that pass the check have no key that a row of a volume has which the transaction has not
/// claimed: not where they are inserted, and not where an update changed the key into that of another
/// row. This holds of the primary key and of every unique key, whatever other keys the row has.
pub proof fn accepted_rows_have_no_conflict(rows: Seq<PendingRow>, claimed: Set<i64>, i: int)
    requires
        first_conflict(rows, claimed) is None,
        0 <= i < rows.len(),
        !rows[i].deleted,
    ensures
        forall|k: int|
            0 <= k < rows[i].unique_keys@.len() ==> {
                let key = #[trigger] rows[i].unique_keys@[k];
                !(key.complete && key.found is Some && !claimed.contains(key.found->Some_0) && ((
                !rows[i].has_read_version && !claimed.contains(rows[i].row_id)) || (key.changed
                    && key.found->Some_0 != rows[i].row_id)))
            },
        rows[i].primary_key is Some ==> {
            let key = rows[i].primary_key->Some_0;
            !(key.complete && key.found is Some && !claimed.contains(key.found->Some_0) && ((
            !rows[i].has_read_version && !claimed.contains(rows[i].row_id)) || (key.changed
                && key.found->Some_0 != rows[i].row_id)))
        },
{
    rows_pass_without_clash(rows, claimed);
    assert(!some_key_clashes(rows[i], claimed));
    assert forall|k: int| 0 <= k < rows[i].unique_keys@.len() implies !clashes(
        rows[i],
        #[trigger] rows[i].unique_keys@[k],
        claimed,
    ) by {}
}

/// A row whose unique key is complete, and is that of an unclaimed row of a volume, keeps a commit
/// from passing where the row is inserted, even if the row has a primary key that no row has.
pub proof fn taken_unique_key_is_refused(rows: Seq<PendingRow>, claimed: Set<i64>, i: int, k: int)
    requires
        0 <= i < rows.len(),
        0 <= k < rows[i].unique_keys@.len(),
        !rows[i].deleted,
        !rows[i].has_read_version,
        !claimed.contains(rows[i].row_id),
        rows[i].unique_keys@[k].complete,
        rows[i].unique_keys@[k].found is Some,
        !claimed.contains(rows[i].unique_keys@[k].found->Some_0),
    ensures
        first_conflict(rows, claimed) is Some,
{
    rows_pass_without_clash(rows, claimed);
    assert(clashes(rows[i], rows[i].unique_keys@[k], claimed));
    assert(some_key_clashes(rows[i], claimed));
}

} // verus!
