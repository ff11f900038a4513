//! Which tables are sealed, what becomes of their rows, and what their tombstones say afterwards.

use crate::compaction_run::tombstones_rewritten;
use crate::hot_limits::{
    AdmissionTable, HotLimits, new_limits, seal_threshold, some_at_limit, with_limits,
};
use crate::rows::{ValueV, filler, normalized, padded};
use crate::schema::ColumnV;
use crate::seal::{
    HotTable, is_sealed, sealed_positions, sealed_rows, tombstones_sealed,
};
use vstd::prelude::*;

verus! {

/// A table with rows in memory is sealed from 100,000 rows on, and from 10,000 where it has volumes;
/// from the limit on rows, where there is one and it is lower; and by force from one row on.
pub proof fn table_is_sealed_from_its_threshold(t: HotTable, max_rows: nat, force: bool)
    ensures
        t.rows == 0 ==> !is_sealed(t, max_rows, force),
        t.rows > 0 && force ==> is_sealed(t, max_rows, force),
        t.rows >= 100_000 ==> is_sealed(t, max_rows, force),
        t.rows >= 10_000 && t.has_segments ==> is_sealed(t, max_rows, force),
        0 < max_rows <= t.rows ==> is_sealed(t, max_rows, force),
        t.rows < 10_000 && (max_rows == 0 || t.rows < max_rows) && !force ==> !is_sealed(
            t,
            max_rows,
            force,
        ),
        t.rows < 100_000 && !t.has_segments && (max_rows == 0 || t.rows < max_rows) && !force
            ==> !is_sealed(t, max_rows, force),
{
}

/// The threshold of a table is never above that of its kind, nor above the limit on rows where there
/// is one; a table with volumes has no higher one than a table without.
pub proof fn threshold_is_bounded(max_rows: nat, has_segments: bool)
    ensures
        seal_threshold(max_rows, has_segments) <= 100_000,
        has_segments ==> seal_threshold(max_rows, has_segments) <= 10_000,
        max_rows > 0 ==> seal_threshold(max_rows, has_segments) <= max_rows,
        max_rows == 0 || max_rows >= 100_000 ==> seal_threshold(max_rows, false) == 100_000,
        max_rows == 0 || max_rows >= 10_000 ==> seal_threshold(max_rows, true) == 10_000,
        seal_threshold(max_rows, true) <= seal_threshold(max_rows, false),
        seal_threshold(max_rows, has_segments) > 0,
{
}

/// The tables that are sealed are those that have rows and reach their threshold, or that have rows
/// where the seal is forced: each once, in order.
pub proof fn sealed_tables_are_listed(tables: Seq<HotTable>, max_rows: nat, force: bool)
    requires
        tables.len() <= usize::MAX,
    ensures
        ({
            let r = sealed_positions(tables, max_rows, force);
            &&& forall|i: int|
                0 <= i < tables.len() && (#[trigger] tables[i]).rows > 0 && (force || tables[i].rows
                    >= seal_threshold(max_rows, tables[i].has_segments)) ==> r.contains(i as usize)
            &&& forall|k: int|
                0 <= k < r.len() ==> #[trigger] r[k] < tables.len() && tables[r[k] as int].rows > 0
                    && (force || tables[r[k] as int].rows >= seal_threshold(
                    max_rows,
                    tables[r[k] as int].has_segments,
                ))
            &&& forall|k: int, m: int| 0 <= k < m < r.len() ==> #[trigger] r[k] < #[trigger] r[m]
        }),
    decreases tables.len(),
{
    if tables.len() > 0 {
        let before = tables.drop_last();
        let n = tables.len() - 1;
        sealed_tables_are_listed(before, max_rows, force);
        let r0 = sealed_positions(before, max_rows, force);
        let r = sealed_positions(tables, max_rows, force);
        assert forall|i: int|
            0 <= i < tables.len() && (#[trigger] tables[i]).rows > 0 && (force || tables[i].rows
                >= seal_threshold(max_rows, tables[i].has_segments)) implies r.contains(
            i as usize,
        ) by {
            if i < n {
                assert(before[i] == tables[i]);
                assert(r0.contains(i as usize));
                let k = choose|k: int| 0 <= k < r0.len() && r0[k] == i as usize;
                assert(r[k] == i as usize);
            } else {
                assert(r[r0.len() as int] == i as usize);
            }
        }
        assert forall|k: int| 0 <= k < r.len() implies #[trigger] r[k] < tables.len()
            && tables[r[k] as int].rows > 0 && (force || tables[r[k] as int].rows
            >= seal_threshold(max_rows, tables[r[k] as int].has_segments)) by {
            if k < r0.len() {
                assert(r[k] == r0[k]);
                assert(before[r0[k] as int] == tables[r0[k] as int]);
            }
        }
        assert forall|k: int, m: int| 0 <= k < m < r.len() implies #[trigger] r[k]
            < #[trigger] r[m] by {
            assert(r[k] == r0[k]);
            if m < r0.len() {
                assert(r[m] == r0[m]);
            }
        }
    }
}

/// A sealed row has one value for every column: those that it had; and for a column that was added
/// since, the column's default, or NULL of its type where it has none.
pub proof fn sealed_row_has_every_column(row: Seq<ValueV>, columns: Seq<ColumnV>)
    ensures
        ({
            let r = normalized(row, columns);
            &&& r.len() == columns.len()
            &&& forall|i: int|
                0 <= i < columns.len() && i < row.len() ==> #[trigger] r[i] == row[i]
            &&& forall|i: int|
                #![trigger r[i]]
                #![trigger columns[i]]
                row.len() <= i < columns.len() ==> match columns[i].default_value {
                    Some(b) => r[i] == ValueV::Encoded(b),
                    None => r[i] == ValueV::Null(columns[i].data_type),
                }
        }),
        ({
            let p = padded(row, columns);
            &&& p.len() == if row.len() < columns.len() {
                columns.len()
            } else {
                row.len()
            }
            &&& forall|i: int| 0 <= i < row.len() ==> #[trigger] p[i] == row[i]
            &&& forall|i: int|
                #![trigger p[i]]
                #![trigger columns[i]]
                row.len() <= i < columns.len() ==> match columns[i].default_value {
                    Some(b) => p[i] == ValueV::Encoded(b),
                    None => p[i] == ValueV::Null(columns[i].data_type),
                }
        }),
{
    let p = padded(row, columns);
    assert forall|i: int| row.len() <= i < columns.len() implies #[trigger] p[i] == filler(
        columns[i],
    ) by {}
}

/// After a seal, a row that changed meanwhile has a tombstone from the seal, which hides its copy in
/// the volume; no other sealed row has one, whatever there was before; and every other tombstone is
/// as it was.
pub proof fn seal_settles_tombstones(
    tombstones: Map<i64, u64>,
    volumes: Seq<&[i64]>,
    skipped: Set<i64>,
    seq: u64,
    x: i64,
)
    ensures
        ({
            let after = tombstones_sealed(tombstones, sealed_rows(volumes), skipped, seq);
            let sealed = exists|v: int|
                0 <= v < volumes.len() && (#[trigger] volumes[v])@.contains(x);
            &&& skipped.contains(x) ==> after.contains_key(x) && after[x] == seq
            &&& !skipped.contains(x) && sealed ==> !after.contains_key(x)
            &&& !skipped.contains(x) && !sealed ==> (after.contains_key(x)
                <==> tombstones.contains_key(x)) && (tombstones.contains_key(x) ==> after[x]
                == tombstones[x])
        }),
{
}

/// After a rewrite, a tombstone is gone just where the rewrite applied it, as it stands, to a row of
/// its volumes; every other is as it was.
pub proof fn rewrite_clears_what_it_applied(
    tombstones: Map<i64, u64>,
    applied: Map<i64, u64>,
    rows: Set<i64>,
    x: i64,
)
    requires
        tombstones.contains_key(x),
    ensures
        ({
            let after = tombstones_rewritten(tombstones, applied, rows);
            &&& rows.contains(x) && applied.contains_key(x) && applied[x] == tombstones[x]
                ==> !after.contains_key(x)
            &&& !rows.contains(x) ==> after.contains_key(x)
            &&& !applied.contains_key(x) ==> after.contains_key(x)
            &&& applied.contains_key(x) && applied[x] != tombstones[x] ==> after.contains_key(x)
            &&& after.contains_key(x) ==> after[x] == tombstones[x]
        }),
{
}

/// A rewrite adds no tombstone.
pub proof fn rewrite_adds_no_tombstone(
    tombstones: Map<i64, u64>,
    applied: Map<i64, u64>,
    rows: Set<i64>,
    x: i64,
)
    ensures
        tombstones_rewritten(tombstones, applied, rows).contains_key(x)
            ==> tombstones.contains_key(x),
{
}

/// New limits are those that were given, with nothing asked for; other limits leave what was asked
/// for as it is.
pub proof fn limits_are_as_given(l: HotLimits, max_rows: usize, max_bytes: usize)
    ensures
        new_limits(max_rows, max_bytes).max_rows == max_rows,
        new_limits(max_rows, max_bytes).max_bytes == max_bytes,
        !new_limits(max_rows, max_bytes).seal_requested,
        new_limits(max_rows, max_bytes).admission_waits == 0,
        with_limits(l, max_rows, max_bytes).max_rows == max_rows,
        with_limits(l, max_rows, max_bytes).max_bytes == max_bytes,
        with_limits(l, max_rows, max_bytes).seal_requested == l.seal_requested,
        with_limits(l, max_rows, max_bytes).admission_waits == l.admission_waits,
{
}

/// A commit waits for a table that is at the limit on bytes, and only for one of which it has claimed
/// no rows.
pub proof fn commit_waits_for_full_tables(tables: Seq<AdmissionTable>, limit: usize)
    ensures
        forall|i: int|
            0 <= i < tables.len() && (#[trigger] tables[i]).hot_bytes >= limit && !tables[i].claimed
                ==> some_at_limit(tables, limit),
        (forall|i: int|
            0 <= i < tables.len() ==> (#[trigger] tables[i]).claimed || tables[i].hot_bytes < limit)
            ==> !some_at_limit(tables, limit),
{
}

} // verus!
