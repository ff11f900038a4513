//! Sealing: the rows that a table keeps in memory become a volume.

use crate::bytes::{i64_bits, i64_to_bits};
use crate::compaction::{chunk_ranges, output_bounds, rows_of_batch};
use crate::hot_limits::{HotLimits, seal_threshold};
use crate::row_set::{contains_row, holds_entries, insert_row_value, new_row_map, row_entries};
use crate::rows::{ColumnValue, normalize_row, normalized, value_views};
use crate::schema::Schema;
use crate::recovery::largest_of;
use rustc_hash::FxHashMap;
use vstd::prelude::*;

verus! {

// ---------------------------------------------------------------------------
// Which tables are sealed
// ---------------------------------------------------------------------------

/// What decides whether a table is sealed.
#[derive(Debug, Clone, Copy, PartialEq, Eq, Structural)]
pub struct HotTable {
    /// The committed rows in memory.
    pub rows: usize,
    /// Whether the table has volumes.
    pub has_segments: bool,
}

/// Whether a table is sealed: it has rows in memory, and as many as its threshold or by force.
pub open spec fn is_sealed(t: HotTable, max_rows: nat, force: bool) -> bool {
    t.rows > 0 && (force || t.rows >= seal_threshold(max_rows, t.has_segments))
}

/// Whether a table is sealed. The question is asked again of the rows that were taken out, of which
/// there may be fewer.
pub fn seals_table(t: &HotTable, limits: &HotLimits, force: bool) -> (r: bool)
    ensures
        r == is_sealed(*t, limits.max_rows as nat, force),
{
    if t.rows == 0 {
        return false;
    }
    force || t.rows >= limits.seal_rows(t.has_segments)
}

/// The positions of the tables that are sealed.
pub open spec fn sealed_positions(tables: Seq<HotTable>, max_rows: nat, force: bool) -> Seq<usize>
    decreases tables.len(),
{
    if tables.len() == 0 {
        Seq::empty()
    } else {
        let before = sealed_positions(tables.drop_last(), max_rows, force);
        if is_sealed(tables.last(), max_rows, force) {
            before.push((tables.len() - 1) as usize)
        } else {
            before
        }
    }
}

/// The positions of the tables that are sealed.
pub fn seal_candidates(tables: &[HotTable], limits: &HotLimits, force: bool) -> (r: Vec<usize>)
    ensures
        r@ == sealed_positions(tables@, limits.max_rows as nat, force),
{
    let mut out: Vec<usize> = Vec::new();
    let mut i: usize = 0;
    assert(tables@.take(0) =~= Seq::empty());
    while i < tables.len()
        invariant
            i <= tables@.len(),
            out@ == sealed_positions(tables@.take(i as int), limits.max_rows as nat, force),
        decreases tables@.len() - i,
    {
        proof {
            assert(tables@.take(i + 1).drop_last() =~= tables@.take(i as int));
            assert(tables@.take(i + 1).last() == tables@[i as int]);
        }
        if seals_table(&tables[i], limits, force) {
            out.push(i);
        }
        i = i + 1;
    }
    assert(tables@.take(i as int) =~= tables@);
    out
}

/// Whether a table's schema is being changed, by the number that counts the beginnings and ends of
/// changes.
pub fn schema_is_changing(generation: u64) -> (r: bool)
    ensures
        r == (generation % 2 == 1),
{
    generation % 2 == 1
}

// ---------------------------------------------------------------------------
// What a volume holds
// ---------------------------------------------------------------------------

/// A row to be sealed.
#[derive(Debug)]
pub struct HotRow {
    pub row_id: i64,
    pub values: Vec<ColumnValue>,
}

/// Gives every row exactly one value for every column. A row from before a column was added gets the
/// column's default, which would otherwise be lost.
pub fn normalize_rows(rows: Vec<HotRow>, schema: &Schema) -> (r: Vec<HotRow>)
    ensures
        r@.len() == rows@.len(),
        forall|i: int|
            0 <= i < rows@.len() ==> {
                &&& (#[trigger] r@[i]).row_id == rows@[i].row_id
                &&& value_views(r@[i].values@) == normalized(
                    value_views(rows@[i].values@),
                    schema@.columns,
                )
            },
{
    let ghost start = rows@;
    let mut rows = rows;
    let mut i: usize = 0;
    while i < rows.len()
        invariant
            i <= rows@.len(),
            rows@.len() == start.len(),
            forall|k: int|
                0 <= k < i ==> {
                    &&& (#[trigger] rows@[k]).row_id == start[k].row_id
                    &&& value_views(rows@[k].values@) == normalized(
                        value_views(start[k].values@),
                        schema@.columns,
                    )
                },
            forall|k: int| i <= k < start.len() ==> #[trigger] rows@[k] == start[k],
        decreases rows@.len() - i,
    {
        normalize_row(&mut rows[i].values, schema);
        i = i + 1;
    }
    rows
}

/// The sequence number of the volumes of a seal: that before which the rows were committed, where the
/// seal stopped short for a reader, or the current one.
pub fn seal_sequence(cutoff: Option<i64>, current: i64) -> (seq: u64)
    ensures
        seq == i64_bits(
            match cutoff {
                Some(c) => c as int,
                None => current as int,
            },
        ),
{
    match cutoff {
        Some(c) => i64_to_bits(c),
        None => i64_to_bits(current),
    }
}

/// The number of rows that are taken out of memory at a time.
pub const REMOVE_BATCH_SIZE: usize = 50_000;

/// The bounds of the batches in which sealed rows are taken out of memory.
pub fn removal_batches(total: usize) -> (ranges: Vec<(usize, usize)>)
    ensures
        ranges@ == output_bounds(total as int, 50_000),
{
    chunk_ranges(total, REMOVE_BATCH_SIZE)
}

/// The row id counter of a table after a seal: at least the largest id that was sealed.
pub fn counter_after_seal(counter: i64, row_ids: &[i64]) -> (r: i64)
    ensures
        r >= counter,
        forall|i: int| 0 <= i < row_ids@.len() ==> r >= #[trigger] row_ids@[i],
        r == counter || row_ids@.contains(r),
{
    largest_of(row_ids, counter)
}

// ---------------------------------------------------------------------------
// Tombstones
// ---------------------------------------------------------------------------

/// The rows of a list of volumes.
pub open spec fn sealed_rows(volumes: Seq<&[i64]>) -> Set<i64> {
    Set::new(
        |x: i64| exists|v: int| 0 <= v < volumes.len() && (#[trigger] volumes[v])@.contains(x),
    )
}

/// The tombstones after a seal. A row that changed while it was sealed stays in memory, and a
/// tombstone hides its copy in the volume. A tombstone for another sealed row goes: it was for an
/// older copy, and would hide the new one.
pub open spec fn tombstones_sealed(
    tombstones: Map<i64, u64>,
    sealed: Set<i64>,
    skipped: Set<i64>,
    seq: u64,
) -> Map<i64, u64> {
    Map::new(
        |x: i64| skipped.contains(x) || (tombstones.contains_key(x) && !sealed.contains(x)),
        |x: i64|
            if skipped.contains(x) {
                seq
            } else {
                tombstones[x]
            },
    )
}

/// The tombstones after a seal of `volumes`, of which the rows `skipped` changed meanwhile.
pub fn tombstones_after_seal(
    tombstones: &FxHashMap<i64, u64>,
    volumes: &[&[i64]],
    skipped: &[i64],
    seq: u64,
) -> (r: FxHashMap<i64, u64>)
    ensures
        r@ == tombstones_sealed(tombstones@, sealed_rows(volumes@), skipped@.to_set(), seq),
{
    let sealed = rows_of_batch(volumes);
    let entries = row_entries(tombstones);
    let ghost left_out = sealed_rows(volumes@);
    let mut out = new_row_map();
    let mut i: usize = 0;
    while i < entries.len()
        invariant
            i <= entries@.len(),
            holds_entries(entries@, tombstones@),
            forall|x: i64| #[trigger] sealed@.contains(x) <==> left_out.contains(x),
            forall|x: i64| #[trigger]
                out@.contains_key(x) <==> !left_out.contains(x) && exists|k: int|
                    0 <= k < i && (#[trigger] entries@[k]).0 == x,
            forall|x: i64| #[trigger]
                out@.contains_key(x) ==> tombstones@.contains_key(x) && out@[x] == tombstones@[x],
        decreases entries@.len() - i,
    {
        let (row_id, value) = entries[i];
        let ghost before = out@;
        assert(tombstones@.contains_key(entries@[i as int].0));
        if !contains_row(&sealed, row_id) {
            insert_row_value(&mut out, row_id, value);
        }
        proof {
            assert forall|x: i64| #[trigger] out@.contains_key(x) <==> !left_out.contains(x)
                && exists|k: int| 0 <= k < i + 1 && (#[trigger] entries@[k]).0 == x by {
                if before.contains_key(x) {
                    let k = choose|k: int| 0 <= k < i && (#[trigger] entries@[k]).0 == x;
                    assert(entries@[k].0 == x);
                }
                if x == row_id {
                    assert(entries@[i as int].0 == x);
                }
                if exists|k: int| 0 <= k < i + 1 && (#[trigger] entries@[k]).0 == x {
                    let k = choose|k: int| 0 <= k < i + 1 && (#[trigger] entries@[k]).0 == x;
                    if k < i {
                        assert(entries@[k].0 == x);
                    }
                }
            }
        }
        i = i + 1;
    }
    let mut j: usize = 0;
    assert(skipped@.take(0).to_set() =~= Set::empty());
    assert(out@ =~= tombstones_sealed(tombstones@, left_out, skipped@.take(0).to_set(), seq));
    while j < skipped.len()
        invariant
            j <= skipped@.len(),
            out@ == tombstones_sealed(tombstones@, left_out, skipped@.take(j as int).to_set(), seq),
        decreases skipped@.len() - j,
    {
        let id: i64 = skipped[j];
        let ghost before = skipped@.take(j as int);
        insert_row_value(&mut out, id, seq);
        proof {
            let longer = skipped@.take(j + 1);
            assert(longer =~= before.push(id));
            assert forall|x: i64| longer.to_set().contains(x) <==> before.to_set().contains(x) || x
                == id by {
                if before.contains(x) {
                    let k = before.index_of(x);
                    assert(longer[k] == x);
                }
                if x == id {
                    assert(longer[j as int] == x);
                }
                if longer.contains(x) {
                    let k = longer.index_of(x);
                    if k < j {
                        assert(before[k] == x);
                    }
                }
            }
            assert(out@ =~= tombstones_sealed(tombstones@, left_out, longer.to_set(), seq));
        }
        j = j + 1;
    }
    assert(skipped@.take(j as int) =~= skipped@);
    out
}

/// After a seal, each sealed row is in one place: its copy in the new volume is hidden exactly where
/// the row changed meanwhile, and so stayed in memory. Other rows' tombstones are as they were.
pub proof fn sealed_row_is_in_one_place(
    tombstones: Map<i64, u64>,
    sealed: Set<i64>,
    skipped: Set<i64>,
    seq: u64,
    row_id: i64,
)
    requires
        skipped.subset_of(sealed),
    ensures
        ({
            let after = tombstones_sealed(tombstones, sealed, skipped, seq);
            &&& sealed.contains(row_id) ==> (after.contains_key(row_id) <==> skipped.contains(
                row_id,
            ))
            &&& !sealed.contains(row_id) ==> (after.contains_key(row_id)
                <==> tombstones.contains_key(row_id)) && (tombstones.contains_key(row_id)
                ==> after[row_id] == tombstones[row_id])
        }),
{
}

} // verus!
