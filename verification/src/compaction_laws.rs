//! Which volumes a compaction takes up, in terms of their rows and tombstones.

use crate::compaction::{
    ScanV, SegmentSummary, TableVolumes, batch_positions, deferred_by, looks_into, planned_volume,
    scan_next, set_positions, sheds_rows, size_alone, table_needs_compaction,
};
use crate::live_rows::{is_live, lists_live, RowPlace, tombstoned};
use vstd::prelude::*;

verus! {

/// Whether a snapshot that began at a commit sequence keeps a volume from being rewritten: the volume
/// was sealed after it. One that came out of a compaction has no sequence, and is not kept.
pub open spec fn waits_for_snapshot(s: SegmentSummary, limit: Option<u64>) -> bool {
    limit is Some && s.seal_seq != 0 && limit->Some_0 < s.seal_seq
}

/// Whether one of the rows has a tombstone that may be applied: any where no snapshot is open, and one
/// from before the oldest snapshot otherwise.
pub open spec fn has_row_to_shed(
    ids: Seq<i64>,
    tombstones: Map<i64, u64>,
    limit: Option<u64>,
) -> bool {
    exists|j: int|
        0 <= j < ids.len() && tombstones.contains_key(#[trigger] ids[j]) && (limit is None
            || tombstones[ids[j]] < limit->Some_0)
}

proof fn lemma_sheds(ids: Seq<i64>, tombstones: Map<i64, u64>, limit: Option<u64>)
    ensures
        sheds_rows(ids, tombstones, limit) <==> has_row_to_shed(ids, tombstones, limit),
{
    if sheds_rows(ids, tombstones, limit) {
        let j = choose|j: int| 0 <= j < ids.len() && tombstoned(tombstones, limit, #[trigger] ids[j]);
        assert(tombstones.contains_key(ids[j]));
    }
    if has_row_to_shed(ids, tombstones, limit) {
        let j = choose|j: int|
            0 <= j < ids.len() && tombstones.contains_key(#[trigger] ids[j]) && (limit is None
                || tombstones[ids[j]] < limit->Some_0);
        assert(tombstoned(tombstones, limit, ids[j]));
    }
}

/// A volume with a row whose tombstone may be applied is rewritten, and not for its size alone,
/// whether a snapshot is open or not, unless a snapshot defers the volume.
pub proof fn tombstones_are_shed(
    s: SegmentSummary,
    ids: Seq<i64>,
    tombstones: Map<i64, u64>,
    limit: Option<u64>,
    target: nat,
    j: int,
)
    requires
        0 <= j < ids.len(),
        tombstones.contains_key(ids[j]),
        limit is None || tombstones[ids[j]] < limit->Some_0,
        limit is None || s.seal_seq == 0 || s.seal_seq <= limit->Some_0,
    ensures
        planned_volume(s, ids, tombstones, limit, target).2,
        !size_alone(s, ids, tombstones, limit, target),
{
    lemma_sheds(ids, tombstones, limit);
    assert(has_row_to_shed(ids, tombstones, limit));
}

/// A volume is rewritten just where no snapshot defers it and it is below the target, or more than
/// half above it, or has a row to shed; its size alone is the reason just where it is below the target
/// and has no row to shed. Its identity and its rows are noted as they are.
pub proof fn volumes_are_planned(
    s: SegmentSummary,
    ids: Seq<i64>,
    tombstones: Map<i64, u64>,
    limit: Option<u64>,
    target: nat,
)
    ensures
        ({
            let p = planned_volume(s, ids, tombstones, limit, target);
            let waits = waits_for_snapshot(s, limit);
            let sheds = has_row_to_shed(ids, tombstones, limit);
            &&& p.0 == s.segment_id
            &&& p.1 == s.row_count
            &&& p.3 <==> waits
            &&& p.2 <==> !waits && (s.row_count < target || 2 * s.row_count > 3 * target || sheds)
            &&& size_alone(s, ids, tombstones, limit, target) <==> !waits && s.row_count < target
                && !sheds
            &&& deferred_by(s, limit) <==> waits
        }),
{
    lemma_sheds(ids, tombstones, limit);
}

/// A table needs a compaction just where more small volumes than the threshold have accumulated, or
/// two small volumes and a tombstone, or tombstones and no small volume but some volume, or a volume
/// is more than half above the target, or some volume waits to be clustered.
pub proof fn compaction_is_needed_for_a_reason(t: TableVolumes, threshold: nat, target: nat)
    ensures
        t.sub_target > threshold ==> table_needs_compaction(t, threshold, target),
        t.has_tombstones && t.sub_target >= 2 ==> table_needs_compaction(t, threshold, target),
        t.has_tombstones && t.sub_target == 0 && t.volumes > 0 ==> table_needs_compaction(
            t,
            threshold,
            target,
        ),
        2 * t.largest > 3 * target ==> table_needs_compaction(t, threshold, target),
        t.recluster_pending && t.volumes > 0 ==> table_needs_compaction(t, threshold, target),
        t.sub_target <= threshold && !t.has_tombstones && 2 * t.largest <= 3 * target
            && !t.recluster_pending ==> !table_needs_compaction(t, threshold, target),
        t.sub_target == 1 && threshold >= 1 && 2 * t.largest <= 3 * target && !t.recluster_pending
            ==> !table_needs_compaction(t, threshold, target),
        t.volumes == 0 && t.sub_target == 0 && t.largest == 0 ==> !table_needs_compaction(
            t,
            threshold,
            target,
        ),
{
}

/// A recluster selects each volume that is out of order and not deferred, until it has as many as it
/// may; it takes no other. A volume whose order is known is not looked into again.
pub proof fn recluster_selects_what_is_out_of_order(
    s: ScanV,
    limit: nat,
    deferred: bool,
    known: Option<bool>,
    answer: bool,
)
    requires
        s.visited < usize::MAX,
    ensures
        ({
            let next = scan_next(s, limit, deferred, known, answer);
            let looks = looks_into(s, limit, deferred, known);
            let out_of_order = !deferred && (known == Some(false) || looks && !answer);
            let p = s.visited as usize;
            &&& looks <==> !deferred && known is None && s.decided < limit
            &&& next.visited == s.visited + 1
            &&& next.decided == s.decided + if looks {
                1int
            } else {
                0
            }
            &&& out_of_order && s.selected.len() < limit ==> next.selected == s.selected.push(p)
            &&& !(out_of_order && s.selected.len() < limit) ==> next.selected == s.selected
            &&& next.all_checked <==> s.all_checked && (deferred || known is Some || looks) && !(
            out_of_order && s.selected.len() >= limit)
        }),
{
}

proof fn lemma_set_positions(flags: Seq<bool>)
    requires
        flags.len() <= usize::MAX,
    ensures
        ({
            let r = set_positions(flags);
            &&& forall|i: int| 0 <= i < flags.len() && #[trigger] flags[i] ==> r.contains(i as usize)
            &&& forall|k: int|
                0 <= k < r.len() ==> #[trigger] r[k] < flags.len() && flags[r[k] as int]
            &&& forall|k: int, m: int| 0 <= k < m < r.len() ==> #[trigger] r[k] < #[trigger] r[m]
        }),
    decreases flags.len(),
{
    if flags.len() > 0 {
        let before = flags.drop_last();
        let n = flags.len() - 1;
        lemma_set_positions(before);
        let r0 = set_positions(before);
        let r = set_positions(flags);
        assert forall|i: int| 0 <= i < flags.len() && #[trigger] flags[i] implies r.contains(
            i as usize,
        ) by {
            if i < n {
                assert(before[i]);
                assert(r0.contains(i as usize));
                let k = choose|k: int| 0 <= k < r0.len() && r0[k] == i as usize;
                assert(r[k] == i as usize);
            } else {
                assert(r[r0.len() as int] == i as usize);
            }
        }
        assert forall|k: int| 0 <= k < r.len() implies #[trigger] r[k] < flags.len()
            && flags[r[k] as int] by {
            if k < r0.len() {
                assert(r[k] == r0[k]);
                assert(before[r0[k] as int]);
            }
        }
        assert forall|k: int, m: int| 0 <= k < m < r.len() implies #[trigger] r[k]
            < #[trigger] r[m] by {
            assert(r[k] == r0[k]);
            if m < r0.len() {
                assert(r[m] == r0[m]);
            }
        }
    }
}

/// The volumes that are rewritten are those in the batch, each once and in order. Where there are two
/// or more, or a recluster asked, or the volume has another reason than its size, none is left out.
pub proof fn batch_is_rewritten(flags: Seq<bool>, size_only: Seq<bool>, reclustering: bool)
    requires
        flags.len() == size_only.len(),
        flags.len() <= usize::MAX,
    ensures
        ({
            let r = batch_positions(flags, size_only, reclustering);
            &&& forall|k: int|
                0 <= k < r.len() ==> #[trigger] r[k] < flags.len() && flags[r[k] as int]
            &&& forall|k: int, m: int| 0 <= k < m < r.len() ==> #[trigger] r[k] < #[trigger] r[m]
            &&& forall|i: int|
                0 <= i < flags.len() && #[trigger] flags[i] && (reclustering || !size_only[i])
                    ==> r.contains(i as usize)
            &&& forall|i: int, j: int|
                0 <= i < flags.len() && 0 <= j < flags.len() && i != j && #[trigger] flags[i]
                    && #[trigger] flags[j] ==> r.contains(i as usize) && r.contains(j as usize)
            &&& r.len() == 1 ==> reclustering || !size_only[r[0] as int]
        }),
{
    lemma_set_positions(flags);
    let all = set_positions(flags);
    let r = batch_positions(flags, size_only, reclustering);
    assert forall|i: int|
        0 <= i < flags.len() && #[trigger] flags[i] && (reclustering || !size_only[i]) implies
        r.contains(i as usize) by {
        assert(all.contains(i as usize));
        if all.len() == 1 {
            assert(all[0] == i as usize);
        }
    }
    assert forall|i: int, j: int|
        0 <= i < flags.len() && 0 <= j < flags.len() && i != j && #[trigger] flags[i]
            && #[trigger] flags[j] implies r.contains(i as usize) && r.contains(j as usize) by {
        assert(all.contains(i as usize) && all.contains(j as usize));
        if all.len() == 1 {
            assert(all[0] == i as usize && all[0] == j as usize);
        }
    }
}

/// A row is read from the first volume that has it, newest first, unless it is covered or its
/// tombstone may be applied: any tombstone where no snapshot is open, and one from before the oldest
/// snapshot otherwise.
pub proof fn live_row_is_the_newest_copy(
    volumes: Seq<Seq<i64>>,
    covered: Set<i64>,
    tombstones: Map<i64, u64>,
    limit: Option<u64>,
    v: int,
    i: int,
)
    requires
        0 <= v < volumes.len(),
        0 <= i < volumes[v].len(),
    ensures
        is_live(volumes, covered, tombstones, limit, v, i) <==> {
            let x = volumes[v][i];
            &&& !covered.contains(x)
            &&& tombstones.contains_key(x) ==> limit is Some && limit->Some_0 <= tombstones[x]
            &&& forall|j: int| 0 <= j < i ==> #[trigger] volumes[v][j] != x
            &&& forall|w: int, j: int|
                0 <= w < v && 0 <= j < volumes[w].len() ==> #[trigger] volumes[w][j] != x
        },
{
}

/// The live rows of volumes are listed one for one: each row that is not covered and has no tombstone
/// that may be applied is listed once, at a place where it is, and no other row is.
pub proof fn live_rows_are_listed(
    refs: Seq<RowPlace>,
    volumes: Seq<Seq<i64>>,
    covered: Set<i64>,
    tombstones: Map<i64, u64>,
    limit: Option<u64>,
)
    requires
        lists_live(refs, volumes, covered, tombstones, limit, volumes.len() as int, 0),
    ensures
        forall|k: int|
            0 <= k < refs.len() ==> {
                let (x, v, i) = #[trigger] refs[k];
                &&& v < volumes.len()
                &&& i < volumes[v as int].len()
                &&& volumes[v as int][i as int] == x
                &&& !covered.contains(x)
                &&& tombstones.contains_key(x) ==> limit is Some && limit->Some_0 <= tombstones[x]
                &&& forall|w: int, j: int|
                    0 <= w < v && 0 <= j < volumes[w].len() ==> #[trigger] volumes[w][j] != x
            },
{
    assert forall|k: int| 0 <= k < refs.len() implies {
        let (x, v, i) = #[trigger] refs[k];
        &&& v < volumes.len()
        &&& i < volumes[v as int].len()
        &&& volumes[v as int][i as int] == x
        &&& !covered.contains(x)
        &&& tombstones.contains_key(x) ==> limit is Some && limit->Some_0 <= tombstones[x]
        &&& forall|w: int, j: int|
            0 <= w < v && 0 <= j < volumes[w].len() ==> #[trigger] volumes[w][j] != x
    } by {
        let (x, v, i) = refs[k];
        assert(is_live(volumes, covered, tombstones, limit, v as int, i as int));
        live_row_is_the_newest_copy(volumes, covered, tombstones, limit, v as int, i as int);
    }
}

} // verus!
