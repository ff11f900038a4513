//! Planning a compaction: which tables need one, which volumes it rewrites, and what comes out.

use crate::batch::{
    PlannedVolume, ROW_GROUP_ROWS, chunk_rows, compaction_chunk_rows, output_count, rewrite_flags,
};
use crate::batch_merge::are_members;
use crate::compaction_laws::{has_row_to_shed, volumes_are_planned, waits_for_snapshot};
use crate::live_rows::{is_tombstoned, tombstoned};
use crate::names::{volume_file_name, volume_name};
use crate::row_set::{
    holds_entries, insert_row_value, insert_rows, new_row_map, new_row_set, row_entries,
};
use rustc_hash::{FxHashMap, FxHashSet};
use vstd::prelude::*;
use vstd::string::*;

verus! {

// ---------------------------------------------------------------------------
// Which tables
// ---------------------------------------------------------------------------

/// What the choice of tables looks at.
#[derive(Debug, Clone, Copy, PartialEq, Eq, Structural)]
pub struct TableVolumes {
    /// The number of volumes below the target size.
    pub sub_target: usize,
    /// The number of volumes.
    pub volumes: usize,
    /// The rows of the largest volume.
    pub largest: usize,
    /// Whether there are tombstones.
    pub has_tombstones: bool,
    /// Whether volumes wait to be checked against a clustering key.
    pub recluster_pending: bool,
}

/// Whether a volume of `rows` rows is to be split: it exceeds the target by more than half.
pub open spec fn oversized(rows: nat, target: nat) -> bool {
    rows > target * 3 / 2
}

/// Whether a table needs a compaction: enough small volumes have accumulated; small volumes may hold
/// new versions of rows with tombstones; only tombstones are left to shed; a volume is too large; or
/// volumes wait to be clustered.
pub open spec fn table_needs_compaction(t: TableVolumes, threshold: nat, target: nat) -> bool {
    ||| t.sub_target > threshold
    ||| t.sub_target >= 2 && t.has_tombstones
    ||| t.sub_target == 0 && t.has_tombstones && t.volumes >= 1
    ||| oversized(t.largest as nat, target)
    ||| t.recluster_pending && t.volumes >= 1
}

/// The number of volumes that the configuration lets accumulate, at least 2.
pub fn effective_threshold(configured: usize) -> (n: usize)
    ensures
        n == if configured < 2 {
            2
        } else {
            configured as int
        },
{
    if configured < 2 {
        2
    } else {
        configured
    }
}

/// Whether a table needs a compaction.
pub fn needs_compaction(t: &TableVolumes, threshold: usize, target: usize) -> (r: bool)
    requires
        target * 3 <= usize::MAX,
    ensures
        r == table_needs_compaction(*t, threshold as nat, target as nat),
{
    if t.sub_target > threshold {
        return true;
    }
    if t.sub_target >= 2 && t.has_tombstones {
        return true;
    }
    if t.sub_target == 0 && t.has_tombstones && t.volumes >= 1 {
        return true;
    }
    if t.largest > target * 3 / 2 {
        return true;
    }
    t.recluster_pending && t.volumes >= 1
}

// ---------------------------------------------------------------------------
// Which volumes
// ---------------------------------------------------------------------------

/// What the manifest says of a volume.
#[derive(Debug, Clone, Copy, PartialEq, Eq, Structural)]
pub struct SegmentSummary {
    pub segment_id: u64,
    pub row_count: usize,
    /// The commit sequence up to which the volume was sealed; 0 if it came out of a compaction.
    pub seal_seq: u64,
}

/// Whether a snapshot defers a volume: it may hold rows from after the oldest snapshot.
pub open spec fn deferred_by(s: SegmentSummary, limit: Option<u64>) -> bool {
    match limit {
        Some(l) => s.seal_seq > 0 && s.seal_seq > l,
        None => false,
    }
}

/// Whether a volume has a row with a tombstone that may be applied.
pub open spec fn sheds_rows(ids: Seq<i64>, tombstones: Map<i64, u64>, limit: Option<u64>) -> bool {
    exists|i: int| 0 <= i < ids.len() && tombstoned(tombstones, limit, #[trigger] ids[i])
}

/// The plan for a volume: it is rewritten where its size or its tombstones call for it.
pub open spec fn planned_volume(
    s: SegmentSummary,
    ids: Seq<i64>,
    tombstones: Map<i64, u64>,
    limit: Option<u64>,
    target: nat,
) -> PlannedVolume {
    if deferred_by(s, limit) {
        (s.segment_id, s.row_count, false, true)
    } else {
        (
            s.segment_id,
            s.row_count,
            s.row_count < target || oversized(s.row_count as nat, target) || sheds_rows(
                ids,
                tombstones,
                limit,
            ),
            false,
        )
    }
}

/// Whether size alone puts a volume in the batch: it is small and has nothing to shed.
pub open spec fn size_alone(
    s: SegmentSummary,
    ids: Seq<i64>,
    tombstones: Map<i64, u64>,
    limit: Option<u64>,
    target: nat,
) -> bool {
    !deferred_by(s, limit) && s.row_count < target && !oversized(s.row_count as nat, target)
        && !sheds_rows(ids, tombstones, limit)
}

/// The plan for a table's volumes.
#[derive(Debug)]
pub struct VolumePlan {
    pub planned: Vec<PlannedVolume>,
    /// Whether size alone puts each volume in the batch.
    pub size_only: Vec<bool>,
    /// Whether a snapshot defers one of them.
    pub deferred: bool,
}

fn any_tombstoned(ids: &[i64], tombstones: &FxHashMap<i64, u64>, limit: Option<u64>) -> (r: bool)
    ensures
        r == sheds_rows(ids@, tombstones@, limit),
{
    let mut i: usize = 0;
    while i < ids.len()
        invariant
            i <= ids@.len(),
            forall|k: int| 0 <= k < i ==> !tombstoned(tombstones@, limit, #[trigger] ids@[k]),
        decreases ids@.len() - i,
    {
        if is_tombstoned(tombstones, limit, ids[i]) {
            assert(tombstoned(tombstones@, limit, ids@[i as int]));
            return true;
        }
        i = i + 1;
    }
    false
}

/// Plans the volumes of a table, given in the order of their precedence with the rows of each.
/// `limit` is the commit sequence at which the oldest snapshot began.
pub fn plan_volumes(
    segments: &[SegmentSummary],
    ids: &[&[i64]],
    tombstones: &FxHashMap<i64, u64>,
    limit: Option<u64>,
    target: usize,
) -> (plan: VolumePlan)
    requires
        ids@.len() == segments@.len(),
        target * 3 <= usize::MAX,
    ensures
        plan.planned@.len() == segments@.len(),
        plan.size_only@.len() == segments@.len(),
        forall|i: int|
            0 <= i < segments@.len() ==> #[trigger] plan.planned@[i] == planned_volume(
                segments@[i],
                ids@[i]@,
                tombstones@,
                limit,
                target as nat,
            ),
        forall|i: int|
            0 <= i < segments@.len() ==> #[trigger] plan.size_only@[i] == size_alone(
                segments@[i],
                ids@[i]@,
                tombstones@,
                limit,
                target as nat,
            ),
        plan.deferred == exists|i: int|
            0 <= i < segments@.len() && deferred_by(#[trigger] segments@[i], limit),
        forall|i: int|
            #![trigger plan.planned@[i]]
            #![trigger plan.size_only@[i]]
            0 <= i < segments@.len() && !waits_for_snapshot(segments@[i], limit) && has_row_to_shed(
                ids@[i]@,
                tombstones@,
                limit,
            ) ==> plan.planned@[i].2 && !plan.size_only@[i],
        forall|i: int|
            0 <= i < segments@.len() ==> {
                let p = #[trigger] plan.planned@[i];
                &&& p.0 == segments@[i].segment_id
                &&& p.1 == segments@[i].row_count
                &&& p.3 == waits_for_snapshot(segments@[i], limit)
                &&& p.2 ==> !p.3
            },
{
    let mut planned: Vec<PlannedVolume> = Vec::new();
    let mut size_only: Vec<bool> = Vec::new();
    let mut deferred: bool = false;
    let mut i: usize = 0;
    while i < segments.len()
        invariant
            i <= segments@.len(),
            ids@.len() == segments@.len(),
            target * 3 <= usize::MAX,
            planned@.len() == i,
            size_only@.len() == i,
            forall|k: int|
                0 <= k < i ==> #[trigger] planned@[k] == planned_volume(
                    segments@[k],
                    ids@[k]@,
                    tombstones@,
                    limit,
                    target as nat,
                ),
            forall|k: int|
                0 <= k < i ==> #[trigger] size_only@[k] == size_alone(
                    segments@[k],
                    ids@[k]@,
                    tombstones@,
                    limit,
                    target as nat,
                ),
            deferred == exists|k: int| 0 <= k < i && deferred_by(#[trigger] segments@[k], limit),
        decreases segments@.len() - i,
    {
        let s = segments[i];
        let waits: bool = match limit {
            Some(l) => s.seal_seq > 0 && s.seal_seq > l,
            None => false,
        };
        assert(waits == deferred_by(segments@[i as int], limit));
        if waits {
            deferred = true;
            planned.push((s.segment_id, s.row_count, false, true));
            size_only.push(false);
        } else {
            let sheds: bool = any_tombstoned(ids[i], tombstones, limit);
            let small: bool = s.row_count < target;
            let large: bool = s.row_count > target * 3 / 2;
            planned.push((s.segment_id, s.row_count, small || large || sheds, false));
            size_only.push(small && !large && !sheds);
        }
        i = i + 1;
    }
    proof {
        assert forall|k: int| 0 <= k < segments@.len() implies {
            let p = #[trigger] planned@[k];
            let waits = waits_for_snapshot(segments@[k], limit);
            let sheds = has_row_to_shed(ids@[k]@, tombstones@, limit);
            &&& p.0 == segments@[k].segment_id
            &&& p.1 == segments@[k].row_count
            &&& p.3 == waits
            &&& p.2 ==> !p.3
            &&& !waits && sheds ==> p.2 && !size_only@[k]
        } by {
            volumes_are_planned(segments@[k], ids@[k]@, tombstones@, limit, target as nat);
        }
    }
    VolumePlan { planned, size_only, deferred }
}

// ---------------------------------------------------------------------------
// Volumes out of their key's order
// ---------------------------------------------------------------------------

/// What a recluster has found: how many volumes it had to look into, which it selects, and whether
/// it has an answer for every volume.
pub struct ScanV {
    pub visited: nat,
    pub decided: nat,
    pub selected: Seq<usize>,
    pub all_checked: bool,
}

/// Whether a recluster looks into a volume: it is not deferred, its order is not known, and fewer
/// than the limit have been looked into.
pub open spec fn looks_into(s: ScanV, limit: nat, deferred: bool, known: Option<bool>) -> bool {
    !deferred && known is None && s.decided < limit
}

/// What a recluster has found after one more volume, whose order is `answer` where it is looked
/// into.
pub open spec fn scan_next(
    s: ScanV,
    limit: nat,
    deferred: bool,
    known: Option<bool>,
    answer: bool,
) -> ScanV {
    let position = s.visited as usize;
    if deferred {
        ScanV { visited: s.visited + 1, ..s }
    } else if known is None && s.decided >= limit {
        ScanV { visited: s.visited + 1, all_checked: false, ..s }
    } else {
        let in_order = match known {
            Some(o) => o,
            None => answer,
        };
        let decided = if known is None {
            s.decided + 1
        } else {
            s.decided
        };
        if in_order {
            ScanV { visited: s.visited + 1, decided, ..s }
        } else if s.selected.len() >= limit {
            ScanV { visited: s.visited + 1, decided, all_checked: false, ..s }
        } else {
            ScanV {
                visited: s.visited + 1,
                decided,
                selected: s.selected.push(position),
                ..s
            }
        }
    }
}

/// A recluster that goes through a table's volumes in order.
pub struct ReclusterScan {
    limit: usize,
    visited: usize,
    decided: usize,
    selected: Vec<usize>,
    all_checked: bool,
}

impl View for ReclusterScan {
    type V = ScanV;

    closed spec fn view(&self) -> ScanV {
        ScanV {
            visited: self.visited as nat,
            decided: self.decided as nat,
            selected: self.selected@,
            all_checked: self.all_checked,
        }
    }
}

impl ReclusterScan {
    /// The most volumes that are looked into, and the most that are selected.
    pub closed spec fn bound(&self) -> nat {
        self.limit as nat
    }

    /// A recluster before its first volume; `deferred` says whether one is deferred.
    pub fn new(limit: usize, deferred: bool) -> (s: ReclusterScan)
        ensures
            s.bound() == limit,
            s@ == (ScanV { visited: 0, decided: 0, selected: Seq::empty(), all_checked: !deferred }),
    {
        ReclusterScan {
            limit,
            visited: 0,
            decided: 0,
            selected: Vec::new(),
            all_checked: !deferred,
        }
    }

    /// Whether the next volume has to be looked into.
    pub fn wants_order(&self, deferred: bool, known: Option<bool>) -> (r: bool)
        ensures
            r == looks_into(self@, self.bound(), deferred, known),
    {
        !deferred && known.is_none() && self.decided < self.limit
    }

    /// Goes past the next volume; `answer` is its order where it was looked into.
    pub fn visit(&mut self, deferred: bool, known: Option<bool>, answer: bool)
        requires
            old(self)@.visited < usize::MAX,
        ensures
            final(self).bound() == old(self).bound(),
            final(self)@ == scan_next(old(self)@, old(self).bound(), deferred, known, answer),
    {
        let position: usize = self.visited;
        self.visited = position + 1;
        if deferred {
            return ;
        }
        let in_order: bool = match known {
            Some(o) => o,
            None => {
                if self.decided >= self.limit {
                    self.all_checked = false;
                    return ;
                }
                self.decided = self.decided + 1;
                answer
            },
        };
        if in_order {
            return ;
        }
        if self.selected.len() >= self.limit {
            self.all_checked = false;
        } else {
            self.selected.push(position);
        }
    }

    /// The selected positions and whether every volume has an answer.
    pub fn finish(self) -> (r: (Vec<usize>, bool))
        ensures
            r.0@ == self@.selected,
            r.1 == self@.all_checked,
    {
        (self.selected, self.all_checked)
    }
}

/// A recluster looks into at most the limit of volumes and selects at most as many, whatever it
/// finds.
pub proof fn recluster_is_bounded(s: ScanV, limit: nat, deferred: bool, known: Option<bool>, answer: bool)
    requires
        s.decided <= limit,
        s.selected.len() <= limit,
    ensures
        scan_next(s, limit, deferred, known, answer).decided <= limit,
        scan_next(s, limit, deferred, known, answer).selected.len() <= limit,
{
}

/// Whether a request to cluster the table can be closed after a cycle: the table has no key, or
/// every volume was found in order and nothing is left to rewrite.
pub fn request_is_done(
    key_is_empty: bool,
    all_checked: bool,
    reduced: bool,
    reclustering: bool,
) -> (r: bool)
    ensures
        r == (key_is_empty || (all_checked && !reduced && !reclustering)),
{
    key_is_empty || (all_checked && !reduced && !reclustering)
}

// ---------------------------------------------------------------------------
// The batch
// ---------------------------------------------------------------------------

/// The positions at which a flag is set, in order.
pub open spec fn set_positions(flags: Seq<bool>) -> Seq<usize>
    decreases flags.len(),
{
    if flags.len() == 0 {
        Seq::empty()
    } else if flags.last() {
        set_positions(flags.drop_last()).push((flags.len() - 1) as usize)
    } else {
        set_positions(flags.drop_last())
    }
}

/// The volumes that are rewritten, by position, once the batch is settled: none where nothing is in
/// it, and none where size alone put a single volume in it.
pub open spec fn batch_positions(
    flags: Seq<bool>,
    size_only: Seq<bool>,
    reclustering: bool,
) -> Seq<usize> {
    let members = set_positions(flags);
    if members.len() == 1 && !reclustering && size_only[members[0] as int] {
        Seq::empty()
    } else {
        members
    }
}

/// The volumes that are rewritten, by position. A single volume that size alone put in the batch
/// waits for more to accumulate.
pub fn volumes_to_rewrite(
    planned: &[PlannedVolume],
    size_only: &[bool],
    reclustering: bool,
) -> (members: Vec<usize>)
    requires
        size_only@.len() == planned@.len(),
    ensures
        members@ == batch_positions(rewrite_flags(planned@), size_only@, reclustering),
        are_members(members@, planned@.len()),
{
    let ghost flags = rewrite_flags(planned@);
    let mut members: Vec<usize> = Vec::new();
    let mut i: usize = 0;
    assert(flags.take(0) =~= Seq::empty());
    while i < planned.len()
        invariant
            i <= planned@.len(),
            flags == rewrite_flags(planned@),
            members@ == set_positions(flags.take(i as int)),
            are_members(members@, i as nat),
        decreases planned@.len() - i,
    {
        proof {
            assert(flags.take(i + 1).drop_last() =~= flags.take(i as int));
            assert(flags.take(i + 1).last() == planned@[i as int].2);
        }
        if planned[i].2 {
            members.push(i);
        }
        i = i + 1;
    }
    assert(flags.take(i as int) =~= flags);
    if members.len() == 1 && !reclustering && size_only[members[0]] {
        return Vec::new();
    }
    members
}

// ---------------------------------------------------------------------------
// What comes out
// ---------------------------------------------------------------------------

/// The tombstones that a compaction applies.
pub fn applied_tombstones(tombstones: &FxHashMap<i64, u64>, limit: Option<u64>) -> (r: FxHashMap<
    i64,
    u64,
>)
    ensures
        forall|x: i64| #[trigger] r@.contains_key(x) <==> tombstoned(tombstones@, limit, x),
        forall|x: i64| #[trigger] r@.contains_key(x) ==> r@[x] == tombstones@[x],
{
    let entries = row_entries(tombstones);
    let mut out = new_row_map();
    let mut i: usize = 0;
    while i < entries.len()
        invariant
            i <= entries@.len(),
            holds_entries(entries@, tombstones@),
            forall|x: i64| #[trigger]
                out@.contains_key(x) <==> tombstoned(tombstones@, limit, x) && exists|k: int|
                    0 <= k < i && (#[trigger] entries@[k]).0 == x,
            forall|x: i64| #[trigger] out@.contains_key(x) ==> out@[x] == tombstones@[x],
        decreases entries@.len() - i,
    {
        let (row_id, seq) = entries[i];
        let ghost before = out@;
        assert(tombstones@.contains_key(entries@[i as int].0));
        let applies: bool = match limit {
            Some(l) => seq < l,
            None => true,
        };
        assert(applies == tombstoned(tombstones@, limit, row_id));
        if applies {
            insert_row_value(&mut out, row_id, seq);
        }
        proof {
            assert forall|x: i64| #[trigger]
                out@.contains_key(x) <==> tombstoned(tombstones@, limit, x) && exists|k: int|
                    0 <= k < i + 1 && (#[trigger] entries@[k]).0 == x by {
                if before.contains_key(x) {
                    let k = choose|k: int| 0 <= k < i && (#[trigger] entries@[k]).0 == x;
                    assert(entries@[k].0 == x);
                }
                if x == row_id {
                    assert(entries@[i as int].0 == x);
                }
                if exists|k: int| 0 <= k < i + 1 && (#[trigger] entries@[k]).0 == x {
                    let k = choose|k: int| 0 <= k < i + 1 && (#[trigger] entries@[k]).0 == x;
                    if k < i {
                        assert(entries@[k].0 == x);
                    }
                }
            }
        }
        i = i + 1;
    }
    out
}

/// Every row of the volumes of a batch: those whose applied tombstones a compaction clears.
pub fn rows_of_batch(volumes: &[&[i64]]) -> (rows: FxHashSet<i64>)
    ensures
        forall|x: i64| #[trigger]
            rows@.contains(x) <==> exists|v: int|
                0 <= v < volumes@.len() && (#[trigger] volumes@[v])@.contains(x),
{
    let mut rows = new_row_set();
    let mut i: usize = 0;
    while i < volumes.len()
        invariant
            i <= volumes@.len(),
            forall|x: i64| #[trigger]
                rows@.contains(x) <==> exists|v: int|
                    0 <= v < i && (#[trigger] volumes@[v])@.contains(x),
        decreases volumes@.len() - i,
    {
        let ghost before = rows@;
        insert_rows(&mut rows, volumes[i]);
        proof {
            assert forall|x: i64| #[trigger] rows@.contains(x) <==> exists|v: int|
                0 <= v < i + 1 && (#[trigger] volumes@[v])@.contains(x) by {
                if before.contains(x) {
                    let v = choose|v: int| 0 <= v < i && (#[trigger] volumes@[v])@.contains(x);
                    assert(volumes@[v]@.contains(x));
                }
                if volumes@[i as int]@.contains(x) {
                    assert(rows@.contains(x));
                }
                if exists|v: int| 0 <= v < i + 1 && (#[trigger] volumes@[v])@.contains(x) {
                    let v = choose|v: int| 0 <= v < i + 1 && (#[trigger] volumes@[v])@.contains(x);
                    if v < i {
                        assert(before.contains(x));
                    }
                }
            }
        }
        i = i + 1;
    }
    rows
}

/// The bounds of the outputs: `total` rows in runs of `size`, the last one shorter where it has to
/// be.
pub open spec fn output_bounds(total: int, size: int) -> Seq<(usize, usize)> {
    Seq::new(
        output_count(total, size) as nat,
        |k: int|
            (
                (k * size) as usize,
                if (k + 1) * size < total {
                    ((k + 1) * size) as usize
                } else {
                    total as usize
                },
            ),
    )
}

/// The bounds of a compaction's outputs among its rows.
pub fn output_ranges(total: usize, target_volume_rows: usize) -> (ranges: Vec<(usize, usize)>)
    ensures
        ranges@ == output_bounds(total as int, chunk_rows(target_volume_rows as nat) as int),
{
    let size: usize = compaction_chunk_rows(target_volume_rows);
    chunk_ranges(total, size)
}

/// The bounds of runs of `size` among `total` items.
pub fn chunk_ranges(total: usize, size: usize) -> (ranges: Vec<(usize, usize)>)
    requires
        size > 0,
    ensures
        ranges@ == output_bounds(total as int, size as int),
{
    let mut ranges: Vec<(usize, usize)> = Vec::new();
    let mut from: usize = 0;
    let ghost goal = output_bounds(total as int, size as int);
    proof {
        assert(0 * (size as int) == 0);
        lemma_output_count(total as int, size as int);
    }
    while from < total
        invariant
            size > 0,
            goal == output_bounds(total as int, size as int),
            from == if ranges@.len() * size < total {
                ranges@.len() * size
            } else {
                total as int
            },
            ranges@.len() <= output_count(total as int, size as int),
            ranges@ == goal.take(ranges@.len() as int),
            from < total ==> ranges@.len() < output_count(total as int, size as int),
            from == total ==> ranges@.len() == output_count(total as int, size as int),
            forall|k: int|
                0 <= k < output_count(total as int, size as int) <==> 0 <= k && #[trigger] (k * size)
                    < total,
        decreases total - from,
    {
        let ghost k = ranges@.len() as int;
        let to: usize = if total - from > size {
            from + size
        } else {
            total
        };
        proof {
            assert((k + 1) * size == k * size + size) by (nonlinear_arith);
            assert(k * size == from);
            assert(0 <= k + 1 && ((k + 1) * size < total <==> k + 1 < output_count(
                total as int,
                size as int,
            )));
        }
        ranges.push((from, to));
        assert(ranges@ =~= goal.take(ranges@.len() as int));
        from = to;
    }
    assert(ranges@ =~= goal);
    ranges
}

proof fn lemma_output_count(total: int, size: int)
    requires
        total >= 0,
        size > 0,
    ensures
        output_count(total, size) >= 0,
        output_count(total, size) == 0 <==> total == 0,
        forall|k: int|
            0 <= k < output_count(total, size) <==> 0 <= k && #[trigger] (k * size) < total,
{
    let n = output_count(total, size);
    let q = total / size;
    let r = total % size;
    assert(total == q * size + r && 0 <= r < size && q >= 0) by (nonlinear_arith)
        requires
            q == total / size,
            r == total % size,
            size > 0,
            total >= 0,
    ;
    assert forall|k: int| 0 <= k < n <==> 0 <= k && #[trigger] (k * size) < total by {
        if 0 <= k < n {
            if k < q {
                assert(k * size + size <= q * size) by (nonlinear_arith)
                    requires
                        k + 1 <= q,
                        size > 0,
                ;
            }
        }
        if 0 <= k && k * size < total && k >= n {
            if r == 0 {
                assert(k * size >= q * size) by (nonlinear_arith)
                    requires
                        k >= q,
                        size > 0,
                ;
            } else {
                assert(k * size >= q * size + size) by (nonlinear_arith)
                    requires
                        k >= q + 1,
                        size > 0,
                ;
            }
        }
    }
    if total == 0 {
        assert(0 * size == 0);
    } else {
        assert(0int * size < total);
    }
}

/// The outputs of a compaction take up its rows without a gap: each begins where the one before
/// ends, the first at the first row and the last up to the last, and each but the last is full.
pub proof fn outputs_cover_all_rows(total: int, target: nat, k: int)
    requires
        0 < total <= usize::MAX,
        ({
            let size = chunk_rows(target) as int;
            0 <= k < output_bounds(total, size).len()
        }),
    ensures
        ({
            let size = chunk_rows(target) as int;
            let bounds = output_bounds(total, size);
            &&& bounds[0].0 == 0
            &&& bounds.last().1 == total
            &&& bounds[k].0 < bounds[k].1
            &&& k + 1 < bounds.len() ==> bounds[k].1 == bounds[k + 1].0 && bounds[k].1 - bounds[k].0
                == size
        }),
{
    let size = chunk_rows(target) as int;
    assert(size > 0) by {
        if target >= ROW_GROUP_ROWS {
            assert(target / 65_536 >= 1);
        }
    }
    lemma_output_count(total, size);
    let n = output_count(total, size);
    let last = n - 1;
    assert(last * size < total);
    assert(!(0 <= n && n * size < total));
    assert((last + 1) * size == n * size);
    assert((k + 1) * size == k * size + size) by (nonlinear_arith);
    assert(k * size < total);
    assert(k * size >= 0) by (nonlinear_arith)
        requires
            k >= 0,
            size > 0,
    ;
    assert(0 * size == 0);
    if k + 1 < n {
        assert((k + 1) * size < total);
    }
}

// ---------------------------------------------------------------------------
// Files that are no longer needed
// ---------------------------------------------------------------------------

/// What happens to a file in a table's volume directory after a compaction.
#[derive(Debug, Clone, Copy, PartialEq, Eq, Structural)]
pub enum FileFate {
    /// It stays.
    Keep,
    /// It goes when its last reader lets go of it.
    Retire,
    /// It goes at once.
    Remove,
}

/// Whether `name` is the file of one of `ids`.
pub open spec fn names_volume(name: Seq<char>, ids: Seq<u64>) -> bool {
    exists|i: int| 0 <= i < ids.len() && name == volume_name(#[trigger] ids[i])
}

/// What happens to the file `name` after the volumes `ids` were rewritten. Files of an older form of
/// tombstones go where the rewrite had an output.
pub fn fate_of_file(name: &str, extension: &str, ids: &[u64], has_output: bool) -> (fate: FileFate)
    ensures
        fate == if has_output && extension@ == "dv"@ {
            FileFate::Remove
        } else if (!has_output || extension@ == "vol"@) && names_volume(name@, ids@) {
            FileFate::Retire
        } else {
            FileFate::Keep
        },
{
    let is_dv: bool = extension.to_owned() == "dv".to_owned();
    let is_vol: bool = extension.to_owned() == "vol".to_owned();
    if has_output && is_dv {
        return FileFate::Remove;
    }
    if has_output && !is_vol {
        return FileFate::Keep;
    }
    let wanted = name.to_owned();
    let mut i: usize = 0;
    while i < ids.len()
        invariant
            i <= ids@.len(),
            wanted@ == name@,
            !(has_output && extension@ == "dv"@),
            !has_output || extension@ == "vol"@,
            forall|k: int| 0 <= k < i ==> name@ != volume_name(#[trigger] ids@[k]),
        decreases ids@.len() - i,
    {
        let file = volume_file_name(ids[i]);
        if wanted == file {
            assert(name@ == volume_name(ids@[i as int]));
            return FileFate::Retire;
        }
        i = i + 1;
    }
    FileFate::Keep
}

} // verus!
