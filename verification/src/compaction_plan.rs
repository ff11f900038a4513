//! Which volumes of a table a compaction rewrites, all rules together.

use crate::batch::{
    PlannedVolume, after_drops, chunk_rows, deferred_flags, rewrite_flags, rewrites,
    set_count,
};
use crate::batch_closure::{
    SettledBatch, accept_batch, close_batch, id_views, judged_base, lemma_after_drops,
    lemma_close_batch_len, lemma_fewer_set, lemma_judged_base, settle_batch, start_flags,
};
use crate::batch_merge::are_members;
use crate::compaction::{VolumePlan, batch_positions, request_is_done, volumes_to_rewrite};
use vstd::prelude::*;

verus! {

/// What a recluster found in a table's volumes.
#[derive(Debug)]
pub struct ReclusterChoice {
    /// Whether the table has no clustering key.
    pub key_is_empty: bool,
    /// The positions of volumes that are not in the key's order, as many as a cycle takes.
    pub selected: Vec<usize>,
    /// Whether every volume was looked into and chosen where it is not in order.
    pub all_checked: bool,
}

/// What a compaction does with a table.
#[derive(Debug)]
pub struct CompactionPlan {
    /// The positions of the volumes that are rewritten, in the order of the manifest.
    pub volumes: Vec<usize>,
    /// Whether the request to cluster the table is done.
    pub request_done: bool,
}

/// The batch of a table's volumes once it is settled, from what size and tombstones call for and
/// what a recluster chose.
pub open spec fn settled_volumes(
    planned: Seq<PlannedVolume>,
    size_only: Seq<bool>,
    ids: Seq<Seq<i64>>,
    selected: Seq<usize>,
    limit: nat,
    target: nat,
) -> SettledBatch {
    let base = rewrite_flags(planned);
    let output_rows = chunk_rows(target) as int;
    let first = after_drops(
        planned,
        start_flags(base, selected, true),
        base,
        size_only,
        selected,
        output_rows,
    ).0;
    settle_batch(planned, ids, size_only, limit, output_rows, first, selected)
}

/// The positions that a recluster chose.
pub open spec fn selected_by(r: Option<ReclusterChoice>) -> Seq<usize> {
    match r {
        Some(c) => c.selected@,
        None => Seq::empty(),
    }
}

/// What a compaction does with a table, given the plan for its volumes and their rows.
pub fn plan_compaction(
    plan: VolumePlan,
    recluster: Option<ReclusterChoice>,
    ids: &[&[i64]],
    limit: usize,
    target: usize,
) -> (r: CompactionPlan)
    requires
        plan.size_only@.len() == plan.planned@.len(),
        ids@.len() == plan.planned@.len(),
    ensures
        ({
            let s = settled_volumes(
                plan.planned@,
                plan.size_only@,
                id_views(ids@),
                selected_by(recluster),
                limit as nat,
                target as nat,
            );
            let reclustering = s.selected.len() > 0;
            &&& r.volumes@ == if s.held {
                Seq::empty()
            } else {
                batch_positions(s.flags, plan.size_only@, reclustering)
            }
            &&& r.request_done == match recluster {
                Some(c) => c.key_is_empty || (c.all_checked && !s.reduced && !reclustering),
                None => false,
            }
        }),
        are_members(r.volumes@, plan.planned@.len()),
{
    let VolumePlan { planned, size_only, deferred } = plan;
    let mut planned = planned;
    let mut base = rewrites(planned.as_slice());
    let (mut selected, request): (Vec<usize>, Option<(bool, bool)>) = match recluster {
        Some(c) => (c.selected, Some((c.key_is_empty, c.all_checked))),
        None => (Vec::new(), None),
    };
    assert(selected@ =~= selected_by(recluster));
    let (held, reduced) = accept_batch(
        &mut planned,
        &mut base,
        size_only.as_slice(),
        &mut selected,
        limit,
        target,
        ids,
    );
    let reclustering: bool = selected.len() > 0;
    let request_done: bool = match request {
        Some((key_is_empty, all_checked)) => request_is_done(
            key_is_empty,
            all_checked,
            reduced,
            reclustering,
        ),
        None => false,
    };
    let volumes = if held {
        Vec::new()
    } else {
        volumes_to_rewrite(planned.as_slice(), size_only.as_slice(), reclustering)
    };
    assert(held ==> volumes@ =~= Seq::empty());
    CompactionPlan { volumes, request_done }
}

/// A volume that has a reason of its own, tombstones to shed or too many rows, never leaves the base
/// of the batch: only those that size alone put there do.
pub proof fn own_reasons_stay(
    planned: Seq<PlannedVolume>,
    size_only: Seq<bool>,
    ids: Seq<Seq<i64>>,
    selected: Seq<usize>,
    limit: nat,
    target: nat,
    i: int,
)
    requires
        size_only.len() == planned.len(),
        ids.len() == planned.len(),
        0 <= i < planned.len(),
        planned[i].2,
        !size_only[i],
    ensures
        settled_volumes(planned, size_only, ids, selected, limit, target).base[i],
{
    let base = rewrite_flags(planned);
    let output_rows = chunk_rows(target) as int;
    let members = start_flags(base, selected, true);
    lemma_after_drops(planned, members, base, size_only, selected, output_rows);
    let first = after_drops(planned, members, base, size_only, selected, output_rows).0;
    assert(base[i]);
    lemma_settling_keeps(planned, size_only, ids, limit, output_rows, first, selected, i);
}

proof fn lemma_settling_keeps(
    planned: Seq<PlannedVolume>,
    size_only: Seq<bool>,
    ids: Seq<Seq<i64>>,
    limit: nat,
    output_rows: int,
    base: Seq<bool>,
    selected: Seq<usize>,
    i: int,
)
    requires
        base.len() == planned.len(),
        size_only.len() == planned.len(),
        ids.len() == planned.len(),
        0 <= i < planned.len(),
        base[i],
        !size_only[i],
    ensures
        settle_batch(planned, ids, size_only, limit, output_rows, base, selected).base[i],
    decreases set_count(base),
{
    let c = close_batch(base, deferred_flags(planned), ids, limit, selected, true, false);
    let next = judged_base(planned, c.flags, base, size_only, c.selected, output_rows);
    lemma_close_batch_len(base, deferred_flags(planned), ids, limit, selected, true, false);
    lemma_judged_base(planned, c.flags, base, size_only, c.selected, output_rows);
    if next != base {
        lemma_fewer_set(next, base);
        assert(next[i]);
        lemma_settling_keeps(
            planned,
            size_only,
            ids,
            limit,
            output_rows,
            next,
            c.selected,
            i,
        );
    }
}

} // verus!
