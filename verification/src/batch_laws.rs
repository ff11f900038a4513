//! What holds of every compaction batch.

use crate::batch::{PlannedVolume, after_drops, deferred_flags, set_count};
use crate::batch_closure::{
    ClosedBatch, SettledBatch, between, close_batch, closure_of, extra_count, holds_back,
    is_closure, judged_base, lemma_after_drops, lemma_close_batch_len, lemma_closure_exists,
    lemma_closure_unique, lemma_fewer_set, lemma_judged_base, settle_batch, start_flags, touches,
    within,
};
use vstd::prelude::*;

verus! {

/// A batch with one member closes over nothing: the volumes around it keep their places.
pub proof fn lone_member_closes_over_nothing(
    start: Seq<bool>,
    deferred: Seq<bool>,
    ids: Seq<Seq<i64>>,
    p: int,
)
    requires
        0 <= p < start.len(),
        start[p],
        forall|i: int| 0 <= i < start.len() && #[trigger] start[i] ==> i == p,
    ensures
        closure_of(start, deferred, ids) == start,
        !holds_back(start, start, deferred, ids),
{
    assert forall|i: int| 0 <= i < start.len() && #[trigger] between(start, i) implies i == p by {
        let a = choose|a: int| 0 <= a <= i && a < start.len() && #[trigger] start[a];
        let b = choose|b: int| i <= b < start.len() && 0 <= b && #[trigger] start[b];
        assert(a == p && b == p);
    }
    assert(is_closure(start, start, deferred, ids)) by {
        assert forall|i: int|
            0 <= i < start.len() && between(start, i) && !deferred[i] && #[trigger] touches(
                ids,
                start,
                i,
            ) implies start[i] by {}
    }
    lemma_closure_unique(start, start, deferred, ids);
}

/// Whether `c` is a batch that was closed as it should be: its members are the closure of the base,
/// if it takes part, and of the selection; the base stays out only beside a single selected volume;
/// and the members beyond the base are within the limit, unless nothing is selected or the base
/// stays out.
pub open spec fn closed_properly(
    c: ClosedBatch,
    base: Seq<bool>,
    deferred: Seq<bool>,
    ids: Seq<Seq<i64>>,
    limit: nat,
    with_base: bool,
) -> bool {
    let start = start_flags(base, c.selected, with_base);
    &&& is_closure(c.flags, start, deferred, ids)
    &&& c.held == holds_back(c.flags, start, deferred, ids)
    &&& with_base || c.selected.len() == 1
    &&& extra_count(c.flags, base) <= limit || c.selected.len() == 0 || !with_base
}

/// A closed batch holds its base, its selection and every volume between them that shares a row
/// with it and is not deferred, and nothing else; the selection loses positions at its end only,
/// never its first, and the batch says whether it has.
pub proof fn batch_is_closed(
    base: Seq<bool>,
    deferred: Seq<bool>,
    ids: Seq<Seq<i64>>,
    limit: nat,
    selected: Seq<usize>,
)
    ensures
        ({
            let c = close_batch(base, deferred, ids, limit, selected, true, false);
            &&& closed_properly(c, base, deferred, ids, limit, true) || closed_properly(
                c,
                base,
                deferred,
                ids,
                limit,
                false,
            )
            &&& c.selected.len() <= selected.len()
            &&& c.selected == selected.take(c.selected.len() as int)
            &&& c.reduced == (c.selected.len() < selected.len())
            &&& selected.len() > 0 ==> c.selected.len() > 0
        }),
{
    assert(selected.take(selected.len() as int) =~= selected);
    lemma_batch_is_closed(base, deferred, ids, limit, selected, selected, true, false);
}

proof fn lemma_batch_is_closed(
    base: Seq<bool>,
    deferred: Seq<bool>,
    ids: Seq<Seq<i64>>,
    limit: nat,
    all: Seq<usize>,
    selected: Seq<usize>,
    with_base: bool,
    reduced: bool,
)
    requires
        selected.len() <= all.len(),
        selected == all.take(selected.len() as int),
        reduced == (selected.len() < all.len()),
        all.len() > 0 ==> selected.len() > 0,
        with_base || selected.len() == 1,
    ensures
        ({
            let c = close_batch(base, deferred, ids, limit, selected, with_base, reduced);
            &&& closed_properly(c, base, deferred, ids, limit, true) || closed_properly(
                c,
                base,
                deferred,
                ids,
                limit,
                false,
            )
            &&& c.selected.len() <= all.len()
            &&& c.selected == all.take(c.selected.len() as int)
            &&& c.reduced == (c.selected.len() < all.len())
            &&& all.len() > 0 ==> c.selected.len() > 0
        }),
    decreases selected.len(), (if with_base { 1int } else { 0 }),
{
    let start = start_flags(base, selected, with_base);
    let flags = closure_of(start, deferred, ids);
    lemma_closure_exists(start, deferred, ids);
    if extra_count(flags, base) <= limit || selected.len() == 0 || !with_base {
        let c = close_batch(base, deferred, ids, limit, selected, with_base, reduced);
        assert(closed_properly(c, base, deferred, ids, limit, with_base));
    } else if selected.len() > 1 {
        let shorter = selected.drop_last();
        assert(shorter =~= all.take(shorter.len() as int));
        lemma_batch_is_closed(base, deferred, ids, limit, all, shorter, with_base, true);
    } else {
        lemma_batch_is_closed(base, deferred, ids, limit, all, selected, false, reduced);
    }
}

/// Closing a closed batch again gives the same members and the same selection.
pub proof fn closing_again_changes_nothing(
    base: Seq<bool>,
    deferred: Seq<bool>,
    ids: Seq<Seq<i64>>,
    limit: nat,
    selected: Seq<usize>,
)
    ensures
        ({
            let c = close_batch(base, deferred, ids, limit, selected, true, false);
            let again = close_batch(base, deferred, ids, limit, c.selected, true, false);
            again.flags == c.flags && again.selected == c.selected && again.held == c.held
        }),
{
    lemma_closing_again(base, deferred, ids, limit, selected, true, false);
}

proof fn lemma_closing_again(
    base: Seq<bool>,
    deferred: Seq<bool>,
    ids: Seq<Seq<i64>>,
    limit: nat,
    selected: Seq<usize>,
    with_base: bool,
    reduced: bool,
)
    requires
        with_base || ({
            let again = close_batch(base, deferred, ids, limit, selected, true, false);
            let here = close_batch(base, deferred, ids, limit, selected, false, false);
            again.flags == here.flags && again.selected == here.selected && again.held == here.held
        }),
    ensures
        ({
            let c = close_batch(base, deferred, ids, limit, selected, with_base, reduced);
            let again = close_batch(base, deferred, ids, limit, c.selected, true, false);
            again.flags == c.flags && again.selected == c.selected && again.held == c.held
        }),
    decreases selected.len(), (if with_base { 1int } else { 0 }),
{
    let flags = closure_of(start_flags(base, selected, with_base), deferred, ids);
    if extra_count(flags, base) <= limit || selected.len() == 0 || !with_base {
    } else if selected.len() > 1 {
        lemma_closing_again(base, deferred, ids, limit, selected.drop_last(), with_base, true);
    } else {
        lemma_closing_again(base, deferred, ids, limit, selected, false, reduced);
    }
}

/// A settled batch has lost only members that size alone put there; what the closure brought in has
/// not left, since the members are the closure of what is left; and judging it once more takes
/// nothing out.
pub proof fn batch_is_settled(
    planned: Seq<PlannedVolume>,
    ids: Seq<Seq<i64>>,
    size_only: Seq<bool>,
    limit: nat,
    output_rows: int,
    base: Seq<bool>,
    selected: Seq<usize>,
)
    requires
        base.len() == planned.len(),
        size_only.len() == planned.len(),
        ids.len() == planned.len(),
    ensures
        ({
            let s = settle_batch(planned, ids, size_only, limit, output_rows, base, selected);
            let c = close_batch(s.base, deferred_flags(planned), ids, limit, s.selected, true, false);
            &&& within(s.base, base)
            &&& forall|i: int|
                0 <= i < base.len() && base[i] && !#[trigger] s.base[i] ==> size_only[i]
            &&& s.flags == c.flags
            &&& s.selected == c.selected
            &&& s.held == c.held
            &&& judged_base(planned, s.flags, s.base, size_only, s.selected, output_rows) == s.base
        }),
    decreases set_count(base),
{
    let deferred = deferred_flags(planned);
    let c = close_batch(base, deferred, ids, limit, selected, true, false);
    let next = judged_base(planned, c.flags, base, size_only, c.selected, output_rows);
    lemma_close_batch_len(base, deferred, ids, limit, selected, true, false);
    lemma_judged_base(planned, c.flags, base, size_only, c.selected, output_rows);
    closing_again_changes_nothing(base, deferred, ids, limit, selected);
    if next != base {
        lemma_fewer_set(next, base);
        batch_is_settled(planned, ids, size_only, limit, output_rows, next, c.selected);
        let s = settle_batch(planned, ids, size_only, limit, output_rows, next, c.selected);
        assert(s == settle_batch(planned, ids, size_only, limit, output_rows, base, selected));
        assert forall|i: int| 0 <= i < base.len() && base[i] && !#[trigger] s.base[i] implies
            size_only[i] by {
            if next[i] {
                assert(size_only[i]);
            }
        }
        assert forall|i: int| 0 <= i < base.len() && #[trigger] s.base[i] implies base[i] by {
            assert(next[i]);
        }
    }
}

/// Without members that size alone put in the base, the batch is exactly the closure: nothing leaves
/// the base before or after, whatever the rows of an output are.
pub proof fn batch_without_size_members_is_the_closure(
    planned: Seq<PlannedVolume>,
    ids: Seq<Seq<i64>>,
    size_only: Seq<bool>,
    limit: nat,
    output_rows: int,
    base: Seq<bool>,
    selected: Seq<usize>,
)
    requires
        base.len() == planned.len(),
        size_only.len() == planned.len(),
        ids.len() == planned.len(),
        forall|i: int| 0 <= i < size_only.len() ==> !#[trigger] size_only[i],
    ensures
        ({
            let c = close_batch(base, deferred_flags(planned), ids, limit, selected, true, false);
            let first = after_drops(
                planned,
                start_flags(base, selected, true),
                base,
                size_only,
                selected,
                output_rows,
            ).0;
            &&& first == base
            &&& settle_batch(planned, ids, size_only, limit, output_rows, first, selected) == (
            SettledBatch {
                flags: c.flags,
                base,
                selected: c.selected,
                held: c.held,
                reduced: c.reduced,
            })
        }),
{
    let members = start_flags(base, selected, true);
    lemma_after_drops(planned, members, base, size_only, selected, output_rows);
    let first = after_drops(planned, members, base, size_only, selected, output_rows).0;
    assert(first =~= base) by {
        assert forall|i: int| 0 <= i < base.len() implies first[i] == base[i] by {
            if base[i] && !first[i] {
                assert(size_only[i]);
            }
        }
    }
    let c = close_batch(base, deferred_flags(planned), ids, limit, selected, true, false);
    lemma_close_batch_len(base, deferred_flags(planned), ids, limit, selected, true, false);
    lemma_judged_base(planned, c.flags, base, size_only, c.selected, output_rows);
    let next = judged_base(planned, c.flags, base, size_only, c.selected, output_rows);
    assert(next =~= base) by {
        assert forall|i: int| 0 <= i < base.len() implies next[i] == base[i] by {
            if base[i] && !next[i] {
                assert(size_only[i]);
            }
        }
    }
}

} // verus!
