//! What puts a volume in a compaction's batch and what keeps it there, in terms of rows and sizes.

use crate::batch::{
    PlannedVolume, after_drops, chunk_rows, deferred_flags, in_proportion, largest_set, leaves_next,
    lemma_clear_flag, lemma_largest_set, output_count, rewrite_flags, set_count, set_rows, unaccepted,
};
use crate::batch_closure::{
    batch_rows, between, close_batch, closed, closure_of, extra_count, holds_back, is_closure,
    judged_base, lemma_close_batch_len, lemma_closure_unique, lemma_fewer_set, lemma_judged_base,
    settle_batch, start_flags, touches, within, without_size_members,
};
use crate::batch_laws::{batch_is_closed, batch_is_settled, closed_properly};
use crate::compaction_plan::settled_volumes;
use vstd::prelude::*;

verus! {

/// Whether two volumes have a row in common.
pub open spec fn share_row(ids: Seq<Seq<i64>>, i: int, j: int) -> bool {
    exists|x: i64| #[trigger] ids[i].contains(x) && ids[j].contains(x)
}

/// Whether a volume stands between two members, or is one.
pub open spec fn stands_within(start: Seq<bool>, i: int) -> bool {
    exists|a: int, b: int|
        0 <= a <= i <= b < start.len() && #[trigger] start[a] && #[trigger] start[b]
}

proof fn lemma_touches(ids: Seq<Seq<i64>>, flags: Seq<bool>, i: int)
    ensures
        touches(ids, flags, i) <==> exists|j: int|
            0 <= j < flags.len() && #[trigger] flags[j] && share_row(ids, i, j),
{
    if touches(ids, flags, i) {
        let x = choose|x: i64| #[trigger] ids[i].contains(x) && batch_rows(ids, flags).contains(x);
        let j = choose|j: int| 0 <= j < flags.len() && #[trigger] flags[j] && ids[j].contains(x);
        assert(share_row(ids, i, j));
    }
    if exists|j: int| 0 <= j < flags.len() && #[trigger] flags[j] && share_row(ids, i, j) {
        let j = choose|j: int|
            0 <= j < flags.len() && #[trigger] flags[j] && share_row(ids, i, j);
        let x = choose|x: i64| #[trigger] ids[i].contains(x) && ids[j].contains(x);
        assert(batch_rows(ids, flags).contains(x));
    }
}

proof fn lemma_between(start: Seq<bool>, i: int)
    requires
        0 <= i < start.len(),
    ensures
        between(start, i) <==> stands_within(start, i),
{
    if between(start, i) {
        let a = choose|a: int| 0 <= a <= i && a < start.len() && #[trigger] start[a];
        let b = choose|b: int| i <= b < start.len() && 0 <= b && #[trigger] start[b];
        assert(start[a] && start[b]);
    }
    if stands_within(start, i) {
        let (a, b) = choose|a: int, b: int|
            0 <= a <= i <= b < start.len() && #[trigger] start[a] && #[trigger] start[b];
        assert(start[a] && start[b]);
    }
}

/// A closed batch has every volume that was put in it, and every volume between two of those that has
/// a row in common with a member and is not deferred; and a member that was not put in stands between
/// two that were, is not deferred, and has a row in common with another member.
pub proof fn batch_takes_in_shared_rows(
    flags: Seq<bool>,
    start: Seq<bool>,
    deferred: Seq<bool>,
    ids: Seq<Seq<i64>>,
)
    requires
        is_closure(flags, start, deferred, ids),
    ensures
        flags.len() == start.len(),
        forall|i: int| 0 <= i < start.len() && #[trigger] start[i] ==> flags[i],
        forall|i: int, j: int|
            0 <= i < flags.len() && 0 <= j < flags.len() && stands_within(start, i) && !deferred[i]
                && flags[j] && #[trigger] share_row(ids, i, j) ==> flags[i],
        forall|i: int|
            0 <= i < flags.len() && #[trigger] flags[i] && !start[i] ==> stands_within(start, i)
                && !deferred[i] && exists|j: int|
                0 <= j < flags.len() && j != i && #[trigger] flags[j] && share_row(ids, i, j),
{
    assert forall|i: int, j: int|
        0 <= i < flags.len() && 0 <= j < flags.len() && stands_within(start, i) && !deferred[i]
            && flags[j] && #[trigger] share_row(ids, i, j) implies flags[i] by {
        lemma_between(start, i);
        lemma_touches(ids, flags, i);
        assert(touches(ids, flags, i));
    }
    assert forall|i: int| 0 <= i < flags.len() && #[trigger] flags[i] && !start[i] implies
        stands_within(start, i) && !deferred[i] && exists|j: int|
        0 <= j < flags.len() && j != i && #[trigger] flags[j] && share_row(ids, i, j) by {
        lemma_between(start, i);
        let less = flags.update(i, false);
        assert(within(start, less));
        if !(stands_within(start, i) && !deferred[i] && exists|j: int|
            0 <= j < flags.len() && j != i && #[trigger] flags[j] && share_row(ids, i, j)) {
            assert forall|k: int|
                0 <= k < less.len() && between(start, k) && !deferred[k] && #[trigger] touches(
                    ids,
                    less,
                    k,
                ) implies less[k] by {
                lemma_touches(ids, less, k);
                let j = choose|j: int|
                    0 <= j < less.len() && #[trigger] less[j] && share_row(ids, k, j);
                assert(flags[j] && j != i);
                if k == i {
                    assert(false);
                } else {
                    lemma_touches(ids, flags, k);
                    assert(touches(ids, flags, k));
                    assert(flags[k]);
                }
            }
            assert(closed(less, start, deferred, ids));
            assert(within(flags, less));
            assert(less[i]);
            assert(false);
        }
    }
}

/// A batch is held back just where a deferred volume that is no member stands between two of those
/// that were put in it and has a row in common with a member.
pub proof fn deferred_overlap_holds_the_batch(
    flags: Seq<bool>,
    start: Seq<bool>,
    deferred: Seq<bool>,
    ids: Seq<Seq<i64>>,
)
    requires
        flags.len() == start.len(),
    ensures
        holds_back(flags, start, deferred, ids) <==> exists|i: int, j: int|
            0 <= i < flags.len() && 0 <= j < flags.len() && deferred[i] && !flags[i] && flags[j]
                && stands_within(start, i) && #[trigger] share_row(ids, i, j),
{
    if holds_back(flags, start, deferred, ids) {
        let i = choose|i: int|
            0 <= i < flags.len() && between(start, i) && deferred[i] && !flags[i]
                && #[trigger] touches(ids, flags, i);
        lemma_between(start, i);
        lemma_touches(ids, flags, i);
        let j = choose|j: int| 0 <= j < flags.len() && #[trigger] flags[j] && share_row(ids, i, j);
        assert(share_row(ids, i, j));
    }
    if exists|i: int, j: int|
        0 <= i < flags.len() && 0 <= j < flags.len() && deferred[i] && !flags[i] && flags[j]
            && stands_within(start, i) && #[trigger] share_row(ids, i, j) {
        let (i, j) = choose|i: int, j: int|
            0 <= i < flags.len() && 0 <= j < flags.len() && deferred[i] && !flags[i] && flags[j]
                && stands_within(start, i) && #[trigger] share_row(ids, i, j);
        lemma_between(start, i);
        lemma_touches(ids, flags, i);
        assert(touches(ids, flags, i));
    }
}

/// What is put in a batch: what the base calls for, where it takes part, and what is selected.
pub proof fn base_and_selection_start_the_batch(
    base: Seq<bool>,
    selected: Seq<usize>,
    with_base: bool,
    i: int,
)
    requires
        0 <= i < base.len(),
    ensures
        start_flags(base, selected, with_base).len() == base.len(),
        base[i] && with_base ==> start_flags(base, selected, with_base)[i],
        selected.contains(i as usize) ==> start_flags(base, selected, with_base)[i],
        start_flags(base, selected, with_base)[i] ==> selected.contains(i as usize) || base[i]
            && with_base,
{
}

/// Where the whole selection adds no more than the limit, a batch is closed over all of it, and is
/// not reduced; and a batch without a selection is closed over its base whatever the limit.
pub proof fn selection_within_the_limit_is_kept(
    base: Seq<bool>,
    deferred: Seq<bool>,
    ids: Seq<Seq<i64>>,
    limit: nat,
    selected: Seq<usize>,
    flags: Seq<bool>,
)
    requires
        is_closure(flags, start_flags(base, selected, true), deferred, ids),
        selected.len() == 0 || extra_count(flags, base) <= limit,
    ensures
        ({
            let c = close_batch(base, deferred, ids, limit, selected, true, false);
            &&& c.flags == flags
            &&& c.selected == selected
            &&& !c.reduced
            &&& c.held == holds_back(flags, start_flags(base, selected, true), deferred, ids)
        }),
{
    lemma_closure_unique(flags, start_flags(base, selected, true), deferred, ids);
}

/// Where a selection of two or more adds more than the limit, its last position is left for later, and
/// the batch says so; a selection of one that does is taken without the base.
pub proof fn selection_beyond_the_limit_is_cut(
    base: Seq<bool>,
    deferred: Seq<bool>,
    ids: Seq<Seq<i64>>,
    limit: nat,
    selected: Seq<usize>,
    flags: Seq<bool>,
)
    requires
        is_closure(flags, start_flags(base, selected, true), deferred, ids),
        extra_count(flags, base) > limit,
        selected.len() > 0,
    ensures
        ({
            let c = close_batch(base, deferred, ids, limit, selected, true, false);
            &&& selected.len() > 1 ==> {
                let d = close_batch(base, deferred, ids, limit, selected.drop_last(), true, false);
                &&& c.flags == d.flags
                &&& c.selected == d.selected
                &&& c.held == d.held
                &&& c.reduced
            }
            &&& selected.len() == 1 ==> {
                &&& c.flags == closure_of(start_flags(base, selected, false), deferred, ids)
                &&& c.selected == selected
                &&& !c.reduced
            }
        }),
{
    lemma_closure_unique(flags, start_flags(base, selected, true), deferred, ids);
    reveal_with_fuel(close_batch, 2);
    if selected.len() > 1 {
        lemma_reduced_flag(base, deferred, ids, limit, selected.drop_last(), true);
    }
}

proof fn lemma_reduced_flag(
    base: Seq<bool>,
    deferred: Seq<bool>,
    ids: Seq<Seq<i64>>,
    limit: nat,
    selected: Seq<usize>,
    with_base: bool,
)
    ensures
        ({
            let c = close_batch(base, deferred, ids, limit, selected, with_base, true);
            let d = close_batch(base, deferred, ids, limit, selected, with_base, false);
            &&& c.flags == d.flags
            &&& c.selected == d.selected
            &&& c.held == d.held
            &&& c.reduced
        }),
    decreases selected.len(), (if with_base { 1int } else { 0 }),
{
    let flags = closure_of(start_flags(base, selected, with_base), deferred, ids);
    if extra_count(flags, base) <= limit || selected.len() == 0 || !with_base {
    } else if selected.len() > 1 {
        lemma_reduced_flag(base, deferred, ids, limit, selected.drop_last(), with_base);
    } else {
        lemma_reduced_flag(base, deferred, ids, limit, selected, false);
    }
}

// ---------------------------------------------------------------------------
// Sizes
// ---------------------------------------------------------------------------

/// The members of a batch are counted one by one, and so are their rows: taking one out leaves one
/// less, and so many rows less; an empty batch has none.
pub proof fn members_are_counted(planned: Seq<PlannedVolume>, flags: Seq<bool>)
    ensures
        forall|p: int|
            0 <= p < flags.len() && #[trigger] flags[p] ==> set_count(flags.update(p, false)) + 1
                == set_count(flags) && set_rows(planned, flags.update(p, false)) + planned[p].1
                == set_rows(planned, flags),
        (forall|p: int| 0 <= p < flags.len() ==> !#[trigger] flags[p]) ==> set_count(flags) == 0
            && set_rows(planned, flags) == 0,
    decreases flags.len(),
{
    assert forall|p: int| 0 <= p < flags.len() && #[trigger] flags[p] implies set_count(
        flags.update(p, false),
    ) + 1 == set_count(flags) && set_rows(planned, flags.update(p, false)) + planned[p].1
        == set_rows(planned, flags) by {
        lemma_clear_flag(planned, flags, p);
    }
    if flags.len() > 0 && forall|p: int| 0 <= p < flags.len() ==> !#[trigger] flags[p] {
        let before = flags.drop_last();
        assert forall|p: int| 0 <= p < before.len() implies !#[trigger] before[p] by {
            assert(!flags[p]);
        }
        members_are_counted(planned, before);
        assert(!flags[flags.len() - 1]);
    }
}

/// A batch of two or more is in proportion just where its largest member has at most four times the
/// rows of the others together; a smaller batch always is.
pub proof fn largest_is_in_proportion(planned: Seq<PlannedVolume>, flags: Seq<bool>, p: int)
    requires
        0 <= p < flags.len(),
        flags[p],
        forall|i: int|
            0 <= i < flags.len() && #[trigger] flags[i] ==> planned[i].1 <= planned[p].1,
    ensures
        set_count(flags) < 2 ==> in_proportion(planned, flags),
        set_count(flags) >= 2 ==> (in_proportion(planned, flags) <==> planned[p].1 <= 4 * set_rows(
            planned,
            flags.update(p, false),
        )),
{
    lemma_largest_set(planned, flags);
    lemma_clear_flag(planned, flags, p);
    let q = largest_set(planned, flags)->Some_0;
    assert(flags[q]);
    assert(planned[q].1 == planned[p].1);
}

/// Rows come out as the fewest outputs that can hold them: they fit in that many, and not in one
/// less.
pub proof fn outputs_are_the_fewest(rows: int, size: int)
    requires
        rows >= 0,
        size > 0,
    ensures
        output_count(rows, size) * size >= rows,
        rows > 0 ==> (output_count(rows, size) - 1) * size < rows,
        rows == 0 ==> output_count(rows, size) == 0,
{
    let q = rows / size;
    let r = rows % size;
    assert(rows == q * size + r && 0 <= r < size && q >= 0) by (nonlinear_arith)
        requires
            q == rows / size,
            r == rows % size,
            size > 0,
            rows >= 0,
    ;
    assert((q + 1) * size == q * size + size) by (nonlinear_arith);
    assert((q - 1) * size == q * size - size) by (nonlinear_arith);
    if rows == 0 {
        assert(q == 0) by (nonlinear_arith)
            requires
                0 == q * size + r,
                size > 0,
                0 <= r,
                q >= 0,
        ;
    }
}

/// An output holds a whole number of row groups of 65,536 rows: as many as fit in the target, and one
/// where none does.
pub proof fn outputs_hold_whole_groups(target: nat)
    ensures
        chunk_rows(target) % 65_536 == 0,
        chunk_rows(target) >= 65_536,
        target >= 65_536 ==> chunk_rows(target) <= target && target < chunk_rows(target) + 65_536,
        target < 65_536 ==> chunk_rows(target) == 65_536,
{
}

/// Whether a member that its size alone put in the batch earns its place: the batch comes out as no
/// more outputs for it; and where it is the largest, it has at most four times the rows of the others
/// together.
pub open spec fn earns_its_place(
    planned: Seq<PlannedVolume>,
    members: Seq<bool>,
    output_rows: int,
    p: int,
) -> bool {
    let others = set_rows(planned, members.update(p, false)) as int;
    let rows = planned[p].1 as int;
    &&& output_count(others + rows, output_rows) <= output_count(others, output_rows)
    &&& largest_set(planned, members) == Some(p) ==> rows <= 4 * others
}

proof fn lemma_unaccepted(
    planned: Seq<PlannedVolume>,
    members: Seq<bool>,
    base: Seq<bool>,
    size_only: Seq<bool>,
    selected: Seq<usize>,
    output_rows: int,
    p: int,
)
    requires
        0 <= p < members.len(),
        members[p],
    ensures
        unaccepted(planned, members, base, size_only, selected, output_rows, p) <==> size_only[p]
            && base[p] && !selected.contains(p as usize) && !earns_its_place(
            planned,
            members,
            output_rows,
            p,
        ),
{
    lemma_clear_flag(planned, members, p);
}

/// The members of a batch without those that left its base.
pub open spec fn members_left(members: Seq<bool>, base: Seq<bool>, after: Seq<bool>) -> Seq<bool> {
    Seq::new(members.len(), |i: int| members[i] && !(base[i] && !after[i]))
}

/// Once the members that do not earn their place have left, every member that is still there, that
/// size alone put there and that was not selected earns it, or is the only one. Where each earns its
/// place from the start, none leaves.
pub proof fn members_that_stay_earn_their_place(
    planned: Seq<PlannedVolume>,
    members: Seq<bool>,
    base: Seq<bool>,
    size_only: Seq<bool>,
    selected: Seq<usize>,
    output_rows: int,
)
    requires
        members.len() == base.len(),
    ensures
        ({
            let (after, dropped) = after_drops(
                planned,
                members,
                base,
                size_only,
                selected,
                output_rows,
            );
            let left = members_left(members, base, after);
            &&& after.len() == base.len()
            &&& forall|i: int| 0 <= i < base.len() && #[trigger] after[i] ==> base[i]
            &&& forall|i: int|
                0 <= i < base.len() && base[i] && !#[trigger] after[i] ==> members[i]
                    && size_only[i] && !selected.contains(i as usize)
            &&& set_count(left) >= 2 ==> forall|p: int|
                0 <= p < left.len() && #[trigger] left[p] && size_only[p] && after[p]
                    && !selected.contains(p as usize) ==> earns_its_place(
                    planned,
                    left,
                    output_rows,
                    p,
                )
            &&& dropped <==> after != base
        }),
        (forall|p: int|
            0 <= p < members.len() && #[trigger] members[p] && size_only[p] && base[p]
                && !selected.contains(p as usize) ==> earns_its_place(
                planned,
                members,
                output_rows,
                p,
            )) ==> after_drops(planned, members, base, size_only, selected, output_rows) == (
            base,
            false,
        ),
    decreases set_count(members),
{
    let (after, dropped) = after_drops(planned, members, base, size_only, selected, output_rows);
    let left = members_left(members, base, after);
    if set_count(members) < 2 {
        assert(left =~= members);
    } else if exists|p: int|
        leaves_next(planned, members, base, size_only, selected, output_rows, p) {
        let p = choose|p: int|
            leaves_next(planned, members, base, size_only, selected, output_rows, p);
        let m1 = members.update(p, false);
        let b1 = base.update(p, false);
        lemma_clear_flag(planned, members, p);
        lemma_unaccepted(planned, members, base, size_only, selected, output_rows, p);
        members_that_stay_earn_their_place(planned, m1, b1, size_only, selected, output_rows);
        assert(members_left(m1, b1, after) =~= left);
        assert forall|i: int| 0 <= i < base.len() && #[trigger] after[i] implies base[i] by {
            assert(b1[i]);
        }
        assert forall|i: int| 0 <= i < base.len() && base[i] && !#[trigger] after[i] implies
            members[i] && size_only[i] && !selected.contains(i as usize) by {
            if i != p {
                assert(b1[i] && m1[i] == members[i]);
            }
        }
        assert(!after[p]) by {
            if after[p] {
                assert(b1[p]);
            }
        }
    } else {
        assert(left =~= members);
        assert forall|p: int|
            0 <= p < left.len() && #[trigger] left[p] && size_only[p] && after[p]
                && !selected.contains(p as usize) implies earns_its_place(
            planned,
            left,
            output_rows,
            p,
        ) by {
            lemma_unaccepted(planned, members, base, size_only, selected, output_rows, p);
            if unaccepted(planned, members, base, size_only, selected, output_rows, p) {
                lemma_some_leaves(planned, members, base, size_only, selected, output_rows, p);
            }
        }
    }
    if forall|p: int|
        0 <= p < members.len() && #[trigger] members[p] && size_only[p] && base[p]
            && !selected.contains(p as usize) ==> earns_its_place(planned, members, output_rows, p) {
        if exists|p: int|
            leaves_next(planned, members, base, size_only, selected, output_rows, p) {
            let p = choose|p: int|
                leaves_next(planned, members, base, size_only, selected, output_rows, p);
            assert(members[p]);
            lemma_unaccepted(planned, members, base, size_only, selected, output_rows, p);
        }
    }
}

/// Where a member is not accepted, some member leaves next.
proof fn lemma_some_leaves(
    planned: Seq<PlannedVolume>,
    members: Seq<bool>,
    base: Seq<bool>,
    size_only: Seq<bool>,
    selected: Seq<usize>,
    output_rows: int,
    p: int,
)
    requires
        unaccepted(planned, members, base, size_only, selected, output_rows, p),
    ensures
        exists|q: int| leaves_next(planned, members, base, size_only, selected, output_rows, q),
{
    let q = lemma_best(planned, members, base, size_only, selected, output_rows, members.len() as int);
    assert(unaccepted(planned, members, base, size_only, selected, output_rows, p));
    assert(leaves_next(planned, members, base, size_only, selected, output_rows, q));
}

proof fn lemma_best(
    planned: Seq<PlannedVolume>,
    members: Seq<bool>,
    base: Seq<bool>,
    size_only: Seq<bool>,
    selected: Seq<usize>,
    output_rows: int,
    n: int,
) -> (q: int)
    requires
        0 <= n <= members.len(),
    ensures
        (exists|p: int|
            0 <= p < n && #[trigger] unaccepted(
                planned,
                members,
                base,
                size_only,
                selected,
                output_rows,
                p,
            )) ==> 0 <= q < n && unaccepted(
            planned,
            members,
            base,
            size_only,
            selected,
            output_rows,
            q,
        ) && forall|p: int|
            0 <= p < n && #[trigger] unaccepted(
                planned,
                members,
                base,
                size_only,
                selected,
                output_rows,
                p,
            ) ==> planned[p].1 < planned[q].1 || (planned[p].1 == planned[q].1 && q <= p),
    decreases n,
{
    if n == 0 {
        0
    } else {
        let q = lemma_best(planned, members, base, size_only, selected, output_rows, n - 1);
        let last = n - 1;
        if unaccepted(planned, members, base, size_only, selected, output_rows, last) {
            if exists|p: int|
                0 <= p < n - 1 && #[trigger] unaccepted(
                    planned,
                    members,
                    base,
                    size_only,
                    selected,
                    output_rows,
                    p,
                ) {
                if planned[last].1 > planned[q].1 {
                    last
                } else {
                    q
                }
            } else {
                last
            }
        } else {
            q
        }
    }
}

/// Where the largest member came in by shared rows and is out of proportion, every member leaves the
/// base that size alone put there, if there is one; otherwise those leave that do not earn their
/// place.
pub proof fn judged_batch_loses_size_members(
    planned: Seq<PlannedVolume>,
    flags: Seq<bool>,
    base: Seq<bool>,
    size_only: Seq<bool>,
    selected: Seq<usize>,
    output_rows: int,
    p: int,
)
    requires
        largest_set(planned, flags) == Some(p),
        flags.len() == base.len(),
        base.len() == size_only.len(),
    ensures
        ({
            let after = judged_base(planned, flags, base, size_only, selected, output_rows);
            let brought = !base[p] && !selected.contains(p as usize);
            let out = set_count(flags) >= 2 && planned[p].1 > 4 * set_rows(
                planned,
                flags.update(p, false),
            );
            let some = exists|i: int| 0 <= i < base.len() && #[trigger] base[i] && size_only[i];
            &&& brought && out && some ==> after.len() == base.len() && forall|i: int|
                0 <= i < base.len() ==> (#[trigger] after[i] <==> base[i] && !size_only[i])
            &&& !(brought && out && some) ==> after == after_drops(
                planned,
                flags,
                base,
                size_only,
                selected,
                output_rows,
            ).0
        }),
{
    lemma_largest_set(planned, flags);
    largest_is_in_proportion(planned, flags, p);
    let cleared = without_size_members(base, size_only);
    if exists|i: int| 0 <= i < base.len() && #[trigger] base[i] && size_only[i] {
        let i = choose|i: int| 0 <= i < base.len() && #[trigger] base[i] && size_only[i];
        assert(cleared[i] != base[i]);
    } else {
        assert(cleared =~= base);
    }
}

/// Of the members that do not earn their place, the one with the most rows leaves, the first of
/// several; it is not judged again with others gone.
pub proof fn largest_leaves_first(
    planned: Seq<PlannedVolume>,
    members: Seq<bool>,
    base: Seq<bool>,
    size_only: Seq<bool>,
    selected: Seq<usize>,
    output_rows: int,
    p: int,
)
    requires
        members.len() == base.len(),
        set_count(members) >= 2,
        0 <= p < members.len(),
        members[p] && size_only[p] && base[p] && !selected.contains(p as usize),
        !earns_its_place(planned, members, output_rows, p),
        forall|q: int|
            0 <= q < members.len() && #[trigger] members[q] && size_only[q] && base[q]
                && !selected.contains(q as usize) && !earns_its_place(
                planned,
                members,
                output_rows,
                q,
            ) ==> planned[q].1 < planned[p].1 || (planned[q].1 == planned[p].1 && p <= q),
    ensures
        !after_drops(planned, members, base, size_only, selected, output_rows).0[p],
        after_drops(planned, members, base, size_only, selected, output_rows).1,
{
    lemma_unaccepted(planned, members, base, size_only, selected, output_rows, p);
    assert forall|q: int| #[trigger]
        unaccepted(planned, members, base, size_only, selected, output_rows, q) implies
        planned[q].1 < planned[p].1 || (planned[q].1 == planned[p].1 && p <= q) by {
        assert(members[q]);
        lemma_unaccepted(planned, members, base, size_only, selected, output_rows, q);
    }
    assert(leaves_next(planned, members, base, size_only, selected, output_rows, p));
    let c = choose|c: int|
        leaves_next(planned, members, base, size_only, selected, output_rows, c);
    assert(leaves_next(planned, members, base, size_only, selected, output_rows, c));
    assert(unaccepted(planned, members, base, size_only, selected, output_rows, c));
    assert(c == p);
    let m1 = members.update(p, false);
    let b1 = base.update(p, false);
    members_that_stay_earn_their_place(planned, m1, b1, size_only, selected, output_rows);
    let after = after_drops(planned, m1, b1, size_only, selected, output_rows).0;
    if after[p] {
        assert(b1[p]);
    }
}

/// What a compaction settles on has every volume that is still selected, and every volume that is
/// left of the base, unless the base stays out beside a single selected one; the selection is the
/// front of what was chosen.
pub proof fn settled_batch_has_its_members(
    planned: Seq<PlannedVolume>,
    size_only: Seq<bool>,
    ids: Seq<Seq<i64>>,
    selected: Seq<usize>,
    limit: nat,
    target: nat,
    i: int,
)
    requires
        size_only.len() == planned.len(),
        ids.len() == planned.len(),
        0 <= i < planned.len(),
    ensures
        ({
            let s = settled_volumes(planned, size_only, ids, selected, limit, target);
            &&& s.flags.len() == planned.len()
            &&& s.selected.contains(i as usize) ==> s.flags[i]
            &&& s.base[i] ==> s.flags[i] || s.selected.len() == 1
            &&& s.base[i] ==> planned[i].2
            &&& planned[i].2 && !s.base[i] ==> size_only[i]
            &&& selected.len() == 0 ==> s.selected.len() == 0
        }),
{
    let base = rewrite_flags(planned);
    let output_rows = chunk_rows(target) as int;
    let start = start_flags(base, selected, true);
    let first = after_drops(planned, start, base, size_only, selected, output_rows).0;
    members_that_stay_earn_their_place(planned, start, base, size_only, selected, output_rows);
    batch_is_settled(planned, ids, size_only, limit, output_rows, first, selected);
    let s = settle_batch(planned, ids, size_only, limit, output_rows, first, selected);
    let deferred = deferred_flags(planned);
    batch_is_closed(s.base, deferred, ids, limit, s.selected);
    let c = close_batch(s.base, deferred, ids, limit, s.selected, true, false);
    lemma_settled_selection(planned, ids, size_only, limit, output_rows, first, selected);
    assert(c.selected == s.selected);
    assert(base[i] == planned[i].2);
    if closed_properly(c, s.base, deferred, ids, limit, true) {
        assert(within(start_flags(s.base, c.selected, true), c.flags));
        assert(start_flags(s.base, c.selected, true)[i] == (s.base[i] || c.selected.contains(
            i as usize,
        )));
    } else {
        assert(within(start_flags(s.base, c.selected, false), c.flags));
        assert(start_flags(s.base, c.selected, false)[i] == c.selected.contains(i as usize));
    }
}

proof fn lemma_settled_selection(
    planned: Seq<PlannedVolume>,
    ids: Seq<Seq<i64>>,
    size_only: Seq<bool>,
    limit: nat,
    output_rows: int,
    base: Seq<bool>,
    selected: Seq<usize>,
)
    requires
        base.len() == planned.len(),
        size_only.len() == planned.len(),
        ids.len() == planned.len(),
    ensures
        settle_batch(planned, ids, size_only, limit, output_rows, base, selected).selected.len()
            <= selected.len(),
    decreases set_count(base),
{
    let c = close_batch(base, deferred_flags(planned), ids, limit, selected, true, false);
    let next = judged_base(planned, c.flags, base, size_only, c.selected, output_rows);
    batch_is_closed(base, deferred_flags(planned), ids, limit, selected);
    lemma_close_batch_len(base, deferred_flags(planned), ids, limit, selected, true, false);
    lemma_judged_base(planned, c.flags, base, size_only, c.selected, output_rows);
    if next != base {
        lemma_fewer_set(next, base);
        lemma_settled_selection(planned, ids, size_only, limit, output_rows, next, c.selected);
    }
}

} // verus!
