//! Closing a batch over the rows that its members share with the volumes between them.

use crate::batch::{
    PlannedVolume, after_drops, batch_within_proportion, chunk_rows, contains_position,
    deferred_flags, drop_unaccepted_size_members, in_proportion, largest_set, leaves_next,
    lemma_clear_flag, lemma_same_volumes_sums, lemma_set_count_bound, rewrite_flags, rewrites,
    same_volumes, set_count, totals, unaccepted,
};
use crate::row_set::{contains_row, insert_rows, new_row_set};
use rustc_hash::FxHashSet;
use vstd::prelude::*;

verus! {

/// The rows of each volume, as sequences.
pub open spec fn id_views(ids: Seq<&[i64]>) -> Seq<Seq<i64>> {
    ids.map_values(|v: &[i64]| v@)
}

/// The rows of the volumes whose flag is set.
pub open spec fn batch_rows(ids: Seq<Seq<i64>>, flags: Seq<bool>) -> Set<i64> {
    Set::new(
        |x: i64| exists|j: int| 0 <= j < flags.len() && #[trigger] flags[j] && ids[j].contains(x),
    )
}

/// Whether the volume at position `i` shares a row with one whose flag is set.
pub open spec fn touches(ids: Seq<Seq<i64>>, flags: Seq<bool>, i: int) -> bool {
    exists|x: i64| #[trigger] ids[i].contains(x) && batch_rows(ids, flags).contains(x)
}

/// Whether position `i` is at or between two positions whose flag is set.
pub open spec fn between(start: Seq<bool>, i: int) -> bool {
    &&& exists|a: int| 0 <= a <= i && a < start.len() && #[trigger] start[a]
    &&& exists|b: int| i <= b < start.len() && 0 <= b && #[trigger] start[b]
}

/// Whether every flag that is set in `a` is set in `b`.
pub open spec fn within(a: Seq<bool>, b: Seq<bool>) -> bool {
    &&& a.len() == b.len()
    &&& forall|i: int| 0 <= i < a.len() && #[trigger] a[i] ==> b[i]
}

/// Whether `flags` holds every volume between the members of `start` that shares a row with it,
/// those apart that are deferred.
pub open spec fn closed(
    flags: Seq<bool>,
    start: Seq<bool>,
    deferred: Seq<bool>,
    ids: Seq<Seq<i64>>,
) -> bool {
    forall|i: int|
        0 <= i < flags.len() && between(start, i) && !deferred[i] && #[trigger] touches(
            ids,
            flags,
            i,
        ) ==> flags[i]
}

/// Whether `flags` is the smallest closed set of members that holds `start`.
pub open spec fn is_closure(
    flags: Seq<bool>,
    start: Seq<bool>,
    deferred: Seq<bool>,
    ids: Seq<Seq<i64>>,
) -> bool {
    &&& within(start, flags)
    &&& closed(flags, start, deferred, ids)
    &&& forall|other: Seq<bool>| #[trigger]
        within(start, other) && closed(other, start, deferred, ids) ==> within(flags, other)
}

/// The smallest closed set of members that holds `start`.
pub open spec fn closure_of(start: Seq<bool>, deferred: Seq<bool>, ids: Seq<Seq<i64>>) -> Seq<
    bool,
> {
    choose|flags: Seq<bool>| is_closure(flags, start, deferred, ids)
}

/// Whether a deferred volume between the members of `start` shares a row with the batch.
pub open spec fn holds_back(
    flags: Seq<bool>,
    start: Seq<bool>,
    deferred: Seq<bool>,
    ids: Seq<Seq<i64>>,
) -> bool {
    exists|i: int|
        0 <= i < flags.len() && between(start, i) && deferred[i] && !flags[i] && #[trigger] touches(
            ids,
            flags,
            i,
        )
}

pub proof fn lemma_closure_unique(
    a: Seq<bool>,
    start: Seq<bool>,
    deferred: Seq<bool>,
    ids: Seq<Seq<i64>>,
)
    requires
        is_closure(a, start, deferred, ids),
    ensures
        closure_of(start, deferred, ids) == a,
        is_closure(closure_of(start, deferred, ids), start, deferred, ids),
{
    let b = closure_of(start, deferred, ids);
    assert(is_closure(b, start, deferred, ids));
    assert(within(a, b));
    assert(within(b, a));
    assert(a =~= b) by {
        assert forall|i: int| 0 <= i < a.len() implies a[i] == b[i] by {
            if a[i] {
                assert(b[i]);
            }
            if b[i] {
                assert(a[i]);
            }
        }
    }
}

proof fn lemma_touches_more(ids: Seq<Seq<i64>>, a: Seq<bool>, b: Seq<bool>, i: int)
    requires
        within(a, b),
        touches(ids, a, i),
    ensures
        touches(ids, b, i),
{
    let x = choose|x: i64| #[trigger] ids[i].contains(x) && batch_rows(ids, a).contains(x);
    let j = choose|j: int| 0 <= j < a.len() && #[trigger] a[j] && ids[j].contains(x);
    assert(b[j]);
    assert(batch_rows(ids, b).contains(x));
}

proof fn lemma_rows_with(ids: Seq<Seq<i64>>, flags: Seq<bool>, i: int)
    requires
        0 <= i < flags.len(),
    ensures
        batch_rows(ids, flags.update(i, true)) == batch_rows(ids, flags).union(ids[i].to_set()),
{
    let more = flags.update(i, true);
    assert forall|x: i64| batch_rows(ids, more).contains(x) <==> batch_rows(ids, flags).contains(x)
        || ids[i].contains(x) by {
        if batch_rows(ids, more).contains(x) {
            let j = choose|j: int| 0 <= j < more.len() && #[trigger] more[j] && ids[j].contains(x);
            if j != i {
                assert(flags[j]);
            }
        }
        if batch_rows(ids, flags).contains(x) {
            let j = choose|j: int|
                0 <= j < flags.len() && #[trigger] flags[j] && ids[j].contains(x);
            assert(more[j]);
        }
        if ids[i].contains(x) {
            assert(more[i]);
        }
    }
    assert(batch_rows(ids, more) =~= batch_rows(ids, flags).union(ids[i].to_set()));
}

fn shares_row(row_ids: &[i64], batch: &FxHashSet<i64>) -> (r: bool)
    ensures
        r == exists|x: i64| #[trigger] row_ids@.contains(x) && batch@.contains(x),
{
    let mut i: usize = 0;
    while i < row_ids.len()
        invariant
            i <= row_ids@.len(),
            forall|k: int| 0 <= k < i ==> !batch@.contains(#[trigger] row_ids@[k]),
        decreases row_ids@.len() - i,
    {
        if contains_row(batch, row_ids[i]) {
            assert(row_ids@.contains(row_ids@[i as int]));
            return true;
        }
        i = i + 1;
    }
    proof {
        if exists|x: i64| #[trigger] row_ids@.contains(x) && batch@.contains(x) {
            let x = choose|x: i64| #[trigger] row_ids@.contains(x) && batch@.contains(x);
            let k = row_ids@.index_of(x);
            assert(row_ids@[k] == x);
        }
    }
    false
}

fn first_flag(flags: &[bool]) -> (r: Option<usize>)
    ensures
        match r {
            Some(p) => p < flags@.len() && flags@[p as int] && forall|i: int|
                0 <= i < p ==> !#[trigger] flags@[i],
            None => forall|i: int| 0 <= i < flags@.len() ==> !#[trigger] flags@[i],
        },
{
    let mut i: usize = 0;
    while i < flags.len()
        invariant
            i <= flags@.len(),
            forall|k: int| 0 <= k < i ==> !#[trigger] flags@[k],
        decreases flags@.len() - i,
    {
        if flags[i] {
            return Some(i);
        }
        i = i + 1;
    }
    None
}

fn last_flag(flags: &[bool]) -> (r: Option<usize>)
    ensures
        match r {
            Some(p) => p < flags@.len() && flags@[p as int] && forall|i: int|
                p < i < flags@.len() ==> !#[trigger] flags@[i],
            None => forall|i: int| 0 <= i < flags@.len() ==> !#[trigger] flags@[i],
        },
{
    let mut i: usize = flags.len();
    while i > 0
        invariant
            i <= flags@.len(),
            forall|k: int| i <= k < flags@.len() ==> !#[trigger] flags@[k],
        decreases i,
    {
        if flags[i - 1] {
            return Some(i - 1);
        }
        i = i - 1;
    }
    None
}

fn members_rows(flags: &[bool], ids: &[&[i64]]) -> (batch: FxHashSet<i64>)
    requires
        flags@.len() == ids@.len(),
    ensures
        batch@ == batch_rows(id_views(ids@), flags@),
{
    let mut batch = new_row_set();
    let ghost views = id_views(ids@);
    let ghost none = Seq::new(flags@.len(), |k: int| false);
    let mut i: usize = 0;
    let ghost seen = none;
    proof {
        assert(batch@ =~= batch_rows(views, seen));
    }
    while i < flags.len()
        invariant
            i <= flags@.len(),
            flags@.len() == ids@.len(),
            views == id_views(ids@),
            seen.len() == flags@.len(),
            forall|k: int| 0 <= k < flags@.len() ==> #[trigger] seen[k] == (k < i && flags@[k]),
            batch@ == batch_rows(views, seen),
        decreases flags@.len() - i,
    {
        if flags[i] {
            insert_rows(&mut batch, ids[i]);
            proof {
                lemma_rows_with(views, seen, i as int);
                seen = seen.update(i as int, true);
            }
        }
        i = i + 1;
    }
    assert(seen =~= flags@);
    batch
}

/// The members of a batch that begins with `start`, closed over the rows they share with the volumes
/// between them, and whether a deferred volume holds the batch back.
fn close_over(start: &[bool], planned: &[PlannedVolume], ids: &[&[i64]]) -> (r: (Vec<bool>, bool))
    requires
        start@.len() == planned@.len(),
        ids@.len() == planned@.len(),
    ensures
        is_closure(r.0@, start@, deferred_flags(planned@), id_views(ids@)),
        r.1 == holds_back(r.0@, start@, deferred_flags(planned@), id_views(ids@)),
{
    let ghost views = id_views(ids@);
    let ghost deferred = deferred_flags(planned@);
    let mut flags: Vec<bool> = vstd::slice::slice_to_vec(start);
    let mut held: bool = false;
    let (first, last): (usize, usize) = match (first_flag(start), last_flag(start)) {
        (Some(first), Some(last)) => (first, last),
        _ => {
            proof {
                assert forall|i: int| !between(start@, i) by {
                    if between(start@, i) {
                        let a = choose|a: int|
                            0 <= a <= i && a < start@.len() && #[trigger] start@[a];
                        assert(start@[a]);
                    }
                }
            }
            return (flags, false);
        },
    };
    proof {
        assert forall|i: int| 0 <= i < start@.len() implies (#[trigger] between(start@, i) <==> first
            <= i <= last) by {
            if between(start@, i) {
                let a = choose|a: int| 0 <= a <= i && a < start@.len() && #[trigger] start@[a];
                let b = choose|b: int| i <= b < start@.len() && 0 <= b && #[trigger] start@[b];
                assert(start@[a] && start@[b]);
            }
            if first <= i <= last {
                assert(start@[first as int]);
                assert(start@[last as int]);
            }
        }
    }
    let mut batch = members_rows(flags.as_slice(), ids);
    let n: usize = planned.len();
    let mut grew: bool = true;
    while grew
        invariant
            flags@.len() == planned@.len(),
            start@.len() == planned@.len(),
            ids@.len() == planned@.len(),
            first <= last < planned@.len(),
            n == planned@.len(),
            views == id_views(ids@),
            deferred == deferred_flags(planned@),
            forall|i: int|
                0 <= i < start@.len() ==> (#[trigger] between(start@, i) <==> first <= i <= last),
            within(start@, flags@),
            batch@ == batch_rows(views, flags@),
            forall|other: Seq<bool>| #[trigger]
                within(start@, other) && closed(other, start@, deferred, views) ==> within(
                    flags@,
                    other,
                ),
            forall|i: int|
                0 <= i < flags@.len() && deferred[i] ==> #[trigger] flags@[i] == start@[i],
            held ==> holds_back(flags@, start@, deferred, views),
            !grew ==> forall|k: int|
                first <= k <= last && !flags@[k] && #[trigger] touches(views, flags@, k)
                    ==> deferred[k] && held,
        decreases flags@.len() - set_count(flags@), (if grew { 1int } else { 0 }),
    {
        grew = false;
        let ghost pass_start = flags@;
        proof {
            lemma_set_count_bound(flags@);
        }
        let mut i: usize = first;
        while i <= last
            invariant
                last < n,
                first <= i <= last + 1,
                last < planned@.len(),
                flags@.len() == planned@.len(),
                start@.len() == planned@.len(),
                ids@.len() == planned@.len(),
                pass_start.len() == flags@.len(),
                views == id_views(ids@),
                deferred == deferred_flags(planned@),
                forall|k: int|
                    0 <= k < start@.len() ==> (#[trigger] between(start@, k) <==> first <= k
                        <= last),
                within(start@, flags@),
                batch@ == batch_rows(views, flags@),
                forall|other: Seq<bool>| #[trigger]
                    within(start@, other) && closed(other, start@, deferred, views) ==> within(
                        flags@,
                        other,
                    ),
                forall|k: int|
                    0 <= k < flags@.len() && deferred[k] ==> #[trigger] flags@[k] == start@[k],
                held ==> holds_back(flags@, start@, deferred, views),
                grew ==> set_count(flags@) > set_count(pass_start),
                !grew ==> flags@ == pass_start && forall|k: int|
                    first <= k < i && !flags@[k] && #[trigger] touches(views, flags@, k)
                        ==> deferred[k] && held,
                set_count(flags@) <= flags@.len(),
            decreases last + 1 - i,
        {
            assert(views[i as int] == ids@[i as int]@);
            if !flags[i] && shares_row(ids[i], &batch) {
                assert(touches(views, flags@, i as int)) by {
                    let x = choose|x: i64| #[trigger]
                        ids@[i as int]@.contains(x) && batch@.contains(x);
                    assert(views[i as int].contains(x));
                }
                assert(between(start@, i as int));
                if planned[i].3 {
                    held = true;
                } else {
                    let ghost before = flags@;
                    proof {
                        lemma_rows_with(views, before, i as int);
                        let more = before.update(i as int, true);
                        assert forall|other: Seq<bool>| #[trigger]
                            within(start@, other) && closed(
                                other,
                                start@,
                                deferred,
                                views,
                            ) implies within(more, other) by {
                            assert(within(before, other));
                            lemma_touches_more(views, before, other, i as int);
                            assert(other[i as int]);
                            assert forall|k: int| 0 <= k < more.len() && #[trigger] more[k] implies other[k] by {
                                if k != i {
                                    assert(before[k]);
                                }
                            }
                        }
                        lemma_clear_flag(planned@, more, i as int);
                        assert(more.update(i as int, false) =~= before);
                        lemma_set_count_bound(more);
                        if held {
                            let h = choose|h: int|
                                0 <= h < before.len() && between(start@, h) && deferred[h]
                                    && !before[h] && #[trigger] touches(views, before, h);
                            lemma_touches_more(views, before, more, h);
                            assert(!more[h]);
                        }
                    }
                    flags.set(i, true);
                    assert(flags@ =~= before.update(i as int, true));
                    insert_rows(&mut batch, ids[i]);
                    grew = true;
                }
            } else {
                proof {
                    if !flags@[i as int] && touches(views, flags@, i as int) {
                        let x = choose|x: i64| #[trigger]
                            views[i as int].contains(x) && batch_rows(views, flags@).contains(x);
                        assert(ids@[i as int]@.contains(x) && batch@.contains(x));
                        assert(false);
                    }
                }
            }
            i = i + 1;
        }
    }
    proof {
        assert forall|i: int|
            0 <= i < flags@.len() && between(start@, i) && !deferred[i] && #[trigger] touches(
                views,
                flags@,
                i,
            ) implies flags@[i] by {
            if !flags@[i] {
                assert(first <= i <= last);
            }
        }
        if holds_back(flags@, start@, deferred, views) {
            let h = choose|h: int|
                0 <= h < flags@.len() && between(start@, h) && deferred[h] && !flags@[h]
                    && #[trigger] touches(views, flags@, h);
            assert(first <= h <= last);
            assert(held);
        }
    }
    (flags, held)
}

// ---------------------------------------------------------------------------
// The recluster's share
// ---------------------------------------------------------------------------

/// The members that the base, if it takes part, and the selection put in the batch.
pub open spec fn start_flags(base: Seq<bool>, selected: Seq<usize>, with_base: bool) -> Seq<bool> {
    Seq::new(base.len(), |i: int| (with_base && base[i]) || selected.contains(i as usize))
}

/// The number of members beyond the base.
pub open spec fn extra_count(flags: Seq<bool>, base: Seq<bool>) -> nat {
    set_count(Seq::new(flags.len(), |i: int| flags[i] && !base[i]))
}

/// A batch after it was closed: its members, what is left of the selection, whether a deferred
/// volume holds it back, and whether the selection lost a position.
pub struct ClosedBatch {
    pub flags: Seq<bool>,
    pub selected: Seq<usize>,
    pub held: bool,
    pub reduced: bool,
}

/// The batch closed within the limit. While its members beyond the base exceed the limit, the
/// selection loses its last position; a last selection that still exceeds it goes without the base.
pub open spec fn close_batch(
    base: Seq<bool>,
    deferred: Seq<bool>,
    ids: Seq<Seq<i64>>,
    limit: nat,
    selected: Seq<usize>,
    with_base: bool,
    reduced: bool,
) -> ClosedBatch
    decreases selected.len(), (if with_base { 1int } else { 0 }),
{
    let start = start_flags(base, selected, with_base);
    let flags = closure_of(start, deferred, ids);
    if extra_count(flags, base) <= limit || selected.len() == 0 || !with_base {
        ClosedBatch { flags, selected, held: holds_back(flags, start, deferred, ids), reduced }
    } else if selected.len() > 1 {
        close_batch(base, deferred, ids, limit, selected.drop_last(), with_base, true)
    } else {
        close_batch(base, deferred, ids, limit, selected, false, reduced)
    }
}

fn starting_members(base: &[bool], selected: &[usize], with_base: bool) -> (flags: Vec<bool>)
    ensures
        flags@ == start_flags(base@, selected@, with_base),
{
    let mut flags: Vec<bool> = Vec::new();
    let mut i: usize = 0;
    while i < base.len()
        invariant
            i <= base@.len(),
            flags@ == start_flags(base@, selected@, with_base).take(i as int),
        decreases base@.len() - i,
    {
        let member: bool = (with_base && base[i]) || contains_position(selected, i);
        flags.push(member);
        assert(flags@ =~= start_flags(base@, selected@, with_base).take(i + 1));
        i = i + 1;
    }
    assert(flags@ =~= start_flags(base@, selected@, with_base));
    flags
}

fn count_extra(flags: &[bool], base: &[bool]) -> (n: usize)
    requires
        flags@.len() == base@.len(),
    ensures
        n == extra_count(flags@, base@),
{
    let ghost beyond = Seq::new(flags@.len(), |i: int| flags@[i] && !base@[i]);
    let mut n: usize = 0;
    let mut i: usize = 0;
    while i < flags.len()
        invariant
            i <= flags@.len(),
            flags@.len() == base@.len(),
            beyond == Seq::new(flags@.len(), |i: int| flags@[i] && !base@[i]),
            n <= i,
            n == set_count(beyond.take(i as int)),
        decreases flags@.len() - i,
    {
        proof {
            assert(beyond.take(i + 1).drop_last() =~= beyond.take(i as int));
            assert(beyond.take(i + 1).last() == beyond[i as int]);
        }
        if flags[i] && !base[i] {
            n = n + 1;
        }
        i = i + 1;
    }
    assert(beyond.take(i as int) =~= beyond);
    n
}

fn set_rewrites(planned: &mut Vec<PlannedVolume>, flags: &[bool])
    requires
        flags@.len() == old(planned)@.len(),
    ensures
        same_volumes(old(planned)@, final(planned)@),
        rewrite_flags(final(planned)@) == flags@,
{
    let mut i: usize = 0;
    while i < flags.len()
        invariant
            i <= flags@.len(),
            flags@.len() == planned@.len(),
            same_volumes(old(planned)@, planned@),
            forall|k: int| 0 <= k < i ==> (#[trigger] planned@[k]).2 == flags@[k],
        decreases flags@.len() - i,
    {
        let (id, rows, _, deferred) = planned[i];
        planned.set(i, (id, rows, flags[i], deferred));
        i = i + 1;
    }
    assert(rewrite_flags(planned@) =~= flags@);
}

/// Closes a batch over the rows that its members share, and keeps what the recluster adds within
/// `limit`.
///
/// `base` says which volumes size or tombstones call for, and `selected` which positions the
/// recluster chose, in order; `ids` are the rows of each volume. On return the rewrite flag of every
/// member is set: of the base, of the selection, and of every volume between them that shares a row
/// with the batch. Returns whether a deferred volume shares a row with the batch, which holds the
/// table, and whether the selection was reduced.
pub fn close_batch_over_overlap(
    planned: &mut Vec<PlannedVolume>,
    base: &[bool],
    selected: &mut Vec<usize>,
    limit: usize,
    ids: &[&[i64]],
) -> (r: (bool, bool))
    requires
        base@.len() == old(planned)@.len(),
        ids@.len() == old(planned)@.len(),
    ensures
        same_volumes(old(planned)@, final(planned)@),
        ({
            let c = close_batch(
                base@,
                deferred_flags(old(planned)@),
                id_views(ids@),
                limit as nat,
                old(selected)@,
                true,
                false,
            );
            &&& rewrite_flags(final(planned)@) == c.flags
            &&& final(selected)@ == c.selected
            &&& r == (c.held, c.reduced)
        }),
{
    let mut reduced: bool = false;
    let mut with_base: bool = true;
    let ghost deferred = deferred_flags(planned@);
    let ghost views = id_views(ids@);
    let ghost goal = close_batch(
        base@,
        deferred,
        views,
        limit as nat,
        selected@,
        true,
        false,
    );
    loop
        invariant
            planned@ == old(planned)@,
            base@.len() == planned@.len(),
            ids@.len() == planned@.len(),
            deferred == deferred_flags(planned@),
            views == id_views(ids@),
            goal == close_batch(
                base@,
                deferred,
                views,
                limit as nat,
                selected@,
                with_base,
                reduced,
            ),
            goal == close_batch(
                base@,
                deferred_flags(old(planned)@),
                id_views(ids@),
                limit as nat,
                old(selected)@,
                true,
                false,
            ),
        decreases selected@.len(), (if with_base { 1int } else { 0 }),
    {
        let start = starting_members(base, selected.as_slice(), with_base);
        let (flags, held) = close_over(start.as_slice(), planned.as_slice(), ids);
        proof {
            lemma_closure_unique(flags@, start@, deferred, views);
        }
        let extra: usize = count_extra(flags.as_slice(), base);
        if extra <= limit || selected.len() == 0 || !with_base {
            set_rewrites(planned, flags.as_slice());
            return (held, reduced);
        }
        if selected.len() > 1 {
            selected.pop();
            reduced = true;
        } else {
            with_base = false;
        }
    }
}

// ---------------------------------------------------------------------------
// Settling the batch
// ---------------------------------------------------------------------------

/// A batch after it was settled: its members, what is left of the base and of the selection, and the
/// outcome of the last closure.
pub struct SettledBatch {
    pub flags: Seq<bool>,
    pub base: Seq<bool>,
    pub selected: Seq<usize>,
    pub held: bool,
    pub reduced: bool,
}

/// The base without the members that size alone put there.
pub open spec fn without_size_members(base: Seq<bool>, size_only: Seq<bool>) -> Seq<bool> {
    Seq::new(base.len(), |i: int| base[i] && !size_only[i])
}

/// Whether the largest member came in by the closure.
pub open spec fn largest_from_closure(
    planned: Seq<PlannedVolume>,
    flags: Seq<bool>,
    base: Seq<bool>,
    selected: Seq<usize>,
) -> bool {
    match largest_set(planned, flags) {
        Some(p) => !base[p] && !selected.contains(p as usize),
        None => false,
    }
}

/// The base after the closed batch was judged: without its size-only members, where the closure
/// brought in a largest member that is out of proportion; else without those that the batch does
/// not accept.
pub open spec fn judged_base(
    planned: Seq<PlannedVolume>,
    flags: Seq<bool>,
    base: Seq<bool>,
    size_only: Seq<bool>,
    selected: Seq<usize>,
    output_rows: int,
) -> Seq<bool> {
    let cleared = without_size_members(base, size_only);
    if largest_from_closure(planned, flags, base, selected) && !in_proportion(planned, flags)
        && cleared != base {
        cleared
    } else {
        after_drops(planned, flags, base, size_only, selected, output_rows).0
    }
}

/// The batch closed and judged again and again until nothing leaves.
pub open spec fn settle_batch(
    planned: Seq<PlannedVolume>,
    ids: Seq<Seq<i64>>,
    size_only: Seq<bool>,
    limit: nat,
    output_rows: int,
    base: Seq<bool>,
    selected: Seq<usize>,
) -> SettledBatch
    decreases set_count(base),
    when base.len() == planned.len() && size_only.len() == planned.len() && ids.len()
        == planned.len()
    via settle_batch_decreases
{
    let c = close_batch(base, deferred_flags(planned), ids, limit, selected, true, false);
    let next = judged_base(planned, c.flags, base, size_only, c.selected, output_rows);
    if next == base {
        SettledBatch {
            flags: c.flags,
            base,
            selected: c.selected,
            held: c.held,
            reduced: c.reduced,
        }
    } else {
        settle_batch(planned, ids, size_only, limit, output_rows, next, c.selected)
    }
}

#[via_fn]
proof fn settle_batch_decreases(
    planned: Seq<PlannedVolume>,
    ids: Seq<Seq<i64>>,
    size_only: Seq<bool>,
    limit: nat,
    output_rows: int,
    base: Seq<bool>,
    selected: Seq<usize>,
) {
    let c = close_batch(base, deferred_flags(planned), ids, limit, selected, true, false);
    let next = judged_base(planned, c.flags, base, size_only, c.selected, output_rows);
    lemma_close_batch_len(base, deferred_flags(planned), ids, limit, selected, true, false);
    lemma_judged_base(planned, c.flags, base, size_only, c.selected, output_rows);
    if next != base {
        lemma_fewer_set(next, base);
    }
}

pub proof fn lemma_fewer_set(a: Seq<bool>, b: Seq<bool>)
    requires
        within(a, b),
        a != b,
    ensures
        set_count(a) < set_count(b),
    decreases a.len(),
{
    if a.len() == 0 {
        assert(a =~= b);
    } else {
        let x = a.drop_last();
        let y = b.drop_last();
        assert(within(x, y)) by {
            assert forall|i: int| 0 <= i < x.len() && #[trigger] x[i] implies y[i] by {
                assert(a[i]);
            }
        }
        if x == y {
            assert(a =~= x.push(a.last()));
            assert(b =~= y.push(b.last()));
            if a.last() {
                assert(a[a.len() - 1]);
            }
        } else {
            lemma_fewer_set(x, y);
            if a.last() {
                assert(a[a.len() - 1]);
            }
        }
    }
}

pub proof fn lemma_after_drops(
    planned: Seq<PlannedVolume>,
    members: Seq<bool>,
    base: Seq<bool>,
    size_only: Seq<bool>,
    selected: Seq<usize>,
    output_rows: int,
)
    requires
        members.len() == base.len(),
    ensures
        ({
            let after = after_drops(planned, members, base, size_only, selected, output_rows);
            &&& within(after.0, base)
            &&& after.1 == (after.0 != base)
            &&& forall|i: int|
                0 <= i < base.len() && base[i] && !#[trigger] after.0[i] ==> size_only[i]
                    && members[i] && !selected.contains(i as usize)
        }),
    decreases set_count(members),
{
    if set_count(members) >= 2 && exists|p: int|
        leaves_next(planned, members, base, size_only, selected, output_rows, p) {
        let p = choose|p: int|
            leaves_next(planned, members, base, size_only, selected, output_rows, p);
        lemma_clear_flag(planned, members, p);
        let m = members.update(p, false);
        let b = base.update(p, false);
        lemma_after_drops(planned, m, b, size_only, selected, output_rows);
        let after = after_drops(planned, m, b, size_only, selected, output_rows);
        assert(within(after.0, base)) by {
            assert forall|i: int| 0 <= i < base.len() && #[trigger] after.0[i] implies base[i] by {
                assert(b[i]);
            }
        }
        assert(!after.0[p]) by {
            if after.0[p] {
                assert(b[p]);
            }
        }
        assert forall|i: int| 0 <= i < base.len() && base[i] && !#[trigger] after.0[i] implies
            size_only[i] && members[i] && !selected.contains(i as usize) by {
            if i != p {
                assert(b[i]);
            }
        }
    }
}

pub proof fn lemma_judged_base(
    planned: Seq<PlannedVolume>,
    flags: Seq<bool>,
    base: Seq<bool>,
    size_only: Seq<bool>,
    selected: Seq<usize>,
    output_rows: int,
)
    requires
        flags.len() == base.len(),
    ensures
        within(judged_base(planned, flags, base, size_only, selected, output_rows), base),
        forall|i: int|
            0 <= i < base.len() && base[i] && !#[trigger] judged_base(
                planned,
                flags,
                base,
                size_only,
                selected,
                output_rows,
            )[i] ==> size_only[i],
{
    lemma_after_drops(planned, flags, base, size_only, selected, output_rows);
}

/// A closure exists, and it has as many flags as there are volumes.
pub proof fn lemma_closure_exists(start: Seq<bool>, deferred: Seq<bool>, ids: Seq<Seq<i64>>)
    ensures
        is_closure(closure_of(start, deferred, ids), start, deferred, ids),
{
    let flags = Seq::new(
        start.len(),
        |i: int|
            forall|other: Seq<bool>| #[trigger]
                within(start, other) && closed(other, start, deferred, ids) ==> other[i],
    );
    assert(within(start, flags)) by {
        assert forall|i: int| 0 <= i < start.len() && #[trigger] start[i] implies flags[i] by {
            assert forall|other: Seq<bool>| #[trigger]
                within(start, other) && closed(other, start, deferred, ids) implies other[i] by {}
        }
    }
    assert forall|other: Seq<bool>| #[trigger]
        within(start, other) && closed(other, start, deferred, ids) implies within(flags, other) by {
        assert forall|i: int| 0 <= i < flags.len() && #[trigger] flags[i] implies other[i] by {}
    }
    assert(closed(flags, start, deferred, ids)) by {
        assert forall|i: int|
            0 <= i < flags.len() && between(start, i) && !deferred[i] && #[trigger] touches(
                ids,
                flags,
                i,
            ) implies flags[i] by {
            assert forall|other: Seq<bool>| #[trigger]
                within(start, other) && closed(other, start, deferred, ids) implies other[i] by {
                assert(within(flags, other));
                lemma_touches_more(ids, flags, other, i);
            }
        }
    }
    assert(is_closure(flags, start, deferred, ids));
}

pub proof fn lemma_close_batch_len(
    base: Seq<bool>,
    deferred: Seq<bool>,
    ids: Seq<Seq<i64>>,
    limit: nat,
    selected: Seq<usize>,
    with_base: bool,
    reduced: bool,
)
    ensures
        close_batch(base, deferred, ids, limit, selected, with_base, reduced).flags.len()
            == base.len(),
    decreases selected.len(), (if with_base { 1int } else { 0 }),
{
    let start = start_flags(base, selected, with_base);
    let flags = closure_of(start, deferred, ids);
    lemma_closure_exists(start, deferred, ids);
    if extra_count(flags, base) <= limit || selected.len() == 0 || !with_base {
    } else if selected.len() > 1 {
        lemma_close_batch_len(base, deferred, ids, limit, selected.drop_last(), with_base, true);
    } else {
        lemma_close_batch_len(base, deferred, ids, limit, selected, false, reduced);
    }
}

fn clear_size_members(base: &mut Vec<bool>, size_only: &[bool]) -> (changed: bool)
    requires
        old(base)@.len() == size_only@.len(),
    ensures
        final(base)@ == without_size_members(old(base)@, size_only@),
        changed == (final(base)@ != old(base)@),
{
    let mut changed: bool = false;
    let mut i: usize = 0;
    while i < size_only.len()
        invariant
            i <= size_only@.len(),
            base@.len() == size_only@.len(),
            base@.len() == old(base)@.len(),
            forall|k: int|
                0 <= k < base@.len() ==> #[trigger] base@[k] == if k < i {
                    old(base)@[k] && !size_only@[k]
                } else {
                    old(base)@[k]
                },
            changed == exists|k: int| 0 <= k < i && #[trigger] old(base)@[k] && size_only@[k],
        decreases size_only@.len() - i,
    {
        if size_only[i] && base[i] {
            assert(old(base)@[i as int]);
            base.set(i, false);
            changed = true;
        }
        i = i + 1;
    }
    proof {
        assert(base@ =~= without_size_members(old(base)@, size_only@));
        if changed {
            let k = choose|k: int| 0 <= k < i && #[trigger] old(base)@[k] && size_only@[k];
            assert(!base@[k]);
        } else {
            assert(base@ =~= old(base)@) by {
                assert forall|k: int| 0 <= k < base@.len() implies base@[k] == old(base)@[k] by {
                    if old(base)@[k] && size_only@[k] {
                        assert(changed);
                    }
                }
            }
        }
    }
    changed
}

/// Settles which volumes a compaction rewrites: the members that size alone put in the base leave
/// while the batch does not accept them, the batch is closed over the rows that its members share,
/// and the size-only members are judged again on the closed batch, until nothing changes. A volume
/// that the closure brought in stays. Returns the outcome of the last closure.
pub fn accept_batch(
    planned: &mut Vec<PlannedVolume>,
    base: &mut Vec<bool>,
    size_only: &[bool],
    selected: &mut Vec<usize>,
    limit: usize,
    target_volume_rows: usize,
    ids: &[&[i64]],
) -> (r: (bool, bool))
    requires
        old(base)@.len() == old(planned)@.len(),
        size_only@.len() == old(planned)@.len(),
        ids@.len() == old(planned)@.len(),
    ensures
        same_volumes(old(planned)@, final(planned)@),
        ({
            let output_rows = chunk_rows(target_volume_rows as nat) as int;
            let first = after_drops(
                old(planned)@,
                start_flags(old(base)@, old(selected)@, true),
                old(base)@,
                size_only@,
                old(selected)@,
                output_rows,
            ).0;
            let s = settle_batch(
                old(planned)@,
                id_views(ids@),
                size_only@,
                limit as nat,
                output_rows,
                first,
                old(selected)@,
            );
            &&& rewrite_flags(final(planned)@) == s.flags
            &&& final(base)@ == s.base
            &&& final(selected)@ == s.selected
            &&& r == (s.held, s.reduced)
        }),
{
    let ghost volumes = planned@;
    let ghost views = id_views(ids@);
    let ghost output_rows = chunk_rows(target_volume_rows as nat) as int;
    let members = starting_members(base.as_slice(), selected.as_slice(), true);
    drop_unaccepted_size_members(
        planned.as_slice(),
        members.as_slice(),
        base,
        size_only,
        selected.as_slice(),
        target_volume_rows,
    );
    let ghost goal = settle_batch(
        volumes,
        views,
        size_only@,
        limit as nat,
        output_rows,
        base@,
        selected@,
    );
    let ghost first = base@;
    loop
        invariant
            first == after_drops(
                old(planned)@,
                start_flags(old(base)@, old(selected)@, true),
                old(base)@,
                size_only@,
                old(selected)@,
                output_rows,
            ).0,
            goal == settle_batch(
                volumes,
                views,
                size_only@,
                limit as nat,
                output_rows,
                first,
                old(selected)@,
            ),
            volumes == old(planned)@,
            views == id_views(ids@),
            output_rows == chunk_rows(target_volume_rows as nat) as int,
            same_volumes(volumes, planned@),
            base@.len() == planned@.len(),
            size_only@.len() == planned@.len(),
            ids@.len() == planned@.len(),
            goal == settle_batch(
                volumes,
                views,
                size_only@,
                limit as nat,
                output_rows,
                base@,
                selected@,
            ),
        decreases set_count(base@),
    {
        let ghost base_before = base@;
        let ghost selected_before = selected@;
        let ghost c = close_batch(
            base@,
            deferred_flags(volumes),
            views,
            limit as nat,
            selected@,
            true,
            false,
        );
        proof {
            lemma_close_batch_len(
                base@,
                deferred_flags(volumes),
                views,
                limit as nat,
                selected@,
                true,
                false,
            );
            assert(deferred_flags(planned@) =~= deferred_flags(volumes));
        }
        let outcome = close_batch_over_overlap(planned, base.as_slice(), selected, limit, ids);
        let flags = rewrites(planned.as_slice());
        proof {
            assert(flags@ == c.flags);
            assert(same_volumes(volumes, planned@));
            lemma_same_volumes_sums(volumes, planned@, flags@);
            lemma_same_drops(volumes, planned@, flags@, base@, size_only@, selected@, output_rows);
            lemma_judged_base(volumes, flags@, base@, size_only@, selected@, output_rows);
        }
        let t = totals(planned.as_slice(), flags.as_slice());
        let from_closure: bool = match t.largest {
            Some(p) => !base[p] && !contains_position(selected.as_slice(), p),
            None => false,
        };
        let mut changed: bool = false;
        if from_closure && !batch_within_proportion(planned.as_slice()) {
            changed = clear_size_members(base, size_only);
        }
        if !changed {
            changed = drop_unaccepted_size_members(
                planned.as_slice(),
                flags.as_slice(),
                base,
                size_only,
                selected.as_slice(),
                target_volume_rows,
            );
            proof {
                lemma_after_drops(
                    planned@,
                    flags@,
                    base_before,
                    size_only@,
                    selected@,
                    output_rows,
                );
            }
        }
        assert(base@ == judged_base(
            volumes,
            c.flags,
            base_before,
            size_only@,
            c.selected,
            output_rows,
        ));
        if !changed {
            return outcome;
        }
        proof {
            lemma_fewer_set(base@, base_before);
        }
    }
}

proof fn lemma_same_drops(
    a: Seq<PlannedVolume>,
    b: Seq<PlannedVolume>,
    members: Seq<bool>,
    base: Seq<bool>,
    size_only: Seq<bool>,
    selected: Seq<usize>,
    output_rows: int,
)
    requires
        same_volumes(a, b),
        members.len() == base.len(),
        members.len() == a.len(),
    ensures
        after_drops(a, members, base, size_only, selected, output_rows) == after_drops(
            b,
            members,
            base,
            size_only,
            selected,
            output_rows,
        ),
    decreases set_count(members),
{
    lemma_same_volumes_sums(a, b, members);
    assert forall|p: int|
        #![trigger unaccepted(a, members, base, size_only, selected, output_rows, p)]
        #![trigger unaccepted(b, members, base, size_only, selected, output_rows, p)]
        unaccepted(a, members, base, size_only, selected, output_rows, p) == unaccepted(
            b,
            members,
            base,
            size_only,
            selected,
            output_rows,
            p,
        ) by {
        if 0 <= p < members.len() {
            assert(a[p].1 == b[p].1);
        }
    }
    assert forall|p: int|
        leaves_next(a, members, base, size_only, selected, output_rows, p) == #[trigger] leaves_next(
            b,
            members,
            base,
            size_only,
            selected,
            output_rows,
            p,
        ) by {
        if unaccepted(a, members, base, size_only, selected, output_rows, p) {
            assert(a[p].1 == b[p].1);
            assert forall|q: int|
                unaccepted(a, members, base, size_only, selected, output_rows, q) implies a[q].1
                == b[q].1 by {}
        }
    }
    if set_count(members) >= 2 && exists|p: int|
        leaves_next(a, members, base, size_only, selected, output_rows, p) {
        let p = choose|p: int|
            leaves_next(a, members, base, size_only, selected, output_rows, p);
        assert(leaves_next(b, members, base, size_only, selected, output_rows, p));
        let q = choose|q: int|
            leaves_next(b, members, base, size_only, selected, output_rows, q);
        assert(leaves_next(a, members, base, size_only, selected, output_rows, q));
        assert(p == q);
        lemma_clear_flag(a, members, p);
        lemma_same_drops(
            a,
            b,
            members.update(p, false),
            base.update(p, false),
            size_only,
            selected,
            output_rows,
        );
    }
}

} // verus!
