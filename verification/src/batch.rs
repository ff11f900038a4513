//! Which volumes a compaction rewrites together.
//!
//! A table's volumes stand in the order of their precedence. A batch of them is rewritten as one run
//! in the place of its first member, so a volume between two members that shares a row with the
//! batch has to join it.

use vstd::prelude::*;

verus! {

/// A volume in the plan: its identity, its rows, whether it is rewritten, and whether a snapshot
/// defers it.
pub type PlannedVolume = (u64, usize, bool, bool);

/// The largest input of a batch holds at most this many times the rows of the others together.
pub const REWRITE_ACCEPTANCE_RATIO: usize = 4;

/// The rows of a row group.
pub const ROW_GROUP_ROWS: usize = 65_536;

// ---------------------------------------------------------------------------
// Sums over the members of a batch
// ---------------------------------------------------------------------------

/// The number of flags that are set.
pub open spec fn set_count(flags: Seq<bool>) -> nat
    decreases flags.len(),
{
    if flags.len() == 0 {
        0
    } else {
        set_count(flags.drop_last()) + if flags.last() {
            1nat
        } else {
            0
        }
    }
}

/// The rows of the volumes whose flag is set.
pub open spec fn set_rows(planned: Seq<PlannedVolume>, flags: Seq<bool>) -> nat
    decreases flags.len(),
{
    if flags.len() == 0 {
        0
    } else {
        set_rows(planned, flags.drop_last()) + if flags.last() {
            planned[flags.len() - 1].1 as nat
        } else {
            0
        }
    }
}

/// The position of the largest volume whose flag is set; the last one of several.
pub open spec fn largest_set(planned: Seq<PlannedVolume>, flags: Seq<bool>) -> Option<int>
    decreases flags.len(),
{
    if flags.len() == 0 {
        None
    } else {
        let before = largest_set(planned, flags.drop_last());
        let here = flags.len() - 1;
        if !flags.last() {
            before
        } else {
            match before {
                None => Some(here),
                Some(p) => if planned[here].1 >= planned[p].1 {
                    Some(here)
                } else {
                    before
                },
            }
        }
    }
}

/// The rewrite flags of a plan.
pub open spec fn rewrite_flags(planned: Seq<PlannedVolume>) -> Seq<bool> {
    planned.map_values(|v: PlannedVolume| v.2)
}

/// The flags of the volumes that a snapshot defers.
pub open spec fn deferred_flags(planned: Seq<PlannedVolume>) -> Seq<bool> {
    planned.map_values(|v: PlannedVolume| v.3)
}

/// Whether two plans have the same volumes, apart from which are rewritten.
pub open spec fn same_volumes(a: Seq<PlannedVolume>, b: Seq<PlannedVolume>) -> bool {
    &&& a.len() == b.len()
    &&& forall|i: int|
        0 <= i < a.len() ==> (#[trigger] a[i]).0 == b[i].0 && a[i].1 == b[i].1 && a[i].3 == b[i].3
}

pub proof fn lemma_same_volumes_sums(a: Seq<PlannedVolume>, b: Seq<PlannedVolume>, flags: Seq<bool>)
    requires
        same_volumes(a, b),
        flags.len() <= a.len(),
    ensures
        set_rows(a, flags) == set_rows(b, flags),
        largest_set(a, flags) == largest_set(b, flags),
    decreases flags.len(),
{
    if flags.len() > 0 {
        lemma_same_volumes_sums(a, b, flags.drop_last());
        lemma_largest_set(a, flags.drop_last());
        let here = flags.len() - 1;
        assert(a[here].1 == b[here].1);
        match largest_set(a, flags.drop_last()) {
            Some(p) => {
                assert(a[p].1 == b[p].1);
            },
            None => {},
        }
    }
}

/// The largest volume whose flag is set has its flag set, and none with a set flag has more rows.
pub proof fn lemma_largest_set(planned: Seq<PlannedVolume>, flags: Seq<bool>)
    ensures
        match largest_set(planned, flags) {
            Some(p) => {
                &&& 0 <= p < flags.len()
                &&& flags[p]
                &&& forall|i: int|
                    0 <= i < flags.len() && #[trigger] flags[i] ==> planned[i].1 <= planned[p].1
            },
            None => forall|i: int| 0 <= i < flags.len() ==> !#[trigger] flags[i],
        },
    decreases flags.len(),
{
    if flags.len() > 0 {
        let shorter = flags.drop_last();
        lemma_largest_set(planned, shorter);
        assert forall|i: int| 0 <= i < flags.len() - 1 implies #[trigger] flags[i] == shorter[i] by {}
    }
}

proof fn lemma_largest_rows(planned: Seq<PlannedVolume>, flags: Seq<bool>)
    ensures
        match largest_set(planned, flags) {
            Some(p) => planned[p].1 <= set_rows(planned, flags),
            None => set_rows(planned, flags) == 0,
        },
    decreases flags.len(),
{
    if flags.len() > 0 {
        lemma_largest_rows(planned, flags.drop_last());
    }
}

pub proof fn lemma_clear_flag(planned: Seq<PlannedVolume>, flags: Seq<bool>, p: int)
    requires
        0 <= p < flags.len(),
        flags[p],
    ensures
        set_count(flags.update(p, false)) == set_count(flags) - 1,
        set_rows(planned, flags.update(p, false)) == set_rows(planned, flags) - planned[p].1,
    decreases flags.len(),
{
    let cleared = flags.update(p, false);
    if p == flags.len() - 1 {
        assert(cleared.drop_last() =~= flags.drop_last());
    } else {
        lemma_clear_flag(planned, flags.drop_last(), p);
        assert(cleared.drop_last() =~= flags.drop_last().update(p, false));
    }
}

pub proof fn lemma_set_count_bound(flags: Seq<bool>)
    ensures
        set_count(flags) <= flags.len(),
    decreases flags.len(),
{
    if flags.len() > 0 {
        lemma_set_count_bound(flags.drop_last());
    }
}

proof fn lemma_flag_rows(planned: Seq<PlannedVolume>, flags: Seq<bool>, p: int)
    requires
        0 <= p < flags.len(),
        flags[p],
    ensures
        planned[p].1 <= set_rows(planned, flags),
        set_count(flags) >= 1,
    decreases flags.len(),
{
    if p < flags.len() - 1 {
        lemma_flag_rows(planned, flags.drop_last(), p);
    }
}

/// What a pass over the members of a batch gives.
pub struct Totals {
    pub count: usize,
    pub rows: u128,
    pub largest: Option<usize>,
}

/// The number of members of a batch, their rows, and the position of the largest.
pub fn totals(planned: &[PlannedVolume], flags: &[bool]) -> (t: Totals)
    requires
        flags@.len() == planned@.len(),
    ensures
        t.count == set_count(flags@),
        t.rows == set_rows(planned@, flags@),
        match t.largest {
            Some(p) => largest_set(planned@, flags@) == Some(p as int) && p < planned@.len()
                && flags@[p as int],
            None => largest_set(planned@, flags@) is None,
        },
{
    let mut count: usize = 0;
    let mut rows: u128 = 0;
    let mut largest: Option<usize> = None;
    let mut i: usize = 0;
    while i < planned.len()
        invariant
            i <= planned@.len(),
            flags@.len() == planned@.len(),
            count <= i,
            count == set_count(flags@.take(i as int)),
            rows == set_rows(planned@, flags@.take(i as int)),
            match largest {
                Some(p) => largest_set(planned@, flags@.take(i as int)) == Some(p as int) && p < i
                    && flags@[p as int],
                None => largest_set(planned@, flags@.take(i as int)) is None,
            },
        decreases planned@.len() - i,
    {
        proof {
            let longer = flags@.take(i + 1);
            assert(longer.drop_last() =~= flags@.take(i as int));
            assert(longer.last() == flags@[i as int]);
            lemma_rows_bound(planned@, longer);
        }
        if flags[i] {
            count = count + 1;
            rows = rows + planned[i].1 as u128;
            largest = match largest {
                None => Some(i),
                Some(p) => if planned[i].1 >= planned[p].1 {
                    Some(i)
                } else {
                    Some(p)
                },
            };
        }
        i = i + 1;
    }
    assert(flags@.take(i as int) =~= flags@);
    Totals { count, rows, largest }
}

/// The rows of as many volumes as there can be fit in a number of twice the width.
proof fn lemma_rows_bound(planned: Seq<PlannedVolume>, flags: Seq<bool>)
    requires
        flags.len() <= usize::MAX,
    ensures
        set_rows(planned, flags) <= flags.len() * usize::MAX,
        set_rows(planned, flags) <= u128::MAX,
    decreases flags.len(),
{
    let n = flags.len();
    let m = usize::MAX as nat;
    if n > 0 {
        lemma_rows_bound(planned, flags.drop_last());
        assert((n - 1) * m + m == n * m) by (nonlinear_arith)
            requires
                n > 0,
        ;
    }
    assert(n * m <= 0xffff_ffff_ffff_ffff * 0xffff_ffff_ffff_ffff) by (nonlinear_arith)
        requires
            n <= m,
            m <= 0xffff_ffff_ffff_ffff,
    ;
}

// ---------------------------------------------------------------------------
// Proportion
// ---------------------------------------------------------------------------

/// Whether the largest of the volumes whose flag is set is within the ratio of the others; fewer
/// than two always are.
pub open spec fn in_proportion(planned: Seq<PlannedVolume>, flags: Seq<bool>) -> bool {
    set_count(flags) < 2 || match largest_set(planned, flags) {
        Some(p) => planned[p].1 <= REWRITE_ACCEPTANCE_RATIO * (set_rows(planned, flags)
            - planned[p].1),
        None => true,
    }
}

/// Whether the largest volume of the batch is within the acceptance ratio of the rest; a batch of
/// fewer than two is.
pub fn batch_within_proportion(planned: &[PlannedVolume]) -> (r: bool)
    ensures
        r == in_proportion(planned@, rewrite_flags(planned@)),
{
    let flags = rewrites(planned);
    let t = totals(planned, flags.as_slice());
    proof {
        lemma_largest_rows(planned@, flags@);
    }
    if t.count < 2 {
        return true;
    }
    match t.largest {
        Some(p) => within_ratio(planned[p].1, t.rows - planned[p].1 as u128),
        None => true,
    }
}

/// Whether a volume of `rows` rows is within the acceptance ratio of `others`.
fn within_ratio(rows: usize, others: u128) -> (r: bool)
    ensures
        r == (rows <= REWRITE_ACCEPTANCE_RATIO * others),
{
    let ratio: u128 = REWRITE_ACCEPTANCE_RATIO as u128;
    (rows as u128 + (ratio - 1)) / ratio <= others
}

/// The rewrite flags of a plan.
pub fn rewrites(planned: &[PlannedVolume]) -> (flags: Vec<bool>)
    ensures
        flags@ == rewrite_flags(planned@),
{
    let mut flags: Vec<bool> = Vec::new();
    let mut i: usize = 0;
    while i < planned.len()
        invariant
            i <= planned@.len(),
            flags@ == rewrite_flags(planned@).take(i as int),
        decreases planned@.len() - i,
    {
        flags.push(planned[i].2);
        assert(flags@ =~= rewrite_flags(planned@).take(i + 1));
        i = i + 1;
    }
    assert(flags@ =~= rewrite_flags(planned@));
    flags
}

/// The rows that an output of a compaction holds: the target rounded down to whole row groups, at
/// least one.
pub open spec fn chunk_rows(target: nat) -> nat {
    if target < ROW_GROUP_ROWS {
        ROW_GROUP_ROWS as nat
    } else {
        (target / ROW_GROUP_ROWS as nat) * ROW_GROUP_ROWS as nat
    }
}

/// The rows that an output of a compaction holds.
pub fn compaction_chunk_rows(target_volume_rows: usize) -> (rows: usize)
    ensures
        rows == chunk_rows(target_volume_rows as nat),
        rows >= ROW_GROUP_ROWS,
        rows % ROW_GROUP_ROWS == 0,
        target_volume_rows >= ROW_GROUP_ROWS ==> rows <= target_volume_rows < rows + ROW_GROUP_ROWS,
{
    let groups: usize = target_volume_rows / ROW_GROUP_ROWS;
    if groups == 0 {
        ROW_GROUP_ROWS
    } else {
        groups * ROW_GROUP_ROWS
    }
}

// ---------------------------------------------------------------------------
// Members that size alone put in the batch
// ---------------------------------------------------------------------------

/// The number of outputs that `rows` rows come out as.
pub open spec fn output_count(rows: int, output_rows: int) -> int {
    rows / output_rows + if rows % output_rows == 0 {
        0int
    } else {
        1
    }
}

/// By how many volumes a rewrite of `members` volumes with `rows` rows brings down their number.
pub open spec fn reduction(members: int, rows: int, output_rows: int) -> int {
    members - output_count(rows, output_rows)
}

/// Whether the batch does not accept its member `p`, which size alone put there: it is the largest
/// and out of proportion with the rest, or the batch removes no fewer volumes without it.
pub open spec fn unaccepted(
    planned: Seq<PlannedVolume>,
    members: Seq<bool>,
    base: Seq<bool>,
    size_only: Seq<bool>,
    selected: Seq<usize>,
    output_rows: int,
    p: int,
) -> bool {
    let rows = planned[p].1 as int;
    let total = set_rows(planned, members) as int;
    let count = set_count(members) as int;
    &&& 0 <= p < members.len()
    &&& members[p]
    &&& size_only[p]
    &&& base[p]
    &&& !selected.contains(p as usize)
    &&& {
        ||| largest_set(planned, members) == Some(p) && rows > REWRITE_ACCEPTANCE_RATIO * (total
            - rows)
        ||| reduction(count - 1, total - rows, output_rows) >= reduction(count, total, output_rows)
    }
}

/// Whether `p` is the member that leaves next: the largest that the batch does not accept, and the
/// first of several.
pub open spec fn leaves_next(
    planned: Seq<PlannedVolume>,
    members: Seq<bool>,
    base: Seq<bool>,
    size_only: Seq<bool>,
    selected: Seq<usize>,
    output_rows: int,
    p: int,
) -> bool {
    &&& unaccepted(planned, members, base, size_only, selected, output_rows, p)
    &&& forall|q: int| #[trigger]
        unaccepted(planned, members, base, size_only, selected, output_rows, q) ==> planned[q].1
            < planned[p].1 || (planned[q].1 == planned[p].1 && p <= q)
}

/// The base after every member that the batch does not accept has left, one after the other, and
/// whether one has.
pub open spec fn after_drops(
    planned: Seq<PlannedVolume>,
    members: Seq<bool>,
    base: Seq<bool>,
    size_only: Seq<bool>,
    selected: Seq<usize>,
    output_rows: int,
) -> (Seq<bool>, bool)
    decreases set_count(members),
    when members.len() == base.len()
    via after_drops_decreases
{
    if set_count(members) < 2 {
        (base, false)
    } else if exists|p: int|
        leaves_next(planned, members, base, size_only, selected, output_rows, p) {
        let p = choose|p: int|
            leaves_next(planned, members, base, size_only, selected, output_rows, p);
        let after = after_drops(
            planned,
            members.update(p, false),
            base.update(p, false),
            size_only,
            selected,
            output_rows,
        );
        (after.0, true)
    } else {
        (base, false)
    }
}

#[via_fn]
proof fn after_drops_decreases(
    planned: Seq<PlannedVolume>,
    members: Seq<bool>,
    base: Seq<bool>,
    size_only: Seq<bool>,
    selected: Seq<usize>,
    output_rows: int,
) {
    if exists|p: int| leaves_next(planned, members, base, size_only, selected, output_rows, p) {
        let p = choose|p: int|
            leaves_next(planned, members, base, size_only, selected, output_rows, p);
        lemma_clear_flag(planned, members, p);
    }
}

/// Whether `p` is among `selected`.
pub fn contains_position(selected: &[usize], p: usize) -> (r: bool)
    ensures
        r == selected@.contains(p),
{
    let mut i: usize = 0;
    while i < selected.len()
        invariant
            i <= selected@.len(),
            forall|k: int| 0 <= k < i ==> selected@[k] != p,
        decreases selected@.len() - i,
    {
        if selected[i] == p {
            assert(selected@[i as int] == p);
            return true;
        }
        i = i + 1;
    }
    false
}

fn outputs_for(rows: u128, output_rows: usize) -> (n: u128)
    requires
        output_rows >= 2,
    ensures
        n == output_count(rows as int, output_rows as int),
{
    let size: u128 = output_rows as u128;
    let whole: u128 = rows / size;
    assert(whole <= rows / 2) by (nonlinear_arith)
        requires
            whole == rows / size,
            size >= 2,
    ;
    if rows % size == 0 {
        whole
    } else {
        whole + 1
    }
}

fn find_leaving(
    planned: &[PlannedVolume],
    members: &[bool],
    base: &[bool],
    size_only: &[bool],
    selected: &[usize],
    output_rows: usize,
) -> (r: Option<usize>)
    requires
        members@.len() == planned@.len(),
        base@.len() == planned@.len(),
        size_only@.len() == planned@.len(),
        output_rows >= 2,
        set_count(members@) >= 2,
    ensures
        match r {
            Some(p) => leaves_next(
                planned@,
                members@,
                base@,
                size_only@,
                selected@,
                output_rows as int,
                p as int,
            ),
            None => forall|p: int| !#[trigger]
                unaccepted(
                    planned@,
                    members@,
                    base@,
                    size_only@,
                    selected@,
                    output_rows as int,
                    p,
                ),
        },
{
    let t = totals(planned, members);
    let with_all: u128 = outputs_for(t.rows, output_rows);
    let mut best: Option<usize> = None;
    let mut i: usize = 0;
    while i < planned.len()
        invariant
            i <= planned@.len(),
            members@.len() == planned@.len(),
            base@.len() == planned@.len(),
            size_only@.len() == planned@.len(),
            output_rows >= 2,
            t.count == set_count(members@),
            t.rows == set_rows(planned@, members@),
            match t.largest {
                Some(p) => largest_set(planned@, members@) == Some(p as int),
                None => largest_set(planned@, members@) is None,
            },
            with_all == output_count(t.rows as int, output_rows as int),
            match best {
                Some(p) => {
                    &&& p < i
                    &&& unaccepted(
                        planned@,
                        members@,
                        base@,
                        size_only@,
                        selected@,
                        output_rows as int,
                        p as int,
                    )
                    &&& forall|q: int|
                        q < i && #[trigger] unaccepted(
                            planned@,
                            members@,
                            base@,
                            size_only@,
                            selected@,
                            output_rows as int,
                            q,
                        ) ==> planned@[q].1 < planned@[p as int].1 || (planned@[q].1
                            == planned@[p as int].1 && p <= q)
                },
                None => forall|q: int|
                    q < i ==> !#[trigger] unaccepted(
                        planned@,
                        members@,
                        base@,
                        size_only@,
                        selected@,
                        output_rows as int,
                        q,
                    ),
            },
        decreases planned@.len() - i,
    {
        if members[i] && size_only[i] && base[i] && !contains_position(selected, i) {
            proof {
                lemma_flag_rows(planned@, members@, i as int);
            }
            let rows: usize = planned[i].1;
            let is_largest: bool = match t.largest {
                Some(p) => p == i,
                None => false,
            };
            let others: u128 = t.rows - rows as u128;
            let breaks_ratio: bool = is_largest && !within_ratio(rows, others);
            let without: u128 = outputs_for(others, output_rows);
            let leaves: bool = breaks_ratio || without < with_all;
            assert(leaves == unaccepted(
                planned@,
                members@,
                base@,
                size_only@,
                selected@,
                output_rows as int,
                i as int,
            ));
            if leaves {
                best = match best {
                    None => Some(i),
                    Some(p) => if rows > planned[p].1 {
                        Some(i)
                    } else {
                        Some(p)
                    },
                };
            }
        }
        i = i + 1;
    }
    best
}

/// Takes out of the base the members that size alone put there and that the batch does not accept,
/// one after the other, the largest first. `members` says which volumes the batch holds. Returns
/// whether a member left.
pub fn drop_unaccepted_size_members(
    planned: &[PlannedVolume],
    members: &[bool],
    base: &mut Vec<bool>,
    size_only: &[bool],
    selected: &[usize],
    target_volume_rows: usize,
) -> (dropped: bool)
    requires
        members@.len() == planned@.len(),
        old(base)@.len() == planned@.len(),
        size_only@.len() == planned@.len(),
    ensures
        (final(base)@, dropped) == after_drops(
            planned@,
            members@,
            old(base)@,
            size_only@,
            selected@,
            chunk_rows(target_volume_rows as nat) as int,
        ),
        final(base)@.len() == old(base)@.len(),
{
    let output_rows: usize = compaction_chunk_rows(target_volume_rows);
    let mut current: Vec<bool> = vstd::slice::slice_to_vec(members);
    let mut dropped: bool = false;
    let ghost goal = after_drops(
        planned@,
        members@,
        base@,
        size_only@,
        selected@,
        output_rows as int,
    );
    loop
        invariant
            current@.len() == planned@.len(),
            base@.len() == planned@.len(),
            size_only@.len() == planned@.len(),
            output_rows >= 2,
            goal == ({
                let rest = after_drops(
                    planned@,
                    current@,
                    base@,
                    size_only@,
                    selected@,
                    output_rows as int,
                );
                (rest.0, dropped || rest.1)
            }),
        ensures
            goal == (base@, dropped),
            base@.len() == planned@.len(),
        decreases set_count(current@),
    {
        let t = totals(planned, current.as_slice());
        if t.count < 2 {
            break ;
        }
        match find_leaving(
            planned,
            current.as_slice(),
            base.as_slice(),
            size_only,
            selected,
            output_rows,
        ) {
            None => {
                break ;
            },
            Some(p) => {
                proof {
                    let chosen = choose|q: int|
                        leaves_next(
                            planned@,
                            current@,
                            base@,
                            size_only@,
                            selected@,
                            output_rows as int,
                            q,
                        );
                    assert(leaves_next(
                        planned@,
                        current@,
                        base@,
                        size_only@,
                        selected@,
                        output_rows as int,
                        p as int,
                    ));
                    assert(chosen == p);
                    lemma_clear_flag(planned@, current@, p as int);
                }
                base.set(p, false);
                current.set(p, false);
                dropped = true;
            },
        }
    }
    dropped
}

} // verus!
