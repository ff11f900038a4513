//! The order of a clustered table's rows: by its clustering key, and by row where the keys are equal.
//!
//! How two values of a key column stand to each other is a matter of the column's type. Here each
//! value has a rank among those of its column: equal values have equal ranks, and a lesser value has
//! a lesser one.

use crate::live_rows::RowPlace;
use crate::seal::HotRow;
use vstd::prelude::*;
use vstd::relations::*;

verus! {

/// How one value stands to another.
#[derive(Debug, Clone, Copy, PartialEq, Eq, Structural)]
pub enum KeyOrder {
    Less,
    Equal,
    Greater,
}

// ---------------------------------------------------------------------------
// The order of two rows
// ---------------------------------------------------------------------------

/// How one number stands to another.
pub open spec fn number_order(a: int, b: int) -> KeyOrder {
    if a < b {
        KeyOrder::Less
    } else if a == b {
        KeyOrder::Equal
    } else {
        KeyOrder::Greater
    }
}

/// How the row `a` stands to the row `b`, given how their values stand in each key column: as the
/// first values that are not equal do, or else as the rows' identities.
pub open spec fn row_order(columns: Seq<KeyOrder>, a: i64, b: i64) -> KeyOrder
    decreases columns.len(),
{
    if columns.len() == 0 {
        number_order(a as int, b as int)
    } else if columns[0] != KeyOrder::Equal {
        columns[0]
    } else {
        row_order(columns.skip(1), a, b)
    }
}

/// How the row `a` stands to the row `b`, given how their values stand in each key column.
pub fn key_order(columns: &[KeyOrder], a: i64, b: i64) -> (r: KeyOrder)
    ensures
        r == row_order(columns@, a, b),
{
    let mut i: usize = 0;
    assert(columns@.skip(0) =~= columns@);
    while i < columns.len()
        invariant
            i <= columns@.len(),
            row_order(columns@, a, b) == row_order(columns@.skip(i as int), a, b),
        decreases columns@.len() - i,
    {
        assert(columns@.skip(i as int)[0] == columns@[i as int]);
        if columns[i] != KeyOrder::Equal {
            return columns[i];
        }
        assert(columns@.skip(i as int).skip(1) =~= columns@.skip(i + 1));
        i = i + 1;
    }
    if a < b {
        KeyOrder::Less
    } else if a == b {
        KeyOrder::Equal
    } else {
        KeyOrder::Greater
    }
}

/// How the ranks `x` stand to the ranks `y`, column by column.
pub open spec fn rank_orders(x: Seq<u64>, y: Seq<u64>) -> Seq<KeyOrder> {
    Seq::new(x.len(), |k: int| number_order(x[k] as int, y[k] as int))
}

/// Whether a row with the ranks `x` does not stand behind one with the ranks `y`.
pub open spec fn stands_before(x: Seq<u64>, a: i64, y: Seq<u64>, b: i64) -> bool {
    row_order(rank_orders(x, y), a, b) != KeyOrder::Greater
}

proof fn lemma_rank_orders_skip(x: Seq<u64>, y: Seq<u64>)
    requires
        x.len() == y.len(),
        x.len() > 0,
    ensures
        rank_orders(x, y).skip(1) == rank_orders(x.skip(1), y.skip(1)),
        rank_orders(x, y)[0] == number_order(x[0] as int, y[0] as int),
{
    assert(rank_orders(x, y).skip(1) =~= rank_orders(x.skip(1), y.skip(1)));
}

proof fn lemma_before_transitive(x: Seq<u64>, a: i64, y: Seq<u64>, b: i64, z: Seq<u64>, c: i64)
    requires
        x.len() == y.len() == z.len(),
        stands_before(x, a, y, b),
        stands_before(y, b, z, c),
    ensures
        stands_before(x, a, z, c),
    decreases x.len(),
{
    if x.len() > 0 {
        lemma_rank_orders_skip(x, y);
        lemma_rank_orders_skip(y, z);
        lemma_rank_orders_skip(x, z);
        if x[0] == y[0] && y[0] == z[0] {
            lemma_before_transitive(x.skip(1), a, y.skip(1), b, z.skip(1), c);
        }
    }
}

proof fn lemma_before_total(x: Seq<u64>, a: i64, y: Seq<u64>, b: i64)
    requires
        x.len() == y.len(),
    ensures
        stands_before(x, a, y, b) || stands_before(y, b, x, a),
        stands_before(x, a, y, b) && stands_before(y, b, x, a) ==> x == y && a == b,
    decreases x.len(),
{
    if x.len() > 0 {
        lemma_rank_orders_skip(x, y);
        lemma_rank_orders_skip(y, x);
        lemma_before_total(x.skip(1), a, y.skip(1), b);
        if x[0] == y[0] && x.skip(1) == y.skip(1) {
            assert(x =~= seq![x[0]] + x.skip(1));
            assert(y =~= seq![y[0]] + y.skip(1));
        }
    } else {
        assert(x =~= y);
    }
}

fn is_before(x: &[u64], a: i64, y: &[u64], b: i64) -> (r: bool)
    requires
        x@.len() == y@.len(),
    ensures
        r == stands_before(x@, a, y@, b),
{
    let ghost orders = rank_orders(x@, y@);
    let mut i: usize = 0;
    assert(orders.skip(0) =~= orders);
    while i < x.len()
        invariant
            i <= x@.len(),
            x@.len() == y@.len(),
            orders == rank_orders(x@, y@),
            row_order(orders, a, b) == row_order(orders.skip(i as int), a, b),
        decreases x@.len() - i,
    {
        assert(orders.skip(i as int)[0] == number_order(x@[i as int] as int, y@[i as int] as int));
        if x[i] != y[i] {
            return x[i] < y[i];
        }
        assert(orders.skip(i as int).skip(1) =~= orders.skip(i + 1));
        i = i + 1;
    }
    a <= b
}

// ---------------------------------------------------------------------------
// The order of many
// ---------------------------------------------------------------------------

/// The ranks of rows.
pub open spec fn rank_views(ranks: Seq<Vec<u64>>) -> Seq<Seq<u64>> {
    ranks.map_values(|r: Vec<u64>| r@)
}

/// Whether there are ranks for each of `n` rows, the same number for each.
pub open spec fn ranks_fit(ranks: Seq<Seq<u64>>, n: nat) -> bool {
    &&& ranks.len() == n
    &&& forall|i: int, j: int|
        0 <= i < n && 0 <= j < n ==> (#[trigger] ranks[i]).len() == (#[trigger] ranks[j]).len()
}

/// Whether the row at position `p` does not stand behind that at position `q`.
pub open spec fn is_placed(ids: Seq<i64>, ranks: Seq<Seq<u64>>, p: int, q: int) -> bool {
    stands_before(ranks[p], ids[p], ranks[q], ids[q])
}

/// Whether positions of rows stand in the order of the rows.
pub open spec fn in_key_order(order: Seq<usize>, ids: Seq<i64>, ranks: Seq<Seq<u64>>) -> bool {
    forall|i: int, j: int|
        0 <= i < j < order.len() ==> is_placed(
            ids,
            ranks,
            (#[trigger] order[i]) as int,
            (#[trigger] order[j]) as int,
        )
}

/// Whether `order` has each position below `n` once.
pub open spec fn is_permutation(order: Seq<usize>, n: nat) -> bool {
    &&& order.len() == n
    &&& order.no_duplicates()
    &&& forall|k: int| 0 <= k < order.len() ==> #[trigger] order[k] < n
}

spec fn positions_below(order: Seq<usize>, n: nat) -> bool {
    forall|k: int| 0 <= k < order.len() ==> #[trigger] order[k] < n
}

/// The positions from `from` up to `to`.
spec fn positions(from: nat, to: nat) -> Seq<usize> {
    Seq::new((to - from) as nat, |k: int| (from + k) as usize)
}

proof fn lemma_placed_behind(
    order: Seq<usize>,
    ids: Seq<i64>,
    ranks: Seq<Seq<u64>>,
    p: int,
    from: int,
)
    requires
        ranks_fit(ranks, ids.len()),
        positions_below(order, ids.len()),
        in_key_order(order, ids, ranks),
        0 <= p < ids.len(),
        0 <= from < order.len(),
        is_placed(ids, ranks, p, order[from] as int),
    ensures
        forall|m: int| from <= m < order.len() ==> is_placed(ids, ranks, p, #[trigger] order[m] as int),
{
    assert forall|m: int| from <= m < order.len() implies is_placed(
        ids,
        ranks,
        p,
        #[trigger] order[m] as int,
    ) by {
        if m > from {
            let (x, y, z) = (p, order[from] as int, order[m] as int);
            assert(is_placed(ids, ranks, y, z));
            assert(ranks[x].len() == ranks[y].len() && ranks[y].len() == ranks[z].len());
            lemma_before_transitive(ranks[x], ids[x], ranks[y], ids[y], ranks[z], ids[z]);
        }
    }
}

proof fn lemma_take_multiset(s: Seq<usize>, i: int)
    requires
        0 <= i < s.len(),
    ensures
        s.take(i + 1).to_multiset() == s.take(i).to_multiset().insert(s[i]),
{
    s.take(i).to_multiset_ensures();
    assert(s.take(i + 1) =~= s.take(i).push(s[i]));
}

fn merge_runs(a: &Vec<usize>, b: &Vec<usize>, ids: &[i64], ranks: &[Vec<u64>]) -> (out: Vec<usize>)
    requires
        ranks_fit(rank_views(ranks@), ids@.len()),
        positions_below(a@, ids@.len()),
        positions_below(b@, ids@.len()),
        in_key_order(a@, ids@, rank_views(ranks@)),
        in_key_order(b@, ids@, rank_views(ranks@)),
    ensures
        positions_below(out@, ids@.len()),
        in_key_order(out@, ids@, rank_views(ranks@)),
        out@.to_multiset() == a@.to_multiset().add(b@.to_multiset()),
{
    let ghost views = rank_views(ranks@);
    let mut out: Vec<usize> = Vec::new();
    let mut i: usize = 0;
    let mut j: usize = 0;
    proof {
        out@.to_multiset_ensures();
        assert(a@.take(0) =~= out@);
        assert(b@.take(0) =~= out@);
        assert(out@.to_multiset() =~= a@.take(0).to_multiset().add(b@.take(0).to_multiset()));
    }
    while i < a.len() || j < b.len()
        invariant
            i <= a@.len(),
            j <= b@.len(),
            views == rank_views(ranks@),
            ranks_fit(views, ids@.len()),
            positions_below(a@, ids@.len()),
            positions_below(b@, ids@.len()),
            positions_below(out@, ids@.len()),
            in_key_order(a@, ids@, views),
            in_key_order(b@, ids@, views),
            in_key_order(out@, ids@, views),
            forall|k: int, m: int|
                0 <= k < out@.len() && i <= m < a@.len() ==> is_placed(
                    ids@,
                    views,
                    (#[trigger] out@[k]) as int,
                    (#[trigger] a@[m]) as int,
                ),
            forall|k: int, m: int|
                0 <= k < out@.len() && j <= m < b@.len() ==> is_placed(
                    ids@,
                    views,
                    (#[trigger] out@[k]) as int,
                    (#[trigger] b@[m]) as int,
                ),
            out@.to_multiset() == a@.take(i as int).to_multiset().add(
                b@.take(j as int).to_multiset(),
            ),
        decreases (a@.len() - i) + (b@.len() - j),
    {
        let ghost before = out@;
        proof {
            before.to_multiset_ensures();
        }
        let first: bool = if i >= a.len() {
            false
        } else if j >= b.len() {
            true
        } else {
            let p: usize = a[i];
            let q: usize = b[j];
            proof {
                assert(a@[i as int] < ids@.len() && b@[j as int] < ids@.len());
                assert(views[p as int] == ranks@[p as int]@ && views[q as int] == ranks@[q as int]@);
                lemma_before_total(views[p as int], ids@[p as int], views[q as int], ids@[q as int]);
            }
            is_before(ranks[p].as_slice(), ids[p], ranks[q].as_slice(), ids[q])
        };
        if first {
            let p: usize = a[i];
            proof {
                assert(a@[i as int] < ids@.len());
                lemma_take_multiset(a@, i as int);
                if j < b@.len() {
                    lemma_placed_behind(b@, ids@, views, p as int, j as int);
                }
            }
            out.push(p);
            i = i + 1;
        } else {
            let q: usize = b[j];
            proof {
                assert(b@[j as int] < ids@.len());
                lemma_take_multiset(b@, j as int);
                if i < a@.len() {
                    lemma_placed_behind(a@, ids@, views, q as int, i as int);
                }
            }
            out.push(q);
            j = j + 1;
        }
        assert(out@.to_multiset() =~= a@.take(i as int).to_multiset().add(
            b@.take(j as int).to_multiset(),
        ));
    }
    assert(a@.take(i as int) =~= a@);
    assert(b@.take(j as int) =~= b@);
    out
}

fn sort_positions(ids: &[i64], ranks: &[Vec<u64>], from: usize, to: usize) -> (out: Vec<usize>)
    requires
        from <= to <= ids@.len(),
        ranks_fit(rank_views(ranks@), ids@.len()),
    ensures
        positions_below(out@, ids@.len()),
        in_key_order(out@, ids@, rank_views(ranks@)),
        out@.to_multiset() == positions(from as nat, to as nat).to_multiset(),
    decreases to - from,
{
    if to - from < 2 {
        let mut out: Vec<usize> = Vec::new();
        if from < to {
            out.push(from);
        }
        assert(out@ =~= positions(from as nat, to as nat));
        return out;
    }
    let middle: usize = from + (to - from) / 2;
    let a = sort_positions(ids, ranks, from, middle);
    let b = sort_positions(ids, ranks, middle, to);
    proof {
        let (x, y) = (positions(from as nat, middle as nat), positions(middle as nat, to as nat));
        assert(positions(from as nat, to as nat) =~= x + y);
        vstd::seq_lib::lemma_multiset_commutative(x, y);
    }
    merge_runs(&a, &b, ids, ranks)
}

/// The positions of rows in the order of the rows.
pub fn key_positions(ids: &[i64], ranks: &[Vec<u64>]) -> (order: Vec<usize>)
    requires
        ranks_fit(rank_views(ranks@), ids@.len()),
    ensures
        is_permutation(order@, ids@.len()),
        in_key_order(order@, ids@, rank_views(ranks@)),
{
    let order = sort_positions(ids, ranks, 0, ids.len());
    proof {
        let all = positions(0, ids@.len());
        order@.to_multiset_ensures();
        all.to_multiset_ensures();
        assert(all.no_duplicates());
        all.lemma_multiset_has_no_duplicates();
        order@.lemma_multiset_has_no_duplicates_conv();
    }
    order
}

/// The items of `s` at the positions of `order`.
pub open spec fn reordered<T>(s: Seq<T>, order: Seq<usize>) -> Seq<T> {
    Seq::new(order.len(), |k: int| s[order[k] as int])
}

/// Whether `r` has the items of `s`, whose rows and ranks are given, in the order of the rows.
pub open spec fn orders_by_key<T>(
    r: Seq<T>,
    s: Seq<T>,
    ids: Seq<i64>,
    ranks: Seq<Seq<u64>>,
) -> bool {
    exists|order: Seq<usize>|
        #![trigger reordered(s, order)]
        is_permutation(order, s.len()) && in_key_order(order, ids, ranks) && r == reordered(
            s,
            order,
        )
}

/// Putting items in another order keeps them all.
pub proof fn lemma_reordered<T>(s: Seq<T>, order: Seq<usize>)
    requires
        is_permutation(order, s.len()),
        s.len() <= usize::MAX,
    ensures
        reordered(s, order).to_multiset() == s.to_multiset(),
    decreases s.len(),
{
    let r = reordered(s, order);
    if s.len() == 0 {
        assert(r =~= s);
    } else {
        let p = order.last() as int;
        assert(order[order.len() - 1] == p);
        let less = s.remove(p);
        let rest = Seq::new(
            (order.len() - 1) as nat,
            |k: int|
                if order[k] > p {
                    (order[k] - 1) as usize
                } else {
                    order[k]
                },
        );
        assert forall|k: int| 0 <= k < rest.len() implies #[trigger] rest[k] < less.len() && less[rest[k] as int]
            == r[k] by {
            assert(order[k] < s.len());
            assert(order[k] != order[order.len() - 1]);
        }
        assert forall|i: int, j: int| 0 <= i < rest.len() && 0 <= j < rest.len() && i != j implies rest[i]
            != rest[j] by {
            assert(order[i] != order[j]);
            assert(order[i] != order[order.len() - 1] && order[j] != order[order.len() - 1]);
        }
        lemma_reordered(less, rest);
        assert(reordered(less, rest) =~= r.drop_last());
        r.drop_last().to_multiset_ensures();
        s.to_multiset_ensures();
        assert(r =~= r.drop_last().push(s[p]));
        assert(s.to_multiset().count(s[p]) > 0) by {
            assert(s.contains(s[p]));
        }
        assert(r.to_multiset() =~= s.to_multiset());
    }
}

/// The rows of places.
pub open spec fn place_ids(refs: Seq<RowPlace>) -> Seq<i64> {
    refs.map_values(|r: RowPlace| r.0)
}

/// Places of rows in the order of the rows, given their ranks: by key, and by row where the keys are
/// equal. Without a key that is the order of the rows' identities.
pub fn order_by_key(refs: Vec<RowPlace>, ranks: &[Vec<u64>]) -> (r: Vec<RowPlace>)
    requires
        ranks_fit(rank_views(ranks@), refs@.len()),
    ensures
        orders_by_key(r@, refs@, place_ids(refs@), rank_views(ranks@)),
        r@.to_multiset() == refs@.to_multiset(),
{
    let mut ids: Vec<i64> = Vec::new();
    let n: usize = refs.len();
    while ids.len() < n
        invariant
            n == refs@.len(),
            ids@.len() <= n,
            ids@ == place_ids(refs@).take(ids@.len() as int),
        decreases n - ids@.len(),
    {
        let ghost k = ids@.len() as int;
        ids.push(refs[ids.len()].0);
        assert(ids@ =~= place_ids(refs@).take(k + 1));
    }
    assert(ids@ =~= place_ids(refs@));
    let order = key_positions(ids.as_slice(), ranks);
    let mut r: Vec<RowPlace> = Vec::new();
    while r.len() < n
        invariant
            n == refs@.len(),
            is_permutation(order@, n as nat),
            r@.len() <= n,
            r@ == reordered(refs@, order@).take(r@.len() as int),
        decreases n - r@.len(),
    {
        let ghost k = r@.len() as int;
        let p: usize = order[r.len()];
        r.push(refs[p]);
        assert(r@ =~= reordered(refs@, order@).take(k + 1));
    }
    assert(r@ =~= reordered(refs@, order@));
    proof {
        lemma_reordered(refs@, order@);
    }
    r
}

/// The rows of a list of rows to be sealed.
pub open spec fn hot_ids(rows: Seq<HotRow>) -> Seq<i64> {
    rows.map_values(|r: HotRow| r.row_id)
}

/// Rows to be sealed in the order of the table's clustering key, and by row where the keys are equal.
/// Without a key they stay as they are.
pub fn order_rows_by_key(rows: Vec<HotRow>, ranks: &[Vec<u64>]) -> (r: Vec<HotRow>)
    requires
        ranks_fit(rank_views(ranks@), rows@.len()),
    ensures
        if rows@.len() > 0 && ranks@[0]@.len() > 0 {
            orders_by_key(r@, rows@, hot_ids(rows@), rank_views(ranks@))
        } else {
            r@ == rows@
        },
        r@.to_multiset() == rows@.to_multiset(),
{
    let n: usize = rows.len();
    if n == 0 || ranks[0].len() == 0 {
        return rows;
    }
    let mut ids: Vec<i64> = Vec::new();
    while ids.len() < n
        invariant
            n == rows@.len(),
            ids@.len() <= n,
            ids@ == hot_ids(rows@).take(ids@.len() as int),
        decreases n - ids@.len(),
    {
        let ghost k = ids@.len() as int;
        ids.push(rows[ids.len()].row_id);
        assert(ids@ =~= hot_ids(rows@).take(k + 1));
    }
    assert(ids@ =~= hot_ids(rows@));
    let order = key_positions(ids.as_slice(), ranks);
    let ghost all = rows@;
    let mut from: Vec<HotRow> = rows;
    let mut slots: Vec<Option<HotRow>> = Vec::new();
    while from.len() > 0
        invariant
            n == all.len(),
            from@.len() + slots@.len() == n,
            from@ == all.take(from@.len() as int),
            forall|k: int|
                0 <= k < slots@.len() ==> #[trigger] slots@[k] == Some(all[n - 1 - k]),
        decreases from@.len(),
    {
        let ghost before = from@;
        let last = from.pop();
        assert(from@ =~= all.take(from@.len() as int));
        assert(last == Some(all[before.len() - 1]));
        slots.push(last);
    }
    let mut r: Vec<HotRow> = Vec::new();
    while r.len() < n
        invariant
            n == all.len(),
            is_permutation(order@, n as nat),
            slots@.len() == n,
            r@.len() <= n,
            r@ == reordered(all, order@).take(r@.len() as int),
            forall|k: int|
                r@.len() <= k < n ==> slots@[n - 1 - (#[trigger] order@[k])] == Some(
                    all[order@[k] as int],
                ),
        decreases n - r@.len(),
    {
        let ghost k = r@.len() as int;
        let p: usize = order[r.len()];
        assert(slots@[n - 1 - order@[k]] == Some(all[order@[k] as int]));
        let slot = slots[n - 1 - p].take();
        match slot {
            Some(row) => {
                r.push(row);
            },
            None => {},
        }
        assert(r@ =~= reordered(all, order@).take(k + 1));
    }
    assert(r@ =~= reordered(all, order@));
    proof {
        lemma_reordered(all, order@);
    }
    r
}

// ---------------------------------------------------------------------------
// Laws
// ---------------------------------------------------------------------------

/// The order of keys with their rows, those with fewer columns first.
spec fn key_le(a: (Seq<u64>, i64), b: (Seq<u64>, i64)) -> bool {
    a.0.len() < b.0.len() || (a.0.len() == b.0.len() && stands_before(a.0, a.1, b.0, b.1))
}

proof fn lemma_key_le_total()
    ensures
        total_ordering(|a: (Seq<u64>, i64), b: (Seq<u64>, i64)| key_le(a, b)),
{
    let le = |a: (Seq<u64>, i64), b: (Seq<u64>, i64)| key_le(a, b);
    assert forall|a: (Seq<u64>, i64)| #[trigger] le(a, a) by {
        lemma_before_total(a.0, a.1, a.0, a.1);
    }
    assert forall|a: (Seq<u64>, i64), b: (Seq<u64>, i64)| #[trigger] le(a, b) && #[trigger] le(b, a) implies a
        == b by {
        lemma_before_total(a.0, a.1, b.0, b.1);
    }
    assert forall|a: (Seq<u64>, i64), b: (Seq<u64>, i64), c: (Seq<u64>, i64)| #[trigger]
        le(a, b) && #[trigger] le(b, c) implies le(a, c) by {
        if a.0.len() == b.0.len() && b.0.len() == c.0.len() {
            lemma_before_transitive(a.0, a.1, b.0, b.1, c.0, c.1);
        }
    }
    assert forall|a: (Seq<u64>, i64), b: (Seq<u64>, i64)| #[trigger] le(a, b) || #[trigger] le(b, a) by {
        if a.0.len() == b.0.len() {
            lemma_before_total(a.0, a.1, b.0, b.1);
        }
    }
}

/// There is one order by key: rows of which none occurs twice come out the same, however they are
/// put in order, whether sorted or merged from runs that are in order already.
pub proof fn key_order_is_one<T>(
    r: Seq<T>,
    q: Seq<T>,
    s: Seq<T>,
    ids: Seq<i64>,
    ranks: Seq<Seq<u64>>,
)
    requires
        ids.len() == s.len(),
        s.len() <= usize::MAX,
        ids.no_duplicates(),
        ranks_fit(ranks, s.len()),
        orders_by_key(r, s, ids, ranks),
        orders_by_key(q, s, ids, ranks),
    ensures
        r == q,
{
    let a = choose|order: Seq<usize>|
        #![trigger reordered(s, order)]
        is_permutation(order, s.len()) && in_key_order(order, ids, ranks) && r == reordered(
            s,
            order,
        );
    let b = choose|order: Seq<usize>|
        #![trigger reordered(s, order)]
        is_permutation(order, s.len()) && in_key_order(order, ids, ranks) && q == reordered(
            s,
            order,
        );
    let le = |x: (Seq<u64>, i64), y: (Seq<u64>, i64)| key_le(x, y);
    let keys = Seq::new(s.len(), |k: int| (ranks[k], ids[k]));
    let (x, y) = (reordered(keys, a), reordered(keys, b));
    lemma_key_le_total();
    lemma_reordered(keys, a);
    lemma_reordered(keys, b);
    assert forall|i: int, j: int| 0 <= i < j < x.len() implies #[trigger] le(x[i], x[j]) by {
        assert(is_placed(ids, ranks, a[i] as int, a[j] as int));
        assert(ranks[a[i] as int].len() == ranks[a[j] as int].len());
    }
    assert forall|i: int, j: int| 0 <= i < j < y.len() implies #[trigger] le(y[i], y[j]) by {
        assert(is_placed(ids, ranks, b[i] as int, b[j] as int));
        assert(ranks[b[i] as int].len() == ranks[b[j] as int].len());
    }
    vstd::seq_lib::lemma_sorted_unique(x, y, le);
    assert forall|k: int| 0 <= k < s.len() implies r[k] == q[k] by {
        assert(x[k] == y[k]);
        assert(a[k] < s.len() && b[k] < s.len());
        assert(ids[a[k] as int] == ids[b[k] as int]);
    }
    assert(r =~= q);
}

} // verus!
