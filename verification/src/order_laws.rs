//! How rows stand to one another, what a table's hash depends on, and which snapshots are open.

use crate::disk_store::{
    StoreV, after_loading, code_points, column_numbers, columns_numbers, hash_from, hash_of_schema,
    newest_intact, opened, with_last, with_reader,
};
use crate::key_order::{
    KeyOrder, in_key_order, is_permutation, is_placed, lemma_reordered, number_order, rank_orders,
    reordered, row_order, stands_before,
};
use crate::schema::{ColumnV, SchemaV, type_tag};
use crate::snapshot_reader::{OpenError, ReaderV};
use vstd::prelude::*;

verus! {

/// Two rows stand to one another as the first of their values that differ, or as their identities
/// where none do.
pub proof fn first_difference_orders_rows(columns: Seq<KeyOrder>, a: i64, b: i64)
    ensures
        forall|k: int|
            0 <= k < columns.len() && #[trigger] columns[k] != KeyOrder::Equal && (forall|i: int|
                0 <= i < k ==> #[trigger] columns[i] == KeyOrder::Equal) ==> row_order(
                columns,
                a,
                b,
            ) == columns[k],
        (forall|i: int| 0 <= i < columns.len() ==> #[trigger] columns[i] == KeyOrder::Equal) ==> {
            &&& a < b ==> row_order(columns, a, b) == KeyOrder::Less
            &&& a == b ==> row_order(columns, a, b) == KeyOrder::Equal
            &&& a > b ==> row_order(columns, a, b) == KeyOrder::Greater
        },
    decreases columns.len(),
{
    if columns.len() > 0 && columns[0] == KeyOrder::Equal {
        let rest = columns.skip(1);
        first_difference_orders_rows(rest, a, b);
        assert forall|k: int|
            0 <= k < columns.len() && #[trigger] columns[k] != KeyOrder::Equal && (forall|i: int|
                0 <= i < k ==> #[trigger] columns[i] == KeyOrder::Equal) implies row_order(
            columns,
            a,
            b,
        ) == columns[k] by {
            assert(rest[k - 1] == columns[k]);
            assert forall|i: int| 0 <= i < k - 1 implies #[trigger] rest[i] == KeyOrder::Equal by {
                assert(rest[i] == columns[i + 1]);
            }
        }
        if forall|i: int| 0 <= i < columns.len() ==> #[trigger] columns[i] == KeyOrder::Equal {
            assert forall|i: int| 0 <= i < rest.len() implies #[trigger] rest[i]
                == KeyOrder::Equal by {
                assert(rest[i] == columns[i + 1]);
            }
        }
    } else if columns.len() > 0 {
        assert forall|k: int|
            0 <= k < columns.len() && #[trigger] columns[k] != KeyOrder::Equal && (forall|i: int|
                0 <= i < k ==> #[trigger] columns[i] == KeyOrder::Equal) implies row_order(
            columns,
            a,
            b,
        ) == columns[k] by {
            if k > 0 {
                assert(columns[0] == KeyOrder::Equal);
            }
        }
    }
}

/// A row of lower rank in the first key column in which two rows differ stands before the other; of
/// rows with equal ranks, the one of smaller identity does.
pub proof fn lower_rank_stands_first(x: Seq<u64>, a: i64, y: Seq<u64>, b: i64, k: int)
    requires
        x.len() == y.len(),
        0 <= k <= x.len(),
        forall|i: int| 0 <= i < k ==> #[trigger] x[i] == y[i],
    ensures
        k < x.len() && x[k] < y[k] ==> stands_before(x, a, y, b),
        k < x.len() && x[k] > y[k] ==> !stands_before(x, a, y, b),
        k == x.len() ==> (stands_before(x, a, y, b) <==> a <= b),
{
    let o = rank_orders(x, y);
    first_difference_orders_rows(o, a, b);
    assert forall|i: int| 0 <= i < k implies #[trigger] o[i] == KeyOrder::Equal by {
        assert(x[i] == y[i]);
    }
    if k < x.len() {
        assert(o[k] == number_order(x[k] as int, y[k] as int));
    }
}

// ---------------------------------------------------------------------------
// Hashes
// ---------------------------------------------------------------------------

proof fn lemma_hash_joined(start: u64, a: Seq<u64>, b: Seq<u64>)
    ensures
        hash_from(start, a + b) == hash_from(hash_from(start, a), b),
    decreases b.len(),
{
    if b.len() == 0 {
        assert(a + b =~= a);
    } else {
        lemma_hash_joined(start, a, b.drop_last());
        assert((a + b).drop_last() =~= a + b.drop_last());
        assert((a + b).last() == b.last());
    }
}

/// The hash of a schema takes in the code points of the table's name and then, column by column, those
/// of its name, the tag of its type, and whether it may be NULL and is the primary key. Each number is
/// mixed in by an exclusive or and a product.
pub proof fn schema_hash_takes_columns_in(
    start: u64,
    xs: Seq<u64>,
    x: u64,
    s: SchemaV,
    columns: Seq<ColumnV>,
    c: ColumnV,
)
    ensures
        hash_from(start, Seq::empty()) == start,
        hash_from(start, xs.push(x)) == (((hash_from(start, xs) ^ x) * 0x0100_0000_01b3)
            % 0x1_0000_0000_0000_0000),
        hash_of_schema(s) == hash_from(
            hash_from(0xcbf2_9ce4_8422_2325, code_points(s.table_name)),
            columns_numbers(s.columns),
        ),
        columns_numbers(columns.push(c)) == columns_numbers(columns) + column_numbers(c),
        columns_numbers(Seq::empty()) == Seq::<u64>::empty(),
        column_numbers(c).len() == c.name.len() + 3,
        forall|i: int| 0 <= i < c.name.len() ==> #[trigger] column_numbers(c)[i] == c.name[i] as u64,
        column_numbers(c)[c.name.len() as int] == type_tag(c.data_type),
        column_numbers(c)[c.name.len() as int + 1] == if c.nullable {
            1u64
        } else {
            0
        },
        column_numbers(c)[c.name.len() as int + 2] == if c.primary_key {
            1u64
        } else {
            0
        },
{
    assert(xs.push(x).drop_last() =~= xs);
    assert(columns.push(c).drop_last() =~= columns);
    lemma_hash_joined(0xcbf2_9ce4_8422_2325, code_points(s.table_name), columns_numbers(s.columns));
    let h = hash_from(start, xs);
    assert(0 <= ((h ^ x) * 0x0100_0000_01b3) % 0x1_0000_0000_0000_0000 <= u64::MAX);
}

// ---------------------------------------------------------------------------
// Open snapshots
// ---------------------------------------------------------------------------

/// Of snapshot files of which the newest is the last, the one that is opened can be, and none behind
/// it can; none is opened just where none can be.
pub proof fn newest_intact_file_is_opened(files: Seq<Seq<u8>>, now: int)
    ensures
        match newest_intact(files, now) {
            Some(r) => exists|i: int|
                0 <= i < files.len() && opened(#[trigger] files[i], now) == Ok::<
                    ReaderV,
                    OpenError,
                >(r) && forall|k: int|
                    i < k < files.len() ==> opened(#[trigger] files[k], now) is Err,
            None => forall|k: int|
                0 <= k < files.len() ==> opened(#[trigger] files[k], now) is Err,
        },
    decreases files.len(),
{
    if files.len() > 0 {
        let n = files.len() - 1;
        match opened(files.last(), now) {
            Ok(r) => {
                assert(opened(files[n], now) is Ok);
            },
            Err(_) => {
                let before = files.drop_last();
                newest_intact_file_is_opened(before, now);
                match newest_intact(before, now) {
                    Some(r) => {
                        let i = choose|i: int|
                            0 <= i < before.len() && opened(#[trigger] before[i], now) == Ok::<
                                ReaderV,
                                OpenError,
                            >(r) && forall|k: int|
                                i < k < before.len() ==> opened(#[trigger] before[k], now) is Err;
                        assert(files[i] == before[i]);
                        assert forall|k: int| i < k < files.len() implies opened(
                            #[trigger] files[k],
                            now,
                        ) is Err by {
                            if k < n {
                                assert(before[k] == files[k]);
                            }
                        }
                    },
                    None => {
                        assert forall|k: int| 0 <= k < files.len() implies opened(
                            #[trigger] files[k],
                            now,
                        ) is Err by {
                            if k < n {
                                assert(before[k] == files[k]);
                            }
                        }
                    },
                }
            },
        }
    }
}

/// A store that opens a snapshot has it as its newest, behind those that it had; one that finds no
/// file is as it was; one whose files are all damaged says what is wrong with the newest. A change to
/// the newest snapshot leaves the others.
pub proof fn store_opens_the_newest(s: StoreV, files: Seq<Seq<u8>>, r: ReaderV, now: int)
    ensures
        with_reader(s, r).readers.len() == s.readers.len() + 1,
        with_reader(s, r).readers.last() == r,
        forall|i: int|
            0 <= i < s.readers.len() ==> #[trigger] with_reader(s, r).readers[i] == s.readers[i],
        with_reader(s, r).table_name == s.table_name,
        with_reader(s, r).schema_hash == s.schema_hash,
        s.readers.len() > 0 ==> with_last(s, r).readers.last() == r && with_last(
            s,
            r,
        ).readers.drop_last() == s.readers.drop_last(),
        with_last(s, r).table_name == s.table_name,
        with_last(s, r).schema_hash == s.schema_hash,
        files.len() == 0 ==> after_loading(s, files, now) is Ok && after_loading(
            s,
            files,
            now,
        )->Ok_0 == s,
        files.len() > 0 ==> match newest_intact(files, now) {
            Some(x) => after_loading(s, files, now) is Ok && after_loading(s, files, now)->Ok_0
                == with_reader(s, x),
            None => after_loading(s, files, now) is Err && after_loading(s, files, now)->Err_0
                == opened(files.last(), now)->Err_0,
        },
{
    if s.readers.len() > 0 {
        assert(with_last(s, r).readers.drop_last() =~= s.readers.drop_last());
    }
}

/// Rows in the order of a key: of two of them, the one that stands first has the lower rank in the
/// first column in which they differ, and the smaller identity where they differ in none.
pub proof fn rows_come_in_key_order(
    order: Seq<usize>,
    ids: Seq<i64>,
    ranks: Seq<Seq<u64>>,
    i: int,
    j: int,
    k: int,
)
    requires
        in_key_order(order, ids, ranks),
        0 <= i < j < order.len(),
        ranks[order[i] as int].len() == ranks[order[j] as int].len(),
        0 <= k <= ranks[order[i] as int].len(),
        forall|m: int|
            0 <= m < k ==> #[trigger] ranks[order[i] as int][m] == ranks[order[j] as int][m],
    ensures
        k < ranks[order[i] as int].len() ==> ranks[order[i] as int][k] <= ranks[order[j] as int][k],
        k == ranks[order[i] as int].len() ==> ids[order[i] as int] <= ids[order[j] as int],
{
    let p = order[i] as int;
    let q = order[j] as int;
    assert(is_placed(ids, ranks, p, q));
    lower_rank_stands_first(ranks[p], ids[p], ranks[q], ids[q], k);
}

/// Items in another order are the same items, each as often as before.
pub proof fn reordering_keeps_every_item<T>(s: Seq<T>, order: Seq<usize>)
    requires
        is_permutation(order, s.len()),
        s.len() <= usize::MAX,
    ensures
        reordered(s, order).len() == s.len(),
        forall|i: int|
            0 <= i < s.len() ==> #[trigger] reordered(s, order)[i] == s[order[i] as int],
        forall|i: int| 0 <= i < s.len() ==> reordered(s, order).contains(#[trigger] s[i]),
        reordered(s, order).to_multiset() == s.to_multiset(),
{
    lemma_reordered(s, order);
    let r = reordered(s, order);
    assert forall|i: int| 0 <= i < s.len() implies r.contains(#[trigger] s[i]) by {
        broadcast use vstd::seq_lib::group_to_multiset_ensures;

        assert(s.contains(s[i]));
        assert(s.to_multiset().count(s[i]) > 0);
        assert(r.to_multiset().count(s[i]) > 0);
    }
}

} // verus!
