//! Which volumes get a side file, and when.

use crate::backfill::{
    BackfillTable, ColdVolume, ColumnMapping, ColumnSource, ascending, at_table, candidate_ids,
    done_count, has_all, lacking, lacks_side, not_after, physical_column, wanted_pairs, work_from,
    work_of,
};
use crate::text::text_le;
use vstd::prelude::*;
use vstd::relations::*;

verus! {

/// Whether a volume has a column of its table at a place: where its mapping says so; and at the
/// column's own place where the mapping is silent, changes nothing, and the volume has that many
/// columns.
pub open spec fn has_column_at(m: ColumnMapping, column: usize, place: usize) -> bool {
    ||| column < m.sources@.len() && m.sources@[column as int] == ColumnSource::Volume(place)
    ||| column >= m.sources@.len() && m.is_identity && column < m.columns && place == column
}

proof fn lemma_physical(m: ColumnMapping, column: usize)
    ensures
        forall|p: usize| #[trigger]
            has_column_at(m, column, p) <==> physical_column(m, column) == Some(p),
{
}

/// What is wanted of a volume's side file: each indexed column that the volume has, at its place in
/// the volume, with the identity of its index; and nothing else.
pub proof fn indexed_columns_are_wanted(m: ColumnMapping, identities: Seq<(usize, u64)>)
    ensures
        forall|i: int, p: usize|
            0 <= i < identities.len() && #[trigger] has_column_at(
                m,
                (#[trigger] identities[i]).0,
                p,
            ) ==> wanted_pairs(m, identities).contains((p, identities[i].1)),
        forall|k: int|
            0 <= k < wanted_pairs(m, identities).len() ==> exists|i: int|
                0 <= i < identities.len() && has_column_at(
                    m,
                    (#[trigger] identities[i]).0,
                    (#[trigger] wanted_pairs(m, identities)[k]).0,
                ) && identities[i].1 == wanted_pairs(m, identities)[k].1,
    decreases identities.len(),
{
    if identities.len() > 0 {
        let before = identities.drop_last();
        let n = identities.len() - 1;
        let w0 = wanted_pairs(m, before);
        let w = wanted_pairs(m, identities);
        indexed_columns_are_wanted(m, before);
        lemma_physical(m, identities[n].0);
        assert forall|i: int, p: usize|
            0 <= i < identities.len() && #[trigger] has_column_at(
                m,
                (#[trigger] identities[i]).0,
                p,
            ) implies w.contains((p, identities[i].1)) by {
            if i < n {
                assert(before[i] == identities[i]);
                assert(w0.contains((p, identities[i].1)));
                let k = choose|k: int| 0 <= k < w0.len() && w0[k] == (p, identities[i].1);
                assert(w[k] == (p, identities[i].1));
            } else {
                assert(w[w0.len() as int] == (p, identities[i].1));
            }
        }
        assert forall|k: int| 0 <= k < w.len() implies exists|i: int|
            0 <= i < identities.len() && has_column_at(
                m,
                (#[trigger] identities[i]).0,
                (#[trigger] w[k]).0,
            ) && identities[i].1 == w[k].1 by {
            if k < w0.len() {
                assert(w[k] == w0[k]);
                let i = choose|i: int|
                    0 <= i < before.len() && has_column_at(m, (#[trigger] before[i]).0, w0[k].0)
                        && before[i].1 == w0[k].1;
                assert(identities[i] == before[i]);
            } else {
                assert(has_column_at(m, identities[n].0, w[k].0));
            }
        }
    }
}

/// A volume lacks a side file just where it has an indexed column that its side file, if it has one,
/// does not hold under the index's identity.
pub proof fn volume_lacks_what_is_indexed(v: ColdVolume, identities: Seq<(usize, u64)>)
    ensures
        lacks_side(v, identities) <==> exists|i: int, p: usize|
            0 <= i < identities.len() && #[trigger] has_column_at(
                v.mapping,
                (#[trigger] identities[i]).0,
                p,
            ) && (v.side is None || !(v.side->Some_0)@.contains((p, identities[i].1))),
{
    let wanted = wanted_pairs(v.mapping, identities);
    indexed_columns_are_wanted(v.mapping, identities);
    if lacks_side(v, identities) {
        let k = match v.side {
            Some(side) => choose|k: int|
                0 <= k < wanted.len() && !side@.contains(#[trigger] wanted[k]),
            None => 0,
        };
        let w = wanted[k];
        let i = choose|i: int|
            0 <= i < identities.len() && has_column_at(
                v.mapping,
                (#[trigger] identities[i]).0,
                wanted[k].0,
            ) && identities[i].1 == wanted[k].1;
        assert(w == (w.0, identities[i].1));
        assert(has_column_at(v.mapping, identities[i].0, w.0));
    }
    if exists|i: int, p: usize|
        0 <= i < identities.len() && #[trigger] has_column_at(
            v.mapping,
            (#[trigger] identities[i]).0,
            p,
        ) && (v.side is None || !(v.side->Some_0)@.contains((p, identities[i].1))) {
        let (i, p) = choose|i: int, p: usize|
            0 <= i < identities.len() && #[trigger] has_column_at(
                v.mapping,
                (#[trigger] identities[i]).0,
                p,
            ) && (v.side is None || !(v.side->Some_0)@.contains((p, identities[i].1)));
        assert(wanted.contains((p, identities[i].1)));
        let k = choose|k: int| 0 <= k < wanted.len() && wanted[k] == (p, identities[i].1);
        assert(wanted[k] == (p, identities[i].1));
    }
}

proof fn lemma_lacking_ids(volumes: Seq<ColdVolume>, identities: Seq<(usize, u64)>)
    ensures
        forall|i: int|
            0 <= i < volumes.len() && lacks_side(#[trigger] volumes[i], identities) ==> lacking(
                volumes,
                identities,
            ).contains(volumes[i].id),
        forall|id: u64| #[trigger]
            lacking(volumes, identities).contains(id) ==> exists|i: int|
                0 <= i < volumes.len() && lacks_side(#[trigger] volumes[i], identities)
                    && volumes[i].id == id,
    decreases volumes.len(),
{
    if volumes.len() > 0 {
        let before = volumes.drop_last();
        let n = volumes.len() - 1;
        let l0 = lacking(before, identities);
        let l = lacking(volumes, identities);
        lemma_lacking_ids(before, identities);
        assert forall|i: int|
            0 <= i < volumes.len() && lacks_side(
                #[trigger] volumes[i],
                identities,
            ) implies l.contains(volumes[i].id) by {
            if i < n {
                assert(before[i] == volumes[i]);
                assert(l0.contains(volumes[i].id));
                let k = choose|k: int| 0 <= k < l0.len() && l0[k] == volumes[i].id;
                assert(l[k] == volumes[i].id);
            } else {
                assert(l[l0.len() as int] == volumes[i].id);
            }
        }
        assert forall|id: u64| #[trigger] l.contains(id) implies exists|i: int|
            0 <= i < volumes.len() && lacks_side(#[trigger] volumes[i], identities)
                && volumes[i].id == id by {
            let k = choose|k: int| 0 <= k < l.len() && l[k] == id;
            if k < l0.len() {
                assert(l0[k] == id);
                assert(l0.contains(id));
                let i = choose|i: int|
                    0 <= i < before.len() && lacks_side(#[trigger] before[i], identities)
                        && before[i].id == id;
                assert(volumes[i] == before[i]);
            } else {
                assert(volumes[n].id == id);
            }
        }
    }
}

/// The work on a table is the volumes that lack a side file, and no other, in ascending order.
pub proof fn lacking_volumes_are_worked_on(t: BackfillTable)
    ensures
        forall|i: int|
            0 <= i < t.volumes@.len() && lacks_side(#[trigger] t.volumes@[i], t.identities@)
                ==> candidate_ids(t).contains(t.volumes@[i].id),
        forall|id: u64| #[trigger]
            candidate_ids(t).contains(id) ==> exists|i: int|
                0 <= i < t.volumes@.len() && lacks_side(#[trigger] t.volumes@[i], t.identities@)
                    && t.volumes@[i].id == id,
        forall|i: int, j: int|
            0 <= i < j < candidate_ids(t).len() ==> (#[trigger] candidate_ids(t)[i]) <= (
            #[trigger] candidate_ids(t)[j]),
{
    let ids = lacking(t.volumes@, t.identities@);
    let sorted = candidate_ids(t);
    lemma_lacking_ids(t.volumes@, t.identities@);
    ids.lemma_sort_by_ensures(ascending());
    assert forall|id: u64| sorted.contains(id) <==> ids.contains(id) by {
        broadcast use vstd::seq_lib::group_to_multiset_ensures;

        assert(sorted.to_multiset() =~= ids.to_multiset());
        assert(sorted.contains(id) <==> sorted.to_multiset().count(id) > 0);
        assert(ids.contains(id) <==> ids.to_multiset().count(id) > 0);
    }
    assert forall|i: int, j: int| 0 <= i < j < sorted.len() implies (#[trigger] sorted[i]) <= (
    #[trigger] sorted[j]) by {
        assert(sorted_by(sorted, ascending()));
        assert(ascending()(sorted[i], sorted[j]));
    }
}

/// The work of a pass has every volume of every table that lacks a side file, with the position of
/// its table.
pub proof fn every_table_is_worked_on(tables: Seq<BackfillTable>, t: int, id: u64)
    requires
        tables.len() <= usize::MAX,
        0 <= t < tables.len(),
    ensures
        candidate_ids(tables[t]).contains(id) <==> work_of(tables).contains((t as usize, id)),
    decreases tables.len(),
{
    let before = tables.drop_last();
    let n = tables.len() - 1;
    let w0 = work_of(before);
    let own = at_table(candidate_ids(tables[n]), n);
    let w = work_of(tables);
    assert(w == w0 + own);
    lemma_work_tables(before);
    if t < n {
        assert(before[t] == tables[t]);
        every_table_is_worked_on(before, t, id);
        if w0.contains((t as usize, id)) {
            let k = choose|k: int| 0 <= k < w0.len() && w0[k] == (t as usize, id);
            assert(w[k] == (t as usize, id));
        }
        if w.contains((t as usize, id)) {
            let k = choose|k: int| 0 <= k < w.len() && w[k] == (t as usize, id);
            if k >= w0.len() {
                assert(w[k] == own[k - w0.len()]);
                assert(false);
            }
            assert(w0[k] == (t as usize, id));
        }
    } else {
        let ids = candidate_ids(tables[n]);
        if ids.contains(id) {
            let k = choose|k: int| 0 <= k < ids.len() && ids[k] == id;
            assert(own[k] == (n as usize, id));
            assert(w[w0.len() + k] == (n as usize, id));
        }
        if w.contains((t as usize, id)) {
            let k = choose|k: int| 0 <= k < w.len() && w[k] == (t as usize, id);
            if k < w0.len() {
                assert(w[k] == w0[k]);
                assert(w0[k].0 < before.len());
                assert(false);
            }
            assert(w[k] == own[k - w0.len()]);
            assert(ids[k - w0.len()] == id);
        }
    }
}

proof fn lemma_work_tables(tables: Seq<BackfillTable>)
    requires
        tables.len() <= usize::MAX,
    ensures
        forall|k: int|
            0 <= k < work_of(tables).len() ==> (#[trigger] work_of(tables)[k]).0 < tables.len(),
    decreases tables.len(),
{
    if tables.len() > 0 {
        let before = tables.drop_last();
        lemma_work_tables(before);
        let w0 = work_of(before);
        let own = at_table(candidate_ids(tables.last()), tables.len() - 1);
        assert forall|k: int| 0 <= k < work_of(tables).len() implies (
        #[trigger] work_of(tables)[k]).0 < tables.len() by {
            if k < w0.len() {
                assert(work_of(tables)[k] == w0[k]);
            } else {
                assert(work_of(tables)[k] == own[k - w0.len()]);
            }
        }
    }
}

proof fn lemma_done_front(
    work: Seq<(usize, u64)>,
    names: Seq<Seq<char>>,
    cursor: (Seq<char>, u64),
)
    ensures
        done_count(work, names, cursor) <= work.len(),
        forall|i: int|
            0 <= i < done_count(work, names, cursor) ==> not_after(
                names[(#[trigger] work[i]).0 as int],
                work[i].1,
                cursor,
            ),
        done_count(work, names, cursor) < work.len() ==> !not_after(
            names[work[done_count(work, names, cursor) as int].0 as int],
            work[done_count(work, names, cursor) as int].1,
            cursor,
        ),
    decreases work.len(),
{
    if work.len() > 0 && not_after(names[work[0].0 as int], work[0].1, cursor) {
        let rest = work.skip(1);
        lemma_done_front(rest, names, cursor);
        let n = done_count(work, names, cursor);
        assert forall|i: int| 0 <= i < n implies not_after(
            names[(#[trigger] work[i]).0 as int],
            work[i].1,
            cursor,
        ) by {
            if i > 0 {
                assert(rest[i - 1] == work[i]);
            }
        }
        if n < work.len() {
            assert(rest[n - 1] == work[n as int]);
        }
    }
}

/// A pass goes through all of its work: what stands behind the cursor first, then what was passed
/// over at the front; each volume once, and in its order. It begins with a volume of a later table
/// than the cursor's, or of the same table and a larger identity; without a cursor, with the first.
pub proof fn pass_begins_behind_the_cursor(
    work: Seq<(usize, u64)>,
    names: Seq<Seq<char>>,
    cursor: (Seq<char>, u64),
)
    ensures
        work_from(work, names, None) == work,
        exists|at: int|
            0 <= at <= work.len() && #[trigger] work.skip(at) + work.take(at) == work_from(
                work,
                names,
                Some(cursor),
            ) && (at < work.len() ==> {
                let name = names[work[at].0 as int];
                ||| name == cursor.0 && work[at].1 > cursor.1
                ||| name != cursor.0 && !text_le(name, cursor.0)
            }) && forall|i: int|
                0 <= i < at ==> {
                    let name = names[(#[trigger] work[i]).0 as int];
                    ||| name == cursor.0 && work[i].1 <= cursor.1
                    ||| name != cursor.0 && text_le(name, cursor.0)
                },
{
    lemma_done_front(work, names, cursor);
    let at = done_count(work, names, cursor) as int;
    assert(work.skip(at) + work.take(at) == work_from(work, names, Some(cursor)));
    assert forall|i: int| 0 <= i < at implies {
        let name = names[(#[trigger] work[i]).0 as int];
        ||| name == cursor.0 && work[i].1 <= cursor.1
        ||| name != cursor.0 && text_le(name, cursor.0)
    } by {
        assert(not_after(names[work[i].0 as int], work[i].1, cursor));
    }
}

/// A side file has all that is wanted just where each wanted pair is one of its own.
pub proof fn side_file_has_each(side: Seq<(usize, u64)>, wanted: Seq<(usize, u64)>)
    ensures
        has_all(side, wanted) <==> forall|w: (usize, u64)| #[trigger]
            wanted.contains(w) ==> side.contains(w),
{
    if has_all(side, wanted) {
        assert forall|w: (usize, u64)| #[trigger] wanted.contains(w) implies side.contains(w) by {
            let k = choose|k: int| 0 <= k < wanted.len() && wanted[k] == w;
            assert(side.contains(wanted[k]));
        }
    }
    if forall|w: (usize, u64)| #[trigger] wanted.contains(w) ==> side.contains(w) {
        assert forall|i: int| 0 <= i < wanted.len() implies side.contains(#[trigger] wanted[i]) by {
            assert(wanted.contains(wanted[i]));
        }
    }
}

} // verus!
