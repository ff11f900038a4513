//! The rows that a compaction carries over from a batch of volumes.

use crate::key_order::{
    in_key_order, is_permutation, lemma_reordered, orders_by_key, place_ids, reordered,
};
use crate::live_rows::{
    RowPlace, is_live, is_place, lists_live, live_rows, place_before, tombstoned, volume_views,
};
use crate::row_set::new_row_set;
use rustc_hash::FxHashMap;
use vstd::prelude::*;

verus! {

/// Calls `<[RowPlace]>::sort_unstable_by_key` by the row's identity: the same places in the order of
/// their rows.
#[verifier::external_body]
pub(crate) fn sort_places(refs: &mut Vec<RowPlace>)
    ensures
        final(refs)@.to_multiset() == old(refs)@.to_multiset(),
        forall|i: int, j: int|
            0 <= i < j < final(refs)@.len() ==> (#[trigger] final(refs)@[i]).0 <= (
            #[trigger] final(refs)@[j]).0,
{
    refs.sort_unstable_by_key(|r| r.0)
}

/// Whether `refs` has the live rows of volumes, newest volume first, each once and in the order of
/// their identities.
pub open spec fn is_merge(
    refs: Seq<RowPlace>,
    volumes: Seq<Seq<i64>>,
    tombstones: Map<i64, u64>,
    limit: Option<u64>,
) -> bool {
    &&& forall|k: int|
        0 <= k < refs.len() ==> is_live(
            volumes,
            Set::empty(),
            tombstones,
            limit,
            (#[trigger] refs[k]).1 as int,
            refs[k].2 as int,
        ) && refs[k].0 == volumes[refs[k].1 as int][refs[k].2 as int]
    &&& forall|w: int, j: int| #[trigger]
        is_live(volumes, Set::empty(), tombstones, limit, w, j) ==> exists|k: int|
            0 <= k < refs.len() && (#[trigger] refs[k]).1 == w && refs[k].2 == j
    &&& forall|i: int, j: int|
        0 <= i < j < refs.len() ==> (#[trigger] refs[i]).0 < (#[trigger] refs[j]).0
}

/// The live rows of the volumes of a batch, newest volume first, in the order of their rows.
pub fn merged_rows(
    volumes: &[&[i64]],
    tombstones: &FxHashMap<i64, u64>,
    limit: Option<u64>,
) -> (refs: Vec<RowPlace>)
    ensures
        is_merge(refs@, volume_views(volumes@), tombstones@, limit),
{
    let covered = new_row_set();
    let mut refs = live_rows(volumes, &covered, tombstones, limit);
    let ghost live = refs@;
    sort_places(&mut refs);
    proof {
        lemma_sorted_live(live, refs@, volume_views(volumes@), tombstones@, limit);
    }
    refs
}

proof fn lemma_sorted_live(
    live: Seq<RowPlace>,
    refs: Seq<RowPlace>,
    volumes: Seq<Seq<i64>>,
    tombstones: Map<i64, u64>,
    limit: Option<u64>,
)
    requires
        lists_live(live, volumes, Set::empty(), tombstones, limit, volumes.len() as int, 0),
        refs.to_multiset() == live.to_multiset(),
        forall|i: int, j: int|
            0 <= i < j < refs.len() ==> (#[trigger] refs[i]).0 <= (#[trigger] refs[j]).0,
    ensures
        is_merge(refs, volumes, tombstones, limit),
{
    live.to_multiset_ensures();
    refs.to_multiset_ensures();
    assert(live.no_duplicates());
    live.lemma_multiset_has_no_duplicates();
    refs.lemma_multiset_has_no_duplicates_conv();
    assert forall|k: int| 0 <= k < refs.len() implies is_live(
        volumes,
        Set::empty(),
        tombstones,
        limit,
        (#[trigger] refs[k]).1 as int,
        refs[k].2 as int,
    ) && refs[k].0 == volumes[refs[k].1 as int][refs[k].2 as int] by {
        assert(refs.contains(refs[k]));
        assert(live.to_multiset().count(refs[k]) > 0);
        let m = choose|m: int| 0 <= m < live.len() && live[m] == refs[k];
        assert(live[m] == refs[k]);
    }
    assert forall|w: int, j: int| #[trigger]
        is_live(volumes, Set::empty(), tombstones, limit, w, j) implies exists|k: int|
        0 <= k < refs.len() && (#[trigger] refs[k]).1 == w && refs[k].2 == j by {
        let m = choose|m: int|
            0 <= m < live.len() && (#[trigger] live[m]).1 == w && live[m].2 == j;
        assert(live.contains(live[m]));
        assert(refs.to_multiset().count(live[m]) > 0);
        let k = choose|k: int| 0 <= k < refs.len() && refs[k] == live[m];
        assert(refs[k].1 == w && refs[k].2 == j);
    }
    assert forall|i: int, j: int| 0 <= i < j < refs.len() implies (#[trigger] refs[i]).0 < (
    #[trigger] refs[j]).0 by {
        if refs[i].0 == refs[j].0 {
            let (a, b) = ((refs[i].1 as int, refs[i].2 as int), (refs[j].1 as int, refs[j].2 as int));
            assert(volumes[a.0][a.1] == volumes[b.0][b.1]);
            assert(place_before(a.0, a.1, b.0, b.1) || place_before(b.0, b.1, a.0, a.1));
        }
    }
}

// ---------------------------------------------------------------------------
// In the order of the manifest
// ---------------------------------------------------------------------------

/// Whether the members of a batch are positions of so many volumes, in the order of the manifest.
pub open spec fn are_members(members: Seq<usize>, volumes: nat) -> bool {
    &&& forall|k: int| 0 <= k < members.len() ==> #[trigger] members[k] < volumes
    &&& forall|i: int, j: int|
        0 <= i < j < members.len() ==> #[trigger] members[i] < #[trigger] members[j]
}

/// Whether the volume at position `p` is a member and holds a row at `j`.
pub open spec fn holds_row(members: Seq<usize>, volumes: Seq<Seq<i64>>, p: int, j: int) -> bool {
    &&& exists|k: int| 0 <= k < members.len() && #[trigger] members[k] == p
    &&& 0 <= j < volumes[p].len()
}

/// Whether the row at the place `j` of the volume at position `p` is carried over: the volume is a
/// member of the batch, no tombstone that may be applied marks the row, and no later member of the
/// manifest holds it, nor the same volume at an earlier place.
pub open spec fn is_carried(
    members: Seq<usize>,
    volumes: Seq<Seq<i64>>,
    tombstones: Map<i64, u64>,
    limit: Option<u64>,
    p: int,
    j: int,
) -> bool {
    &&& holds_row(members, volumes, p, j)
    &&& !tombstoned(tombstones, limit, volumes[p][j])
    &&& forall|q: int, i: int|
        holds_row(members, volumes, q, i) && (q > p || (q == p && i < j)) ==> #[trigger] volumes[q][i]
            != volumes[p][j]
}

/// Whether `refs` has the rows that are carried over from a batch, each with its volume's position in
/// the manifest, in whatever order.
pub open spec fn carries_batch(
    refs: Seq<RowPlace>,
    members: Seq<usize>,
    volumes: Seq<Seq<i64>>,
    tombstones: Map<i64, u64>,
    limit: Option<u64>,
) -> bool {
    &&& forall|k: int|
        0 <= k < refs.len() ==> is_carried(
            members,
            volumes,
            tombstones,
            limit,
            (#[trigger] refs[k]).1 as int,
            refs[k].2 as int,
        ) && refs[k].0 == volumes[refs[k].1 as int][refs[k].2 as int]
    &&& forall|p: int, j: int| #[trigger]
        is_carried(members, volumes, tombstones, limit, p, j) ==> exists|k: int|
            0 <= k < refs.len() && (#[trigger] refs[k]).1 == p && refs[k].2 == j
    &&& forall|i: int, j: int|
        0 <= i < j < refs.len() ==> (#[trigger] refs[i]).0 != (#[trigger] refs[j]).0
}

/// Whether `refs` has the rows that are carried over from a batch, in the order of the rows'
/// identities.
pub open spec fn merges_batch(
    refs: Seq<RowPlace>,
    members: Seq<usize>,
    volumes: Seq<Seq<i64>>,
    tombstones: Map<i64, u64>,
    limit: Option<u64>,
) -> bool {
    &&& carries_batch(refs, members, volumes, tombstones, limit)
    &&& forall|i: int, j: int|
        0 <= i < j < refs.len() ==> (#[trigger] refs[i]).0 < (#[trigger] refs[j]).0
}

/// The members of a batch, newest first.
spec fn newest_first(members: Seq<usize>, volumes: Seq<Seq<i64>>) -> Seq<Seq<i64>> {
    Seq::new(members.len(), |v: int| volumes[members[members.len() - 1 - v] as int])
}

/// The rows that are carried over from a batch. `volumes` has the rows of the table's volumes in the
/// order of the manifest, in which the newest is last and takes precedence; of those outside the
/// batch nothing is read.
pub fn merge_batch(
    members: &[usize],
    volumes: &[&[i64]],
    tombstones: &FxHashMap<i64, u64>,
    limit: Option<u64>,
) -> (refs: Vec<RowPlace>)
    requires
        are_members(members@, volumes@.len()),
    ensures
        merges_batch(refs@, members@, volume_views(volumes@), tombstones@, limit),
{
    let ghost views = volume_views(volumes@);
    let n: usize = members.len();
    let mut batch: Vec<&[i64]> = Vec::new();
    while batch.len() < n
        invariant
            n == members@.len(),
            batch@.len() <= n,
            are_members(members@, volumes@.len()),
            forall|v: int|
                0 <= v < batch@.len() ==> (#[trigger] batch@[v])@ == volumes@[members@[n - 1
                    - v] as int]@,
        decreases n - batch@.len(),
    {
        let p: usize = members[n - 1 - batch.len()];
        batch.push(volumes[p]);
    }
    let newest = merged_rows(batch.as_slice(), tombstones, limit);
    assert(volume_views(batch@) =~= newest_first(members@, views));
    let mut refs: Vec<RowPlace> = Vec::new();
    while refs.len() < newest.len()
        invariant
            n == members@.len(),
            batch@.len() == n,
            views == volume_views(volumes@),
            are_members(members@, volumes@.len()),
            volume_views(batch@) == newest_first(members@, views),
            is_merge(newest@, newest_first(members@, views), tombstones@, limit),
            refs@.len() <= newest@.len(),
            forall|k: int|
                0 <= k < refs@.len() ==> is_place_of(#[trigger] refs@[k], newest@[k], members@),
        decreases newest@.len() - refs@.len(),
    {
        let (row_id, v, i) = newest[refs.len()];
        refs.push((row_id, members[n - 1 - v], i));
    }
    proof {
        lemma_batch_is_merged(newest@, refs@, members@, views, tombstones@, limit);
    }
    refs
}

/// Whether `r` is the place `s` of a batch, newest first, with the position in the manifest.
spec fn is_place_of(r: RowPlace, s: RowPlace, members: Seq<usize>) -> bool {
    &&& r.0 == s.0
    &&& s.1 < members.len()
    &&& r.1 == members[members.len() - 1 - s.1]
    &&& r.2 == s.2
}

/// A place of a batch, newest first, holds a live row where the place in the manifest is carried
/// over.
proof fn lemma_live_is_carried(
    members: Seq<usize>,
    volumes: Seq<Seq<i64>>,
    tombstones: Map<i64, u64>,
    limit: Option<u64>,
    v: int,
    j: int,
)
    requires
        are_members(members, volumes.len()),
        0 <= v < members.len(),
    ensures
        is_live(newest_first(members, volumes), Set::empty(), tombstones, limit, v, j) <==> is_carried(
            members,
            volumes,
            tombstones,
            limit,
            members[members.len() - 1 - v] as int,
            j,
        ),
{
    let n = members.len();
    let batch = newest_first(members, volumes);
    let p = members[n - 1 - v] as int;
    assert(batch[v] == volumes[p]);
    if is_live(batch, Set::empty(), tombstones, limit, v, j) {
        assert forall|q: int, i: int|
            holds_row(members, volumes, q, i) && (q > p || (q == p && i < j)) implies #[trigger] volumes[q][i]
            != volumes[p][j] by {
            let k = choose|k: int| 0 <= k < members.len() && #[trigger] members[k] == q;
            assert(k >= n - 1 - v);
            assert(batch[n - 1 - k] == volumes[q]);
            assert(is_place(batch, n - 1 - k, i));
            assert(batch[n - 1 - k][i] != batch[v][j]);
        }
    }
    if is_carried(members, volumes, tombstones, limit, p, j) {
        assert forall|w: int, i: int|
            is_place(batch, w, i) && place_before(w, i, v, j) implies #[trigger] batch[w][i]
            != batch[v][j] by {
            let q = members[n - 1 - w] as int;
            assert(holds_row(members, volumes, q, i));
            assert(volumes[q][i] != volumes[p][j]);
        }
    }
}

proof fn lemma_batch_is_merged(
    newest: Seq<RowPlace>,
    refs: Seq<RowPlace>,
    members: Seq<usize>,
    volumes: Seq<Seq<i64>>,
    tombstones: Map<i64, u64>,
    limit: Option<u64>,
)
    requires
        are_members(members, volumes.len()),
        is_merge(newest, newest_first(members, volumes), tombstones, limit),
        refs.len() == newest.len(),
        forall|k: int|
            0 <= k < refs.len() ==> is_place_of(#[trigger] refs[k], newest[k], members),
    ensures
        merges_batch(refs, members, volumes, tombstones, limit),
{
    let n = members.len();
    let batch = newest_first(members, volumes);
    assert forall|k: int| 0 <= k < refs.len() implies is_carried(
        members,
        volumes,
        tombstones,
        limit,
        (#[trigger] refs[k]).1 as int,
        refs[k].2 as int,
    ) && refs[k].0 == volumes[refs[k].1 as int][refs[k].2 as int] by {
        let s = newest[k];
        assert(is_live(batch, Set::empty(), tombstones, limit, s.1 as int, s.2 as int));
        lemma_live_is_carried(members, volumes, tombstones, limit, s.1 as int, s.2 as int);
    }
    assert forall|p: int, j: int| #[trigger]
        is_carried(members, volumes, tombstones, limit, p, j) implies exists|k: int|
        0 <= k < refs.len() && (#[trigger] refs[k]).1 == p && refs[k].2 == j by {
        let m = choose|m: int| 0 <= m < members.len() && #[trigger] members[m] == p;
        lemma_live_is_carried(members, volumes, tombstones, limit, n - 1 - m, j);
        let k = choose|k: int|
            0 <= k < newest.len() && (#[trigger] newest[k]).1 == n - 1 - m && newest[k].2 == j;
        assert(is_place_of(refs[k], newest[k], members));
    }
    assert forall|i: int, j: int| 0 <= i < j < refs.len() implies (#[trigger] refs[i]).0 < (
    #[trigger] refs[j]).0 by {
        assert(newest[i].0 < newest[j].0);
    }
}

// ---------------------------------------------------------------------------
// Laws
// ---------------------------------------------------------------------------

/// The newest place of a row that a batch holds at `(p, j)`.
proof fn lemma_newest_place(
    members: Seq<usize>,
    volumes: Seq<Seq<i64>>,
    p: int,
    j: int,
) -> (r: (int, int))
    requires
        are_members(members, volumes.len()),
        holds_row(members, volumes, p, j),
    ensures
        holds_row(members, volumes, r.0, r.1),
        volumes[r.0][r.1] == volumes[p][j],
        forall|q: int, i: int|
            holds_row(members, volumes, q, i) && (q > r.0 || (q == r.0 && i < r.1))
                ==> #[trigger] volumes[q][i] != volumes[p][j],
    decreases volumes.len() - p, j,
{
    if exists|q: int, i: int|
        holds_row(members, volumes, q, i) && (q > p || (q == p && i < j)) && #[trigger] volumes[q][i]
            == volumes[p][j] {
        let (q, i) = choose|q: int, i: int|
            holds_row(members, volumes, q, i) && (q > p || (q == p && i < j))
                && #[trigger] volumes[q][i] == volumes[p][j];
        lemma_newest_place(members, volumes, q, i)
    } else {
        (p, j)
    }
}

/// A compaction keeps every row of its batch that no tombstone that may be applied marks, once, and
/// takes it from the newest volume that holds it: any other volume of the batch with the row stands
/// earlier in the manifest.
pub proof fn newest_copy_is_carried(
    refs: Seq<RowPlace>,
    members: Seq<usize>,
    volumes: Seq<Seq<i64>>,
    tombstones: Map<i64, u64>,
    limit: Option<u64>,
    p: int,
    j: int,
)
    requires
        are_members(members, volumes.len()),
        carries_batch(refs, members, volumes, tombstones, limit),
        holds_row(members, volumes, p, j),
    ensures
        (exists|k: int| 0 <= k < refs.len() && (#[trigger] refs[k]).0 == volumes[p][j])
            <==> !tombstoned(tombstones, limit, volumes[p][j]),
        forall|k: int|
            0 <= k < refs.len() && (#[trigger] refs[k]).0 == volumes[p][j] ==> refs[k].1 >= p,
{
    let x = volumes[p][j];
    if !tombstoned(tombstones, limit, x) {
        let (q, i) = lemma_newest_place(members, volumes, p, j);
        assert(is_carried(members, volumes, tombstones, limit, q, i));
        let k = choose|k: int|
            0 <= k < refs.len() && (#[trigger] refs[k]).1 == q && refs[k].2 == i;
        assert(refs[k].0 == x);
    }
    assert forall|k: int| 0 <= k < refs.len() && (#[trigger] refs[k]).0 == x implies refs[k].1 >= p by {
        let r = refs[k];
        assert(is_carried(members, volumes, tombstones, limit, r.1 as int, r.2 as int));
        if r.1 < p {
            assert(volumes[p][j] != volumes[r.1 as int][r.2 as int]);
        }
    }
}

/// Rows that are put in the order of a clustering key are those that were carried over, each once.
pub proof fn clustering_keeps_the_rows(
    refs: Seq<RowPlace>,
    r: Seq<RowPlace>,
    ranks: Seq<Seq<u64>>,
    members: Seq<usize>,
    volumes: Seq<Seq<i64>>,
    tombstones: Map<i64, u64>,
    limit: Option<u64>,
)
    requires
        carries_batch(refs, members, volumes, tombstones, limit),
        orders_by_key(r, refs, place_ids(refs), ranks),
        refs.len() <= usize::MAX,
    ensures
        carries_batch(r, members, volumes, tombstones, limit),
{
    let order = choose|order: Seq<usize>|
        #![trigger reordered(refs, order)]
        is_permutation(order, refs.len()) && in_key_order(order, place_ids(refs), ranks) && r
            == reordered(refs, order);
    lemma_reordered(refs, order);
    r.to_multiset_ensures();
    refs.to_multiset_ensures();
    assert forall|k: int| 0 <= k < r.len() implies is_carried(
        members,
        volumes,
        tombstones,
        limit,
        (#[trigger] r[k]).1 as int,
        r[k].2 as int,
    ) && r[k].0 == volumes[r[k].1 as int][r[k].2 as int] by {
        assert(r[k] == refs[order[k] as int]);
    }
    assert forall|p: int, j: int| #[trigger]
        is_carried(members, volumes, tombstones, limit, p, j) implies exists|k: int|
        0 <= k < r.len() && (#[trigger] r[k]).1 == p && r[k].2 == j by {
        let m = choose|m: int| 0 <= m < refs.len() && (#[trigger] refs[m]).1 == p && refs[m].2 == j;
        assert(refs.contains(refs[m]));
        assert(r.to_multiset().count(refs[m]) > 0);
        let k = choose|k: int| 0 <= k < r.len() && r[k] == refs[m];
        assert(r[k].1 == p && r[k].2 == j);
    }
    assert forall|i: int, j: int| 0 <= i < j < r.len() implies (#[trigger] r[i]).0 != (
    #[trigger] r[j]).0 by {
        assert(order[i] != order[j]);
        let (a, b) = (order[i] as int, order[j] as int);
        assert(r[i] == refs[a] && r[j] == refs[b]);
        if a < b {
            assert(refs[a].0 != refs[b].0);
        } else {
            assert(refs[b].0 != refs[a].0);
        }
    }
}

} // verus!
