//! Which rows of a run of volumes are live.
//!
//! Volumes are taken newest first. A row is live where it occurs first, unless a newer copy outside
//! the volumes covers it or a tombstone that may be applied marks it.

use crate::row_set::{contains_row, get_row_value, insert_row, new_row_set};
use rustc_hash::{FxHashMap, FxHashSet};
use vstd::prelude::*;

verus! {

/// A row in a run of volumes: its identity, the volume's position, and the row's position in it.
pub type RowPlace = (i64, usize, usize);

/// Whether the tombstone of `row_id` may be applied: there is one, and it was committed before the
/// oldest snapshot, if there is a snapshot.
pub open spec fn tombstoned(tombstones: Map<i64, u64>, limit: Option<u64>, row_id: i64) -> bool {
    &&& tombstones.contains_key(row_id)
    &&& match limit {
        Some(l) => tombstones[row_id] < l,
        None => true,
    }
}

/// Whether the place `(v, i)` stands before the place `(w, j)`.
pub open spec fn place_before(v: int, i: int, w: int, j: int) -> bool {
    v < w || (v == w && i < j)
}

/// Whether `(v, i)` is a place in the volumes.
pub open spec fn is_place(volumes: Seq<Seq<i64>>, v: int, i: int) -> bool {
    0 <= v < volumes.len() && 0 <= i < volumes[v].len()
}

/// Whether the place `(v, i)` holds a live row: no earlier place holds it, nothing outside the
/// volumes covers it, and no tombstone that may be applied marks it.
pub open spec fn is_live(
    volumes: Seq<Seq<i64>>,
    covered: Set<i64>,
    tombstones: Map<i64, u64>,
    limit: Option<u64>,
    v: int,
    i: int,
) -> bool {
    &&& is_place(volumes, v, i)
    &&& !covered.contains(volumes[v][i])
    &&& !tombstoned(tombstones, limit, volumes[v][i])
    &&& forall|w: int, j: int|
        is_place(volumes, w, j) && place_before(w, j, v, i) ==> #[trigger] volumes[w][j]
            != volumes[v][i]
}

/// Whether `refs` lists the live rows before the place `(v, i)`, in the order of their places.
pub open spec fn lists_live(
    refs: Seq<RowPlace>,
    volumes: Seq<Seq<i64>>,
    covered: Set<i64>,
    tombstones: Map<i64, u64>,
    limit: Option<u64>,
    v: int,
    i: int,
) -> bool {
    &&& forall|k: int|
        0 <= k < refs.len() ==> is_live(
            volumes,
            covered,
            tombstones,
            limit,
            (#[trigger] refs[k]).1 as int,
            refs[k].2 as int,
        ) && place_before(refs[k].1 as int, refs[k].2 as int, v, i) && refs[k].0
            == volumes[refs[k].1 as int][refs[k].2 as int]
    &&& forall|k: int, m: int|
        0 <= k < m < refs.len() ==> place_before(
            (#[trigger] refs[k]).1 as int,
            refs[k].2 as int,
            (#[trigger] refs[m]).1 as int,
            refs[m].2 as int,
        )
    &&& forall|w: int, j: int|
        place_before(w, j, v, i) && #[trigger] is_live(
            volumes,
            covered,
            tombstones,
            limit,
            w,
            j,
        ) ==> exists|k: int| 0 <= k < refs.len() && (#[trigger] refs[k]).1 == w && refs[k].2 == j
}

/// Whether the tombstone of `row_id` may be applied.
pub fn is_tombstoned(tombstones: &FxHashMap<i64, u64>, limit: Option<u64>, row_id: i64) -> (r: bool)
    ensures
        r == tombstoned(tombstones@, limit, row_id),
{
    match get_row_value(tombstones, row_id) {
        Some(seq) => match limit {
            Some(l) => seq < l,
            None => true,
        },
        None => false,
    }
}

/// The views of a list of volumes' rows.
pub open spec fn volume_views(volumes: Seq<&[i64]>) -> Seq<Seq<i64>> {
    volumes.map_values(|v: &[i64]| v@)
}

/// Whether `seen` is `covered` and the rows of `refs`.
spec fn seen_so_far(seen: Set<i64>, covered: Set<i64>, refs: Seq<RowPlace>) -> bool {
    forall|x: i64| #[trigger]
        seen.contains(x) <==> covered.contains(x) || exists|k: int|
            0 <= k < refs.len() && (#[trigger] refs[k]).0 == x
}

proof fn lemma_seen_iff_earlier(
    refs: Seq<RowPlace>,
    volumes: Seq<Seq<i64>>,
    covered: Set<i64>,
    tombstones: Map<i64, u64>,
    limit: Option<u64>,
    v: int,
    i: int,
    seen: Set<i64>,
)
    requires
        is_place(volumes, v, i),
        lists_live(refs, volumes, covered, tombstones, limit, v, i),
        seen_so_far(seen, covered, refs),
        !tombstoned(tombstones, limit, volumes[v][i]),
    ensures
        seen.contains(volumes[v][i]) == !is_live(volumes, covered, tombstones, limit, v, i),
{
    let x = volumes[v][i];
    if seen.contains(x) && !covered.contains(x) {
        let k = choose|k: int| 0 <= k < refs.len() && (#[trigger] refs[k]).0 == x;
        assert(volumes[refs[k].1 as int][refs[k].2 as int] == x);
    }
    if !seen.contains(x) {
        assert forall|w: int, j: int|
            is_place(volumes, w, j) && place_before(w, j, v, i) implies #[trigger] volumes[w][j]
            != x by {
            if volumes[w][j] == x {
                let (fw, fj) = lemma_first_place(volumes, x, w, j);
                assert(is_live(volumes, covered, tombstones, limit, fw, fj));
                let k = choose|k: int|
                    0 <= k < refs.len() && (#[trigger] refs[k]).1 == fw && refs[k].2 == fj;
                assert(refs[k].0 == x);
            }
        }
    }
}

/// The first place of a row that occurs at `(w, j)`.
proof fn lemma_first_place(volumes: Seq<Seq<i64>>, x: i64, w: int, j: int) -> (r: (int, int))
    requires
        is_place(volumes, w, j),
        volumes[w][j] == x,
    ensures
        is_place(volumes, r.0, r.1),
        volumes[r.0][r.1] == x,
        r == (w, j) || place_before(r.0, r.1, w, j),
        forall|a: int, b: int|
            is_place(volumes, a, b) && place_before(a, b, r.0, r.1) ==> #[trigger] volumes[a][b]
                != x,
    decreases w, j,
{
    if exists|a: int, b: int|
        is_place(volumes, a, b) && place_before(a, b, w, j) && #[trigger] volumes[a][b] == x {
        let (a, b) = choose|a: int, b: int|
            is_place(volumes, a, b) && place_before(a, b, w, j) && #[trigger] volumes[a][b] == x;
        lemma_first_place(volumes, x, a, b)
    } else {
        (w, j)
    }
}

/// The live rows of volumes, newest volume first, in the order of their places. `covered` holds the
/// rows of which a newer copy is elsewhere.
pub fn live_rows(
    volumes: &[&[i64]],
    covered: &FxHashSet<i64>,
    tombstones: &FxHashMap<i64, u64>,
    limit: Option<u64>,
) -> (refs: Vec<RowPlace>)
    ensures
        lists_live(
            refs@,
            volume_views(volumes@),
            covered@,
            tombstones@,
            limit,
            volumes@.len() as int,
            0,
        ),
{
    let ghost views = volume_views(volumes@);
    let ghost cov = covered@;
    let ghost ts = tombstones@;
    let mut seen = new_row_set();
    let mut refs: Vec<RowPlace> = Vec::new();
    let mut v: usize = 0;
    while v < volumes.len()
        invariant
            v <= volumes@.len(),
            views == volume_views(volumes@),
            cov == covered@,
            ts == tombstones@,
            lists_live(refs@, views, cov, ts, limit, v as int, 0),
            seen_so_far(seen@.union(cov), cov, refs@),
        decreases volumes@.len() - v,
    {
        let volume = volumes[v];
        assert(views[v as int] == volume@);
        let mut i: usize = 0;
        while i < volume.len()
            invariant
                v < volumes@.len(),
                i <= volume@.len(),
                volume@ == views[v as int],
                views == volume_views(volumes@),
                cov == covered@,
                ts == tombstones@,
                lists_live(refs@, views, cov, ts, limit, v as int, i as int),
                seen_so_far(seen@.union(cov), cov, refs@),
            decreases volume@.len() - i,
        {
            let row_id: i64 = volume[i];
            let ghost before = refs@;
            let ghost seen_before = seen@;
            assert(is_place(views, v as int, i as int));
            if !is_tombstoned(tombstones, limit, row_id) {
                proof {
                    lemma_seen_iff_earlier(
                        refs@,
                        views,
                        cov,
                        ts,
                        limit,
                        v as int,
                        i as int,
                        seen@.union(cov),
                    );
                }
                if !contains_row(covered, row_id) && insert_row(&mut seen, row_id) {
                    assert(is_live(views, cov, ts, limit, v as int, i as int));
                    refs.push((row_id, v, i));
                    proof {
                        lemma_push_live(
                            before,
                            views,
                            cov,
                            ts,
                            limit,
                            v as int,
                            i as int,
                            (row_id, v, i),
                        );
                        assert(seen_so_far(seen@.union(cov), cov, refs@)) by {
                            assert forall|x: i64| #[trigger] seen@.union(cov).contains(x) <==> cov.contains(x)
                                || exists|k: int| 0 <= k < refs@.len() && (#[trigger] refs@[k]).0 == x by {
                                assert(seen@ == seen_before.insert(row_id));
                                if seen_before.union(cov).contains(x) && !cov.contains(x) {
                                    let k = choose|k: int|
                                        0 <= k < before.len() && (#[trigger] before[k]).0 == x;
                                    assert(refs@[k].0 == x);
                                }
                                if x == row_id {
                                    assert(refs@[before.len() as int].0 == x);
                                }
                                if exists|k: int| 0 <= k < refs@.len() && (#[trigger] refs@[k]).0 == x {
                                    let k = choose|k: int|
                                        0 <= k < refs@.len() && (#[trigger] refs@[k]).0 == x;
                                    if k < before.len() {
                                        assert(before[k].0 == x);
                                        assert(seen_before.union(cov).contains(x));
                                    }
                                }
                            }
                        }
                    }
                } else {
                    assert(seen@.union(cov) =~= seen_before.union(cov));
                    assert(!is_live(views, cov, ts, limit, v as int, i as int));
                    proof {
                        lemma_skip_place(refs@, views, cov, ts, limit, v as int, i as int);
                    }
                }
            } else {
                proof {
                    lemma_skip_place(refs@, views, cov, ts, limit, v as int, i as int);
                }
            }
            i = i + 1;
        }
        proof {
            lemma_next_volume(refs@, views, cov, ts, limit, v as int, i as int);
        }
        v = v + 1;
    }
    refs
}

proof fn lemma_push_live(
    refs: Seq<RowPlace>,
    volumes: Seq<Seq<i64>>,
    covered: Set<i64>,
    tombstones: Map<i64, u64>,
    limit: Option<u64>,
    v: int,
    i: int,
    place: RowPlace,
)
    requires
        lists_live(refs, volumes, covered, tombstones, limit, v, i),
        is_live(volumes, covered, tombstones, limit, v, i),
        place.0 == volumes[v][i],
        place.1 == v,
        place.2 == i,
    ensures
        lists_live(refs.push(place), volumes, covered, tombstones, limit, v, i + 1),
{
    let more = refs.push(place);
    assert forall|w: int, j: int|
        place_before(w, j, v, i + 1) && #[trigger] is_live(
            volumes,
            covered,
            tombstones,
            limit,
            w,
            j,
        ) implies exists|k: int| 0 <= k < more.len() && (#[trigger] more[k]).1 == w && more[k].2
        == j by {
        if place_before(w, j, v, i) {
            let k = choose|k: int|
                0 <= k < refs.len() && (#[trigger] refs[k]).1 == w && refs[k].2 == j;
            assert(more[k].1 == w && more[k].2 == j);
        } else {
            assert(more[refs.len() as int].1 == w);
        }
    }
}

proof fn lemma_skip_place(
    refs: Seq<RowPlace>,
    volumes: Seq<Seq<i64>>,
    covered: Set<i64>,
    tombstones: Map<i64, u64>,
    limit: Option<u64>,
    v: int,
    i: int,
)
    requires
        lists_live(refs, volumes, covered, tombstones, limit, v, i),
        !is_live(volumes, covered, tombstones, limit, v, i),
    ensures
        lists_live(refs, volumes, covered, tombstones, limit, v, i + 1),
{
}

proof fn lemma_next_volume(
    refs: Seq<RowPlace>,
    volumes: Seq<Seq<i64>>,
    covered: Set<i64>,
    tombstones: Map<i64, u64>,
    limit: Option<u64>,
    v: int,
    i: int,
)
    requires
        lists_live(refs, volumes, covered, tombstones, limit, v, i),
        0 <= v < volumes.len(),
        i == volumes[v].len(),
    ensures
        lists_live(refs, volumes, covered, tombstones, limit, v + 1, 0),
{
    assert forall|w: int, j: int|
        place_before(w, j, v + 1, 0) && #[trigger] is_live(
            volumes,
            covered,
            tombstones,
            limit,
            w,
            j,
        ) implies place_before(w, j, v, i) by {}
}

/// Every row of the volumes that nothing covers and no tombstone that may be applied marks is live
/// at exactly one place, and that place is its first; no other row is live.
pub proof fn each_row_is_live_once(
    refs: Seq<RowPlace>,
    volumes: Seq<Seq<i64>>,
    covered: Set<i64>,
    tombstones: Map<i64, u64>,
    limit: Option<u64>,
    v: int,
    i: int,
)
    requires
        lists_live(refs, volumes, covered, tombstones, limit, volumes.len() as int, 0),
        is_place(volumes, v, i),
    ensures
        ({
            let x = volumes[v][i];
            (exists|k: int| 0 <= k < refs.len() && (#[trigger] refs[k]).0 == x) <==> !covered.contains(x)
                && !tombstoned(tombstones, limit, x)
        }),
        forall|k: int, m: int|
            0 <= k < m < refs.len() ==> (#[trigger] refs[k]).0 != (#[trigger] refs[m]).0,
{
    let x = volumes[v][i];
    if !covered.contains(x) && !tombstoned(tombstones, limit, x) {
        let (fv, fi) = lemma_first_place(volumes, x, v, i);
        assert(is_live(volumes, covered, tombstones, limit, fv, fi));
        let k = choose|k: int|
            0 <= k < refs.len() && (#[trigger] refs[k]).1 == fv && refs[k].2 == fi;
        assert(refs[k].0 == x);
    }
    assert forall|k: int, m: int| 0 <= k < m < refs.len() implies (#[trigger] refs[k]).0 != (
    #[trigger] refs[m]).0 by {
        assert(volumes[refs[k].1 as int][refs[k].2 as int] == refs[k].0);
        assert(is_place(volumes, refs[k].1 as int, refs[k].2 as int));
    }
}

} // verus!
