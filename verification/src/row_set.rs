//! Sets of row identities and maps from them.

use rustc_hash::{FxHashMap, FxHashSet};
use vstd::prelude::*;

verus! {

/// The hasher of `rustc_hash`'s collections.
#[verifier::external_type_specification]
#[verifier::external_body]
pub struct ExFxBuildHasher(rustc_hash::FxBuildHasher);

/// Calls `FxHashSet::default`: a set without elements.
#[verifier::external_body]
pub(crate) fn new_row_set() -> (s: FxHashSet<i64>)
    ensures
        s@ == Set::<i64>::empty(),
{
    FxHashSet::default()
}

/// Calls `FxHashSet::insert`: adds an element, and says whether it was not there.
#[verifier::external_body]
pub(crate) fn insert_row(s: &mut FxHashSet<i64>, row_id: i64) -> (fresh: bool)
    ensures
        final(s)@ == old(s)@.insert(row_id),
        fresh == !old(s)@.contains(row_id),
{
    s.insert(row_id)
}

/// Calls `FxHashSet::contains`.
#[verifier::external_body]
pub(crate) fn contains_row(s: &FxHashSet<i64>, row_id: i64) -> (r: bool)
    ensures
        r == s@.contains(row_id),
{
    s.contains(&row_id)
}

/// Adds the elements of a list to a set.
pub(crate) fn insert_rows(s: &mut FxHashSet<i64>, row_ids: &[i64])
    ensures
        final(s)@ == old(s)@.union(row_ids@.to_set()),
{
    let mut i: usize = 0;
    let ghost start = s@;
    assert(s@ =~= start.union(row_ids@.take(0).to_set()));
    while i < row_ids.len()
        invariant
            i <= row_ids@.len(),
            s@ == start.union(row_ids@.take(i as int).to_set()),
        decreases row_ids@.len() - i,
    {
        let ghost before = row_ids@.take(i as int);
        let id: i64 = row_ids[i];
        insert_row(s, id);
        proof {
            let longer = row_ids@.take(i + 1);
            assert(longer =~= before.push(id));
            assert forall|x: i64| longer.to_set().contains(x) <==> before.to_set().contains(x) || x
                == id by {
                if before.contains(x) {
                    let k = before.index_of(x);
                    assert(longer[k] == x);
                }
                if x == id {
                    assert(longer[i as int] == x);
                }
                if longer.contains(x) {
                    let k = longer.index_of(x);
                    if k < i {
                        assert(before[k] == x);
                    }
                }
            }
            assert(s@ =~= start.union(longer.to_set()));
        }
        i = i + 1;
    }
    assert(row_ids@.take(i as int) =~= row_ids@);
}

/// Calls `FxHashMap::get` and copies the value.
#[verifier::external_body]
pub(crate) fn get_row_value(m: &FxHashMap<i64, u64>, row_id: i64) -> (r: Option<u64>)
    ensures
        r == if m@.contains_key(row_id) {
            Some(m@[row_id])
        } else {
            None
        },
{
    m.get(&row_id).copied()
}

/// Calls `FxHashMap::default`: a map without entries.
#[verifier::external_body]
pub(crate) fn new_row_map() -> (m: FxHashMap<i64, u64>)
    ensures
        m@.dom() == Set::<i64>::empty(),
{
    FxHashMap::default()
}

/// Calls `FxHashMap::insert`: sets the value of a key.
#[verifier::external_body]
pub(crate) fn insert_row_value(m: &mut FxHashMap<i64, u64>, row_id: i64, value: u64)
    ensures
        final(m)@ == old(m)@.insert(row_id, value),
{
    m.insert(row_id, value);
}

/// Whether `entries` holds the entries of `m`, each once.
pub open spec fn holds_entries(entries: Seq<(i64, u64)>, m: Map<i64, u64>) -> bool {
    &&& forall|i: int, j: int|
        0 <= i < j < entries.len() ==> (#[trigger] entries[i]).0 != (#[trigger] entries[j]).0
    &&& forall|i: int|
        0 <= i < entries.len() ==> m.contains_key((#[trigger] entries[i]).0) && m[entries[i].0]
            == entries[i].1
    &&& forall|k: i64| #[trigger]
        m.contains_key(k) ==> exists|i: int|
            0 <= i < entries.len() && (#[trigger] entries[i]).0 == k
}

/// Calls `FxHashMap::iter` and copies the entries, which come in no particular order.
#[verifier::external_body]
pub(crate) fn row_entries(m: &FxHashMap<i64, u64>) -> (entries: Vec<(i64, u64)>)
    ensures
        holds_entries(entries@, m@),
{
    m.iter().map(|(k, v)| (*k, *v)).collect()
}

} // verus!
