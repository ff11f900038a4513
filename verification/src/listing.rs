//! The entries of an ordered map, listed by key.

use std::collections::BTreeMap;
use vstd::prelude::*;
use vstd::std_specs::cmp::OrdSpec;
use vstd::std_specs::iter::IteratorSpec;

verus! {

/// Whether `s` holds the entries of `m`, each once, with the keys in increasing order.
#[verifier::opaque]
pub open spec fn lists<V>(s: Seq<(i64, V)>, m: Map<i64, V>) -> bool {
    &&& forall|i: int, j: int| 0 <= i < j < s.len() ==> (#[trigger] s[i]).0 < (#[trigger] s[j]).0
    &&& forall|i: int|
        0 <= i < s.len() ==> m.contains_key((#[trigger] s[i]).0) && m[s[i].0] == s[i].1
    &&& forall|k: i64| #[trigger]
        m.contains_key(k) ==> exists|i: int| 0 <= i < s.len() && (#[trigger] s[i]).0 == k
}

/// The entries of `m` in the order of their keys.
pub fn entries_of<V: Copy>(m: &BTreeMap<i64, V>) -> (r: Vec<(i64, V)>)
    ensures
        lists(r@, m@),
{
    reveal(lists);
    broadcast use vstd::std_specs::btree::group_btree_axioms;
    broadcast use vstd::laws_cmp::group_laws_cmp;

    let entries = m.iter();
    let ghost all = entries.remaining();
    let ghost keys = all.map_values(|kv: (&i64, &V)| *kv.0);
    proof {
        assert(vstd::laws_cmp::obeys_cmp::<i64>());
        assert(vstd::std_specs::btree::key_obeys_cmp_spec::<i64>());
        assert(entries == vstd::std_specs::btree::spec_btree_map_iter(m));
        assert(vstd::std_specs::btree::increasing_seq(keys));
        assert forall|i: int, j: int| 0 <= i < j < all.len() implies *all[i].0 < *all[j].0 by {
            assert(keys[i] == *all[i].0 && keys[j] == *all[j].0);
            assert(keys[i].cmp_spec(&keys[j]) is Less);
        }
        assert forall|k: i64| #[trigger] m@.contains_key(k) implies exists|i: int|
            0 <= i < all.len() && *(#[trigger] all[i]).0 == k by {
            assert(all.contains((&k, &m@[k])));
            let i = choose|i: int| 0 <= i < all.len() && all[i] == (&k, &m@[k]);
            assert(*all[i].0 == k);
        }
        assert forall|i: int| 0 <= i < all.len() implies m@.contains_key(*(#[trigger] all[i]).0)
            && m@[*all[i].0] == *all[i].1 by {
            assert(m@.contains_key(*all[i].0) && m@[*all[i].0] == *all[i].1);
        }
    }
    let mut out: Vec<(i64, V)> = Vec::new();
    for entry in it: entries
        invariant
            it.seq() == all,
            out@.len() == it.index(),
            forall|i: int| 0 <= i < out@.len() ==> #[trigger] out@[i] == (*all[i].0, *all[i].1),
    {
        out.push((*entry.0, *entry.1));
    }
    proof {
        assert forall|k: i64| #[trigger] m@.contains_key(k) implies exists|i: int|
            0 <= i < out@.len() && (#[trigger] out@[i]).0 == k by {
            let i = choose|i: int| 0 <= i < all.len() && *(#[trigger] all[i]).0 == k;
            assert(out@[i].0 == k);
        }
    }
    out
}

} // verus!
