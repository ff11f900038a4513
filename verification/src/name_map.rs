//! Maps from names.

use vstd::prelude::*;
use vstd::string::*;

verus! {

/// A map from names, kept as a list without repeated names.
pub struct NameMap<T> {
    entries: Vec<(String, T)>,
}

/// The entries of a list as a map; a later entry counts where a name is repeated.
pub open spec fn map_of<V>(s: Seq<(Seq<char>, V)>) -> Map<Seq<char>, V>
    decreases s.len(),
{
    if s.len() == 0 {
        Map::empty()
    } else {
        map_of(s.drop_last()).insert(s.last().0, s.last().1)
    }
}

/// Whether no name is repeated.
pub open spec fn distinct_names<V>(s: Seq<(Seq<char>, V)>) -> bool {
    forall|i: int, j: int| 0 <= i < j < s.len() ==> (#[trigger] s[i]).0 != (#[trigger] s[j]).0
}

proof fn lemma_map_of_contains<V>(s: Seq<(Seq<char>, V)>, k: Seq<char>)
    ensures
        map_of(s).contains_key(k) <==> exists|i: int| 0 <= i < s.len() && (#[trigger] s[i]).0 == k,
    decreases s.len(),
{
    if s.len() > 0 {
        let t = s.drop_last();
        lemma_map_of_contains(t, k);
        if map_of(t).contains_key(k) {
            let i = choose|i: int| 0 <= i < t.len() && (#[trigger] t[i]).0 == k;
            assert(s[i].0 == k);
        }
        if s.last().0 == k {
            assert(s[s.len() - 1].0 == k);
        }
        if exists|i: int| 0 <= i < s.len() && (#[trigger] s[i]).0 == k {
            let i = choose|i: int| 0 <= i < s.len() && (#[trigger] s[i]).0 == k;
            if i < t.len() {
                assert(t[i].0 == k);
            }
        }
    }
}

/// Every entry of a list without repeated names is an entry of its map.
pub proof fn lemma_map_of_entry<V>(s: Seq<(Seq<char>, V)>, i: int)
    requires
        distinct_names(s),
        0 <= i < s.len(),
    ensures
        map_of(s).contains_key(s[i].0),
        map_of(s)[s[i].0] == s[i].1,
    decreases s.len(),
{
    if i < s.len() - 1 {
        let t = s.drop_last();
        assert(distinct_names(t)) by {
            assert forall|a: int, b: int| 0 <= a < b < t.len() implies (#[trigger] t[a]).0 != (
            #[trigger] t[b]).0 by {
                assert(s[a].0 != s[b].0);
            }
        }
        lemma_map_of_entry(t, i);
        assert(t[i] == s[i]);
        assert(s[i].0 != s[s.len() - 1].0);
    }
}

proof fn lemma_map_of_update<V>(s: Seq<(Seq<char>, V)>, i: int, v: V)
    requires
        distinct_names(s),
        0 <= i < s.len(),
    ensures
        map_of(s.update(i, (s[i].0, v))) == map_of(s).insert(s[i].0, v),
        distinct_names(s.update(i, (s[i].0, v))),
{
    let t = s.update(i, (s[i].0, v));
    assert(distinct_names(t)) by {
        assert forall|a: int, b: int| 0 <= a < b < t.len() implies (#[trigger] t[a]).0 != (
        #[trigger] t[b]).0 by {
            assert(s[a].0 != s[b].0);
        }
    }
    let m = map_of(t);
    let n = map_of(s).insert(s[i].0, v);
    assert forall|k: Seq<char>| #[trigger] m.contains_key(k) <==> n.contains_key(k) by {
        lemma_map_of_contains(t, k);
        lemma_map_of_contains(s, k);
        if m.contains_key(k) {
            let a = choose|a: int| 0 <= a < t.len() && (#[trigger] t[a]).0 == k;
            assert(s[a].0 == k);
        }
        if map_of(s).contains_key(k) {
            let a = choose|a: int| 0 <= a < s.len() && (#[trigger] s[a]).0 == k;
            assert(t[a].0 == k);
        }
        if k == s[i].0 {
            assert(t[i].0 == k);
        }
    }
    assert forall|k: Seq<char>| #[trigger] m.contains_key(k) implies m[k] == n[k] by {
        lemma_map_of_contains(t, k);
        let a = choose|a: int| 0 <= a < t.len() && (#[trigger] t[a]).0 == k;
        lemma_map_of_entry(t, a);
        if a != i {
            lemma_map_of_entry(s, a);
            if a < i {
                assert(s[a].0 != s[i].0);
            } else {
                assert(s[i].0 != s[a].0);
            }
        }
    }
    assert(m =~= n);
}

proof fn lemma_map_of_remove<V>(s: Seq<(Seq<char>, V)>, i: int)
    requires
        distinct_names(s),
        0 <= i < s.len(),
    ensures
        map_of(s.remove(i)) == map_of(s).remove(s[i].0),
        distinct_names(s.remove(i)),
{
    let t = s.remove(i);
    assert(distinct_names(t)) by {
        assert forall|a: int, b: int| 0 <= a < b < t.len() implies (#[trigger] t[a]).0 != (
        #[trigger] t[b]).0 by {
            let x = if a < i { a } else { a + 1 };
            let y = if b < i { b } else { b + 1 };
            assert(t[a] == s[x] && t[b] == s[y]);
            assert(s[x].0 != s[y].0);
        }
    }
    let m = map_of(t);
    let n = map_of(s).remove(s[i].0);
    assert forall|k: Seq<char>| #[trigger] m.contains_key(k) <==> n.contains_key(k) by {
        lemma_map_of_contains(t, k);
        lemma_map_of_contains(s, k);
        if m.contains_key(k) {
            let a = choose|a: int| 0 <= a < t.len() && (#[trigger] t[a]).0 == k;
            let x = if a < i { a } else { a + 1 };
            assert(s[x].0 == k);
            if x < i {
                assert(s[x].0 != s[i].0);
            } else {
                assert(s[i].0 != s[x].0);
            }
        }
        if n.contains_key(k) {
            let x = choose|x: int| 0 <= x < s.len() && (#[trigger] s[x]).0 == k;
            let a = if x < i { x } else { x - 1 };
            assert(t[a].0 == k);
        }
    }
    assert forall|k: Seq<char>| #[trigger] m.contains_key(k) implies m[k] == n[k] by {
        lemma_map_of_contains(t, k);
        let a = choose|a: int| 0 <= a < t.len() && (#[trigger] t[a]).0 == k;
        let x = if a < i { a } else { a + 1 };
        assert(t[a] == s[x]);
        lemma_map_of_entry(t, a);
        lemma_map_of_entry(s, x);
    }
    assert(m =~= n);
}

impl<T: View> View for NameMap<T> {
    type V = Map<Seq<char>, T::V>;

    open spec fn view(&self) -> Map<Seq<char>, T::V> {
        map_of(self.listing())
    }
}

impl<T: View> NameMap<T> {
    /// The entries in the order in which they are kept.
    pub closed spec fn listing(&self) -> Seq<(Seq<char>, T::V)> {
        self.entries@.map_values(|e: (String, T)| (e.0@, e.1@))
    }

    /// Whether no name is repeated.
    pub open spec fn wf(&self) -> bool {
        distinct_names(self.listing())
    }

    /// A map without entries.
    pub fn new() -> (m: NameMap<T>)
        ensures
            m.wf(),
            m@ == Map::<Seq<char>, T::V>::empty(),
            m.listing().len() == 0,
    {
        let m = NameMap { entries: Vec::new() };
        assert(m.listing() =~= Seq::empty());
        m
    }

    /// The number of entries.
    pub fn len(&self) -> (n: usize)
        ensures
            n == self.listing().len(),
    {
        self.entries.len()
    }

    /// The value at a position of the list.
    pub fn value_at(&self, i: usize) -> (value: &T)
        requires
            i < self.listing().len(),
        ensures
            value@ == self.listing()[i as int].1,
    {
        &self.entries[i].1
    }

    /// The position of a name in the list.
    pub fn position(&self, name: &str) -> (r: Option<usize>)
        requires
            self.wf(),
        ensures
            match r {
                Some(i) => i < self.listing().len() && self.listing()[i as int].0 == name@
                    && self@.contains_key(name@) && self@[name@] == self.listing()[i as int].1,
                None => !self@.contains_key(name@),
            },
    {
        let wanted = name.to_owned();
        let mut i: usize = 0;
        while i < self.entries.len()
            invariant
                self.wf(),
                i <= self.entries@.len(),
                wanted@ == name@,
                forall|k: int| 0 <= k < i ==> (#[trigger] self.listing()[k]).0 != name@,
            decreases self.entries@.len() - i,
        {
            if self.entries[i].0 == wanted {
                proof {
                    lemma_map_of_entry(self.listing(), i as int);
                }
                return Some(i);
            }
            i = i + 1;
        }
        proof {
            lemma_map_of_contains(self.listing(), name@);
        }
        None
    }

    /// Whether there is an entry under a name.
    pub fn contains(&self, name: &str) -> (r: bool)
        requires
            self.wf(),
        ensures
            r == self@.contains_key(name@),
    {
        self.position(name).is_some()
    }

    /// The value under a name.
    pub fn get(&self, name: &str) -> (r: Option<&T>)
        requires
            self.wf(),
        ensures
            match r {
                Some(v) => self@.contains_key(name@) && v@ == self@[name@],
                None => !self@.contains_key(name@),
            },
    {
        match self.position(name) {
            Some(i) => Some(&self.entries[i].1),
            None => None,
        }
    }

    /// Sets the value under a name.
    pub fn insert(&mut self, name: String, value: T)
        requires
            old(self).wf(),
        ensures
            final(self).wf(),
            final(self)@ == old(self)@.insert(name@, value@),
    {
        let ghost before = self.listing();
        let ghost v = value@;
        let ghost n = name@;
        match self.position(name.as_str()) {
            Some(i) => {
                self.entries.set(i, (name, value));
                proof {
                    lemma_map_of_update(before, i as int, v);
                    assert(self.listing() =~= before.update(i as int, (n, v)));
                }
            },
            None => {
                proof {
                    lemma_map_of_contains(before, n);
                }
                self.entries.push((name, value));
                proof {
                    let after = self.listing();
                    assert(after =~= before.push((n, v)));
                    assert(after.drop_last() =~= before);
                    assert(distinct_names(after)) by {
                        assert forall|a: int, b: int| 0 <= a < b < after.len() implies (
                        #[trigger] after[a]).0 != (#[trigger] after[b]).0 by {
                            if b < before.len() {
                                assert(before[a].0 != before[b].0);
                            } else {
                                assert(before[a].0 != n);
                            }
                        }
                    }
                }
            },
        }
    }

    /// Takes the entry under a name out.
    pub fn remove(&mut self, name: &str) -> (r: Option<T>)
        requires
            old(self).wf(),
        ensures
            final(self).wf(),
            match r {
                Some(v) => {
                    &&& old(self)@.contains_key(name@)
                    &&& v@ == old(self)@[name@]
                    &&& final(self)@ == old(self)@.remove(name@)
                },
                None => {
                    &&& !old(self)@.contains_key(name@)
                    &&& final(self)@ == old(self)@
                },
            },
    {
        let ghost before = self.listing();
        match self.position(name) {
            Some(i) => {
                let (_, value) = self.entries.remove(i);
                proof {
                    lemma_map_of_remove(before, i as int);
                    assert(self.listing() =~= before.remove(i as int));
                }
                Some(value)
            },
            None => None,
        }
    }

    /// Replaces the value at a position of the list.
    pub fn set_at(&mut self, i: usize, value: T)
        requires
            old(self).wf(),
            i < old(self).listing().len(),
        ensures
            final(self).wf(),
            final(self).listing() == old(self).listing().update(
                i as int,
                (old(self).listing()[i as int].0, value@),
            ),
            final(self)@ == old(self)@.insert(old(self).listing()[i as int].0, value@),
    {
        let ghost before = self.listing();
        let ghost v = value@;
        let name = self.entries[i].0.as_str().to_owned();
        self.entries.set(i, (name, value));
        proof {
            lemma_map_of_update(before, i as int, v);
            assert(self.listing() =~= before.update(i as int, (before[i as int].0, v)));
        }
    }

    /// The names, each once.
    pub fn names(&self) -> (r: Vec<String>)
        ensures
            r@.len() == self.listing().len(),
            forall|i: int| 0 <= i < r@.len() ==> (#[trigger] r@[i])@ == self.listing()[i].0,
    {
        let mut out: Vec<String> = Vec::new();
        let mut i: usize = 0;
        while i < self.entries.len()
            invariant
                i <= self.entries@.len(),
                out@.len() == i,
                forall|k: int| 0 <= k < i ==> (#[trigger] out@[k])@ == self.listing()[k].0,
            decreases self.entries@.len() - i,
        {
            out.push(self.entries[i].0.as_str().to_owned());
            i = i + 1;
        }
        out
    }
}

} // verus!
