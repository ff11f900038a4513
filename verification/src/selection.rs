//! What it means to pick items out of a sequence and keep their order.

use vstd::prelude::*;

verus! {

/// Whether `at` gives the positions of the items of `s` that `keep` holds of: each once, in order,
/// and none left out.
pub open spec fn selects<A>(s: Seq<A>, keep: spec_fn(A) -> bool, at: Seq<int>) -> bool {
    &&& forall|i: int| 0 <= i < at.len() ==> 0 <= #[trigger] at[i] < s.len() && keep(s[at[i]])
    &&& forall|i: int, j: int| 0 <= i < j < at.len() ==> #[trigger] at[i] < #[trigger] at[j]
    &&& forall|k: int| 0 <= k < s.len() && keep(#[trigger] s[k]) ==> at.contains(k)
}

/// Whether `out` has the items of `s` that `keep` holds of, in their order, with `change` made to
/// each.
pub open spec fn is_selection<A, B>(
    s: Seq<A>,
    keep: spec_fn(A) -> bool,
    change: spec_fn(A) -> B,
    out: Seq<B>,
) -> bool {
    exists|at: Seq<int>| #[trigger]
        selects(s, keep, at) && out.len() == at.len() && forall|i: int|
            0 <= i < out.len() ==> #[trigger] out[i] == change(s[at[i]])
}

/// Nothing is picked out of an empty sequence.
pub proof fn lemma_selection_of_none<A, B>(
    s: Seq<A>,
    keep: spec_fn(A) -> bool,
    change: spec_fn(A) -> B,
    out: Seq<B>,
)
    requires
        s.len() == 0,
        out.len() == 0,
    ensures
        is_selection(s, keep, change, out),
{
    assert(selects(s, keep, Seq::<int>::empty()));
}

/// One more item that is kept comes last; one that is not changes nothing.
pub proof fn lemma_selection_step<A, B>(
    s: Seq<A>,
    keep: spec_fn(A) -> bool,
    change: spec_fn(A) -> B,
    before: Seq<B>,
    out: Seq<B>,
)
    requires
        s.len() > 0,
        is_selection(s.drop_last(), keep, change, before),
        out == if keep(s.last()) {
            before.push(change(s.last()))
        } else {
            before
        },
    ensures
        is_selection(s, keep, change, out),
{
    let t = s.drop_last();
    let at = choose|at: Seq<int>| #[trigger]
        selects(t, keep, at) && before.len() == at.len() && forall|i: int|
            0 <= i < before.len() ==> #[trigger] before[i] == change(t[at[i]]);
    let n = s.len() - 1;
    let longer = if keep(s.last()) {
        at.push(n)
    } else {
        at
    };
    assert forall|k: int| 0 <= k < s.len() && keep(#[trigger] s[k]) implies longer.contains(k) by {
        if k < n {
            assert(t[k] == s[k]);
            assert(at.contains(k));
            let i = choose|i: int| 0 <= i < at.len() && at[i] == k;
            assert(longer[i] == k);
        } else {
            assert(longer[at.len() as int] == n);
        }
    }
    assert forall|i: int| 0 <= i < longer.len() implies 0 <= #[trigger] longer[i] < s.len() && keep(
        s[longer[i]],
    ) by {
        if i < at.len() {
            assert(longer[i] == at[i]);
            assert(t[at[i]] == s[at[i]]);
        }
    }
    assert forall|i: int, j: int| 0 <= i < j < longer.len() implies #[trigger] longer[i]
        < #[trigger] longer[j] by {
        assert(longer[i] == at[i]);
        if j < at.len() {
            assert(longer[j] == at[j]);
        }
    }
    assert(selects(s, keep, longer));
    assert forall|i: int| 0 <= i < out.len() implies #[trigger] out[i] == change(s[longer[i]]) by {
        if i < at.len() {
            assert(out[i] == before[i]);
            assert(t[at[i]] == s[at[i]]);
        }
    }
}

/// A filter keeps what its condition holds of, in order.
pub proof fn lemma_filter_selects<A>(s: Seq<A>, keep: spec_fn(A) -> bool)
    ensures
        is_selection(s, keep, |a: A| a, s.filter(keep)),
    decreases s.len(),
{
    reveal(Seq::filter);
    if s.len() == 0 {
        lemma_selection_of_none(s, keep, |a: A| a, s.filter(keep));
    } else {
        lemma_filter_selects(s.drop_last(), keep);
        lemma_selection_step(s, keep, |a: A| a, s.drop_last().filter(keep), s.filter(keep));
    }
}

/// Whether `b` is what `change` makes of an item of `s` that `keep` holds of.
pub open spec fn comes_from<A, B>(
    s: Seq<A>,
    keep: spec_fn(A) -> bool,
    change: spec_fn(A) -> B,
    b: B,
) -> bool {
    exists|k: int| 0 <= k < s.len() && keep(#[trigger] s[k]) && change(s[k]) == b
}

/// Whatever is kept is there; and what is there was kept.
pub proof fn lemma_selection_contains<A, B>(
    s: Seq<A>,
    keep: spec_fn(A) -> bool,
    change: spec_fn(A) -> B,
    out: Seq<B>,
)
    requires
        is_selection(s, keep, change, out),
    ensures
        forall|k: int|
            0 <= k < s.len() && keep(#[trigger] s[k]) ==> out.contains(change(s[k])),
        forall|i: int| 0 <= i < out.len() ==> comes_from(s, keep, change, #[trigger] out[i]),
{
    let at = choose|at: Seq<int>| #[trigger]
        selects(s, keep, at) && out.len() == at.len() && forall|i: int|
            0 <= i < out.len() ==> #[trigger] out[i] == change(s[at[i]]);
    assert forall|k: int| 0 <= k < s.len() && keep(#[trigger] s[k]) implies out.contains(
        change(s[k]),
    ) by {
        assert(at.contains(k));
        let i = choose|i: int| 0 <= i < at.len() && at[i] == k;
        assert(out[i] == change(s[k]));
    }
    assert forall|i: int| 0 <= i < out.len() implies comes_from(
        s,
        keep,
        change,
        #[trigger] out[i],
    ) by {
        assert(0 <= at[i] < s.len() && keep(s[at[i]]));
        assert(change(s[at[i]]) == out[i]);
    }
}

} // verus!
