//! The order in which the children of a node are shown.

use vstd::prelude::*;

use crate::grouping::{index_list, positions};
use crate::sorting::{is_order, law_sort_permutes, merge_sort, stable_sort};

verus! {

/// The positions below `n` in the order of `lt`, or the other way round.
pub open spec fn ordered(
    n: nat,
    lt: spec_fn(usize, usize) -> bool,
    descending: bool,
) -> Seq<usize> {
    let o = stable_sort(positions(n), lt);
    if descending {
        o.reverse()
    } else {
        o
    }
}

/// Every position is shown once.
pub proof fn law_every_position_is_shown(n: nat, lt: spec_fn(usize, usize) -> bool, descending: bool)
    requires
        n <= usize::MAX,
    ensures
        ordered(n, lt, descending).len() == n,
        ordered(n, lt, descending).to_multiset() == positions(n).to_multiset(),
        forall|k: int| 0 <= k < n ==> #[trigger] ordered(n, lt, descending)[k] < n,
        forall|i: usize| i < n ==> #[trigger] ordered(n, lt, descending).contains(i),
{
    broadcast use vstd::seq_lib::group_to_multiset_ensures;

    let o = stable_sort(positions(n), lt);
    law_sort_permutes(positions(n), lt);
    lemma_reverse_multiset(o);
    let r = ordered(n, lt, descending);
    assert forall|k: int| 0 <= k < n implies #[trigger] r[k] < n by {
        assert(r.contains(r[k]));
        assert(r.to_multiset().contains(r[k]));
        assert(positions(n).to_multiset().contains(r[k]));
        assert(positions(n).contains(r[k]));
    }
    assert forall|i: usize| i < n implies #[trigger] r.contains(i) by {
        assert(positions(n)[i as int] == i);
        assert(positions(n).contains(i));
        assert(r.to_multiset().contains(i));
    }
}

proof fn lemma_reverse_multiset(s: Seq<usize>)
    ensures
        s.reverse().to_multiset() == s.to_multiset(),
    decreases s.len(),
{
    broadcast use vstd::seq_lib::group_to_multiset_ensures;

    if s.len() > 0 {
        let t = s.drop_last();
        lemma_reverse_multiset(t);
        assert(s =~= t.push(s.last()));
        assert(s.reverse() =~= seq![s.last()] + t.reverse());
        vstd::seq_lib::lemma_multiset_commutative(seq![s.last()], t.reverse());
        assert(seq![s.last()].to_multiset() =~= vstd::multiset::Multiset::empty().insert(
            s.last(),
        )) by {
            assert(seq![s.last()] =~= Seq::<usize>::empty().push(s.last()));
        }
        assert(s.reverse().to_multiset() =~= s.to_multiset());
    } else {
        assert(s.reverse() =~= s);
    }
}

fn turned(v: Vec<usize>) -> (r: Vec<usize>)
    ensures
        r@ == v@.reverse(),
{
    let mut r: Vec<usize> = Vec::new();
    let mut k: usize = v.len();
    while k > 0
        invariant
            k <= v@.len(),
            r@.len() == v@.len() - k,
            forall|i: int| 0 <= i < r@.len() ==> #[trigger] r@[i] == v@[v@.len() - 1 - i],
        decreases k,
    {
        k -= 1;
        r.push(v[k]);
    }
    assert(r@ =~= v@.reverse());
    r
}

/// Puts the positions below `n` in order. `less` computes `lt`.
pub fn order_positions<F: Fn(&usize, &usize) -> bool>(
    n: usize,
    less: &F,
    descending: bool,
    Ghost(lt): Ghost<spec_fn(usize, usize) -> bool>,
) -> (r: Vec<usize>)
    requires
        is_order(lt),
        forall|a: &usize, b: &usize| *a < n && *b < n ==> #[trigger] less.requires((a, b)),
        forall|a: &usize, b: &usize, o: bool| #[trigger]
            less.ensures((a, b), o) ==> o == lt(*a, *b),
    ensures
        r@ == ordered(n as nat, lt, descending),
        r@.len() == n,
        forall|k: int| 0 <= k < r@.len() ==> #[trigger] r@[k] < n,
{
    let ghost ok = |i: usize| i < n;
    let o = merge_sort(index_list(n), less, Ghost(lt), Ghost(ok));
    proof {
        law_every_position_is_shown(n as nat, lt, descending);
    }
    if descending {
        turned(o)
    } else {
        o
    }
}

} // verus!
