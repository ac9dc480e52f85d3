//! Stable sorting: what it means, and a merge sort that does it.

use vstd::prelude::*;

verus! {

/// `lt` orders its arguments: it never holds both ways, and incomparability is transitive.
pub open spec fn is_order<T>(lt: spec_fn(T, T) -> bool) -> bool {
    &&& forall|a: T, b: T| #[trigger] lt(a, b) ==> !lt(b, a)
    &&& forall|a: T, b: T, c: T|
        #![trigger lt(a, b), lt(b, c)]
        !lt(a, b) && !lt(b, c) ==> !lt(a, c)
}

/// `s` with `x` put in behind everything that `x` is not less than.
pub open spec fn insert_sorted<T>(s: Seq<T>, x: T, lt: spec_fn(T, T) -> bool) -> Seq<T>
    decreases s.len(),
{
    if s.len() == 0 {
        seq![x]
    } else if lt(x, s.last()) {
        insert_sorted(s.drop_last(), x, lt).push(s.last())
    } else {
        s.push(x)
    }
}

/// `s` in ascending order; elements that are equal keep their order.
pub open spec fn stable_sort<T>(s: Seq<T>, lt: spec_fn(T, T) -> bool) -> Seq<T>
    decreases s.len(),
{
    if s.len() == 0 {
        s
    } else {
        insert_sorted(stable_sort(s.drop_last(), lt), s.last(), lt)
    }
}

/// Two sorted sequences merged; where elements are equal, those of `a` come first.
pub open spec fn merge<T>(a: Seq<T>, b: Seq<T>, lt: spec_fn(T, T) -> bool) -> Seq<T>
    decreases a.len() + b.len(),
{
    if a.len() == 0 {
        b
    } else if b.len() == 0 {
        a
    } else if lt(b.last(), a.last()) {
        merge(a.drop_last(), b, lt).push(a.last())
    } else {
        merge(a, b.drop_last(), lt).push(b.last())
    }
}

proof fn lemma_merge_insert<T>(a: Seq<T>, b: Seq<T>, x: T, lt: spec_fn(T, T) -> bool)
    requires
        is_order(lt),
    ensures
        merge(a, insert_sorted(b, x, lt), lt) == insert_sorted(merge(a, b, lt), x, lt),
    decreases a.len() + b.len(),
{
    let ib = insert_sorted(b, x, lt);
    if a.len() == 0 {
    } else if b.len() == 0 {
        assert(ib.drop_last() =~= b);
        if lt(x, a.last()) {
            lemma_merge_insert(a.drop_last(), b, x, lt);
        }
        assert(merge(a.drop_last(), b, lt) =~= a.drop_last());
        assert(merge(a, b, lt) =~= a);
    } else {
        let m = merge(a, b, lt);
        if lt(x, b.last()) {
            assert(ib.drop_last() =~= insert_sorted(b.drop_last(), x, lt));
            if lt(b.last(), a.last()) {
                assert(m.drop_last() =~= merge(a.drop_last(), b, lt));
                lemma_merge_insert(a.drop_last(), b, x, lt);
                assert(lt(x, a.last())) by {
                    if !lt(x, a.last()) {
                        assert(!lt(a.last(), b.last()));
                        assert(!lt(x, b.last()));
                    }
                }
            } else {
                assert(m.drop_last() =~= merge(a, b.drop_last(), lt));
                lemma_merge_insert(a, b.drop_last(), x, lt);
            }
        } else {
            assert(ib.drop_last() =~= b);
            if lt(x, a.last()) {
                if !lt(b.last(), a.last()) {
                    assert(!lt(x, b.last()));
                    assert(!lt(x, a.last()));
                }
                assert(m.drop_last() =~= merge(a.drop_last(), b, lt));
                lemma_merge_insert(a.drop_last(), b, x, lt);
            }
        }
    }
}

/// Sorting a sequence is the same as sorting two halves of it and merging them.
pub proof fn lemma_sort_split<T>(s: Seq<T>, t: Seq<T>, lt: spec_fn(T, T) -> bool)
    requires
        is_order(lt),
    ensures
        stable_sort(s + t, lt) == merge(stable_sort(s, lt), stable_sort(t, lt), lt),
    decreases t.len(),
{
    if t.len() == 0 {
        assert(s + t =~= s);
    } else {
        assert((s + t).drop_last() =~= s + t.drop_last());
        lemma_sort_split(s, t.drop_last(), lt);
        lemma_merge_insert(stable_sort(s, lt), stable_sort(t.drop_last(), lt), t.last(), lt);
    }
}

proof fn lemma_insert_len<T>(s: Seq<T>, x: T, lt: spec_fn(T, T) -> bool)
    ensures
        insert_sorted(s, x, lt).len() == s.len() + 1,
        insert_sorted(s, x, lt).to_multiset() == s.to_multiset().insert(x),
    decreases s.len(),
{
    broadcast use vstd::seq_lib::group_to_multiset_ensures;

    if s.len() == 0 {
        assert(insert_sorted(s, x, lt) =~= s.push(x));
    } else if lt(x, s.last()) {
        lemma_insert_len(s.drop_last(), x, lt);
        assert(s =~= s.drop_last().push(s.last()));
        assert(s.to_multiset().insert(x) =~= s.drop_last().to_multiset().insert(s.last()).insert(x));
        assert(s.drop_last().to_multiset().insert(x).insert(s.last())
            =~= s.drop_last().to_multiset().insert(s.last()).insert(x));
    }
}

/// Sorting keeps the elements, each as often as it occurs.
pub proof fn law_sort_permutes<T>(s: Seq<T>, lt: spec_fn(T, T) -> bool)
    ensures
        stable_sort(s, lt).len() == s.len(),
        stable_sort(s, lt).to_multiset() == s.to_multiset(),
    decreases s.len(),
{
    broadcast use vstd::seq_lib::group_to_multiset_ensures;

    if s.len() > 0 {
        law_sort_permutes(s.drop_last(), lt);
        lemma_insert_len(stable_sort(s.drop_last(), lt), s.last(), lt);
        assert(s =~= s.drop_last().push(s.last()));
    }
}

/// Nothing in `s` is less than what stands before it.
pub open spec fn is_sorted<T>(s: Seq<T>, lt: spec_fn(T, T) -> bool) -> bool {
    forall|i: int, j: int| 0 <= i < j < s.len() ==> !lt(#[trigger] s[j], #[trigger] s[i])
}

proof fn lemma_insert_sorted<T>(s: Seq<T>, x: T, lt: spec_fn(T, T) -> bool)
    requires
        is_order(lt),
        is_sorted(s, lt),
    ensures
        is_sorted(insert_sorted(s, x, lt), lt),
        forall|i: int|
            0 <= i < insert_sorted(s, x, lt).len() ==> #[trigger] insert_sorted(s, x, lt)[i] == x
                || s.contains(insert_sorted(s, x, lt)[i]),
    decreases s.len(),
{
    let r = insert_sorted(s, x, lt);
    if s.len() == 0 {
    } else if lt(x, s.last()) {
        let r0 = insert_sorted(s.drop_last(), x, lt);
        lemma_insert_sorted(s.drop_last(), x, lt);
        assert forall|i: int, j: int| 0 <= i < j < r.len() implies !lt(
            #[trigger] r[j],
            #[trigger] r[i],
        ) by {
            if j == r.len() - 1 {
                assert(r[i] == r0[i]);
                if r0[i] != x {
                    let k = choose|k: int| 0 <= k < s.drop_last().len() && s.drop_last()[k] == r0[i];
                    assert(s[k] == r[i]);
                }
            } else {
                assert(r[i] == r0[i] && r[j] == r0[j]);
            }
        }
        assert forall|i: int| 0 <= i < r.len() implies #[trigger] r[i] == x || s.contains(r[i]) by {
            if i < r0.len() {
                assert(r[i] == r0[i]);
                if r0[i] != x {
                    let k = choose|k: int| 0 <= k < s.drop_last().len() && s.drop_last()[k] == r0[i];
                    assert(s[k] == r[i]);
                }
            } else {
                assert(s[s.len() - 1] == r[i]);
            }
        }
    } else {
        assert forall|i: int, j: int| 0 <= i < j < r.len() implies !lt(
            #[trigger] r[j],
            #[trigger] r[i],
        ) by {
            if j == r.len() - 1 && i < s.len() - 1 {
                assert(!lt(s[s.len() - 1], s[i]));
                assert(!lt(x, s.last()));
            }
        }
        assert forall|i: int| 0 <= i < r.len() implies #[trigger] r[i] == x || s.contains(r[i]) by {
            if i < s.len() {
                assert(s[i] == r[i]);
            }
        }
    }
}

/// Sorting gives an ascending sequence.
pub proof fn law_sort_sorts<T>(s: Seq<T>, lt: spec_fn(T, T) -> bool)
    requires
        is_order(lt),
    ensures
        is_sorted(stable_sort(s, lt), lt),
    decreases s.len(),
{
    if s.len() > 0 {
        law_sort_sorts(s.drop_last(), lt);
        lemma_insert_sorted(stable_sort(s.drop_last(), lt), s.last(), lt);
    }
}

/// The elements of `s` that are neither less nor greater than `x`, in their order.
pub open spec fn ties<T>(s: Seq<T>, x: T, lt: spec_fn(T, T) -> bool) -> Seq<T>
    decreases s.len(),
{
    if s.len() == 0 {
        s
    } else if !lt(x, s.last()) && !lt(s.last(), x) {
        ties(s.drop_last(), x, lt).push(s.last())
    } else {
        ties(s.drop_last(), x, lt)
    }
}

proof fn lemma_insert_ties<T>(s: Seq<T>, y: T, x: T, lt: spec_fn(T, T) -> bool)
    requires
        is_order(lt),
    ensures
        ties(insert_sorted(s, y, lt), x, lt) == ties(s.push(y), x, lt),
    decreases s.len(),
{
    reveal_with_fuel(ties, 3);
    assert(s.push(y).drop_last() =~= s);
    if s.len() == 0 {
        assert(insert_sorted(s, y, lt) =~= s.push(y));
    } else if lt(y, s.last()) {
        let r = insert_sorted(s, y, lt);
        let s0 = s.drop_last();
        assert(r.drop_last() =~= insert_sorted(s0, y, lt));
        lemma_insert_ties(s0, y, x, lt);
        assert(s0.push(y).drop_last() =~= s0);
        let z = s.last();
        assert(!(!lt(x, y) && !lt(y, x) && !lt(x, z) && !lt(z, x))) by {
            if !lt(y, x) && !lt(x, z) {
                assert(!lt(y, z));
            }
        }
    }
}

/// Sorting is stable: elements that are equal keep the order they had.
pub proof fn law_sort_is_stable<T>(s: Seq<T>, x: T, lt: spec_fn(T, T) -> bool)
    requires
        is_order(lt),
    ensures
        ties(stable_sort(s, lt), x, lt) == ties(s, x, lt),
    decreases s.len(),
{
    if s.len() > 0 {
        let r = stable_sort(s.drop_last(), lt);
        law_sort_is_stable(s.drop_last(), x, lt);
        lemma_insert_ties(r, s.last(), x, lt);
        assert(r.push(s.last()).drop_last() =~= r);
    }
}

proof fn lemma_insert_map<T, U>(
    s: Seq<T>,
    x: T,
    lt: spec_fn(T, T) -> bool,
    f: spec_fn(T) -> U,
    ltu: spec_fn(U, U) -> bool,
)
    requires
        forall|a: T, b: T| #[trigger] lt(a, b) == ltu(f(a), f(b)),
    ensures
        insert_sorted(s.map_values(f), f(x), ltu) == insert_sorted(s, x, lt).map_values(f),
    decreases s.len(),
{
    let m = s.map_values(f);
    if s.len() == 0 {
        assert(insert_sorted(m, f(x), ltu) =~= insert_sorted(s, x, lt).map_values(f));
    } else if lt(x, s.last()) {
        lemma_insert_map(s.drop_last(), x, lt, f, ltu);
        assert(m.drop_last() =~= s.drop_last().map_values(f));
        assert(insert_sorted(m, f(x), ltu) =~= insert_sorted(s, x, lt).map_values(f));
    } else {
        assert(insert_sorted(m, f(x), ltu) =~= insert_sorted(s, x, lt).map_values(f));
    }
}

/// Sorting by what `f` gives commutes with applying `f`.
pub proof fn lemma_sort_map<T, U>(
    s: Seq<T>,
    lt: spec_fn(T, T) -> bool,
    f: spec_fn(T) -> U,
    ltu: spec_fn(U, U) -> bool,
)
    requires
        forall|a: T, b: T| #[trigger] lt(a, b) == ltu(f(a), f(b)),
    ensures
        stable_sort(s.map_values(f), ltu) == stable_sort(s, lt).map_values(f),
    decreases s.len(),
{
    let m = s.map_values(f);
    if s.len() == 0 {
        assert(stable_sort(m, ltu) =~= stable_sort(s, lt).map_values(f));
    } else {
        assert(m.drop_last() =~= s.drop_last().map_values(f));
        lemma_sort_map(s.drop_last(), lt, f, ltu);
        lemma_insert_map(stable_sort(s.drop_last(), lt), s.last(), lt, f, ltu);
    }
}

fn reversed<T>(v: Vec<T>) -> (r: Vec<T>)
    ensures
        r@ == v@.reverse(),
{
    let mut v = v;
    let ghost all = v@;
    let mut r: Vec<T> = Vec::new();
    loop
        invariant
            v@.len() + r@.len() == all.len(),
            v@ == all.take(v@.len() as int),
            r@ == all.skip(v@.len() as int).reverse(),
        ensures
            r@ == all.reverse(),
        decreases v@.len(),
    {
        match v.pop() {
            Some(x) => {
                r.push(x);
                assert(r@ =~= all.skip(v@.len() as int).reverse());
            },
            None => {
                assert(r@ =~= all.reverse());
                break;
            },
        }
    }
    r
}

fn merge_vecs<T, F: Fn(&T, &T) -> bool>(
    a: Vec<T>,
    b: Vec<T>,
    less: &F,
    Ghost(lt): Ghost<spec_fn(T, T) -> bool>,
    Ghost(ok): Ghost<spec_fn(T) -> bool>,
) -> (r: Vec<T>)
    requires
        forall|i: int| 0 <= i < a@.len() ==> ok(#[trigger] a@[i]),
        forall|i: int| 0 <= i < b@.len() ==> ok(#[trigger] b@[i]),
        forall|x: &T, y: &T| ok(*x) && ok(*y) ==> #[trigger] less.requires((x, y)),
        forall|x: &T, y: &T, o: bool| #[trigger] less.ensures((x, y), o) ==> o == lt(*x, *y),
    ensures
        r@ == merge(a@, b@, lt),
        forall|i: int| 0 <= i < r@.len() ==> ok(#[trigger] r@[i]),
{
    let mut a = a;
    let mut b = b;
    let ghost whole = merge(a@, b@, lt);
    let mut back: Vec<T> = Vec::new();
    while a.len() > 0 || b.len() > 0
        invariant
            forall|i: int| 0 <= i < a@.len() ==> ok(#[trigger] a@[i]),
            forall|i: int| 0 <= i < b@.len() ==> ok(#[trigger] b@[i]),
            forall|i: int| 0 <= i < back@.len() ==> ok(#[trigger] back@[i]),
            forall|x: &T, y: &T| ok(*x) && ok(*y) ==> #[trigger] less.requires((x, y)),
            forall|x: &T, y: &T, o: bool| #[trigger] less.ensures((x, y), o) ==> o == lt(*x, *y),
            merge(a@, b@, lt) + back@.reverse() == whole,
        decreases a@.len() + b@.len(),
    {
        let ghost a0 = a@;
        let ghost b0 = b@;
        let ghost k0 = back@;
        let from_a: bool = if a.len() == 0 {
            false
        } else if b.len() == 0 {
            true
        } else {
            less(&b[b.len() - 1], &a[a.len() - 1])
        };
        let next = if from_a {
            a.pop()
        } else {
            b.pop()
        };
        if let Some(x) = next {
            back.push(x);
            proof {
                let m0 = merge(a0, b0, lt);
                assert(m0.last() == x);
                assert(m0.drop_last() =~= merge(a@, b@, lt)) by {
                    reveal_with_fuel(merge, 2);
                }
                assert(back@.reverse() =~= seq![x] + k0.reverse());
                assert(m0 =~= m0.drop_last().push(x));
                assert(merge(a@, b@, lt) + back@.reverse() =~= m0 + k0.reverse());
            }
        }
    }
    let r = reversed(back);
    proof {
        assert(merge(a@, b@, lt) =~= Seq::<T>::empty());
        assert(r@ =~= whole);
    }
    r
}

/// Sorts `v` by `less`, which computes `lt`, on elements that all satisfy `ok`.
pub fn merge_sort<T, F: Fn(&T, &T) -> bool>(
    v: Vec<T>,
    less: &F,
    Ghost(lt): Ghost<spec_fn(T, T) -> bool>,
    Ghost(ok): Ghost<spec_fn(T) -> bool>,
) -> (r: Vec<T>)
    requires
        is_order(lt),
        forall|i: int| 0 <= i < v@.len() ==> ok(#[trigger] v@[i]),
        forall|x: &T, y: &T| ok(*x) && ok(*y) ==> #[trigger] less.requires((x, y)),
        forall|x: &T, y: &T, o: bool| #[trigger] less.ensures((x, y), o) ==> o == lt(*x, *y),
    ensures
        r@ == stable_sort(v@, lt),
        forall|i: int| 0 <= i < r@.len() ==> ok(#[trigger] r@[i]),
    decreases v@.len(),
{
    if v.len() < 2 {
        proof {
            reveal_with_fuel(stable_sort, 3);
            assert(stable_sort(v@, lt) =~= v@);
        }
        v
    } else {
        let mut front = v;
        let ghost all = front@;
        let half: usize = front.len() / 2;
        let tail = front.split_off(half);
        proof {
            assert(all =~= front@ + tail@);
            lemma_sort_split(front@, tail@, lt);
            assert forall|i: int| 0 <= i < front@.len() implies ok(#[trigger] front@[i]) by {
                assert(front@[i] == all[i]);
            }
            assert forall|i: int| 0 <= i < tail@.len() implies ok(#[trigger] tail@[i]) by {
                assert(tail@[i] == all[i + half]);
            }
        }
        let a = merge_sort(front, less, Ghost(lt), Ghost(ok));
        let b = merge_sort(tail, less, Ghost(lt), Ghost(ok));
        merge_vecs(a, b, less, Ghost(lt), Ghost(ok))
    }
}

} // verus!
