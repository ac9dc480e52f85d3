//! Putting positions with equal keys together.

use vstd::prelude::*;

use crate::sorting::{
    insert_sorted, is_order, merge_sort, stable_sort,
};

verus! {

/// The positions `0`, `1`, .. below `n`.
pub open spec fn positions(n: nat) -> Seq<usize> {
    Seq::new(n, |i: int| i as usize)
}

/// The order of positions by the keys that stand there.
pub open spec fn by_key<V>(keys: Seq<V>, lt: spec_fn(V, V) -> bool) -> spec_fn(
    usize,
    usize,
) -> bool {
    |a: usize, b: usize| lt(keys[a as int], keys[b as int])
}

/// A list of positions cut into runs with equal keys.
pub open spec fn runs<V>(keys: Seq<V>, order: Seq<usize>) -> Seq<Seq<usize>>
    decreases order.len(),
{
    if order.len() == 0 {
        Seq::empty()
    } else {
        let r = runs(keys, order.drop_last());
        let i = order.last();
        if r.len() > 0 && keys[r.last().last() as int] == keys[i as int] {
            r.drop_last().push(r.last().push(i))
        } else {
            r.push(seq![i])
        }
    }
}

/// The positions of a list of keys, those with equal keys together, in the order of the keys.
pub open spec fn groups<V>(keys: Seq<V>, lt: spec_fn(V, V) -> bool) -> Seq<Seq<usize>> {
    runs(keys, stable_sort(positions(keys.len()), by_key(keys, lt)))
}

/// What lists of positions hold.
pub open spec fn lists_view(v: Seq<Vec<usize>>) -> Seq<Seq<usize>> {
    Seq::new(v.len(), |i: int| v[i]@)
}

/// `lt` puts any two keys that differ in order.
pub open spec fn is_connected<V>(lt: spec_fn(V, V) -> bool) -> bool {
    forall|a: V, b: V| #![trigger lt(a, b)] !lt(a, b) && !lt(b, a) ==> a == b
}

/// The keys do not fall, and of equal keys the earlier position comes first.
pub open spec fn ascending<V>(keys: Seq<V>, order: Seq<usize>, lt: spec_fn(V, V) -> bool) -> bool {
    forall|i: int, j: int|
        #![trigger order[i], order[j]]
        0 <= i < j < order.len() ==> !lt(keys[order[j] as int], keys[order[i] as int]) && (lt(
            keys[order[i] as int],
            keys[order[j] as int],
        ) || order[i] < order[j])
}

proof fn lemma_insert_ascending<V>(
    keys: Seq<V>,
    s: Seq<usize>,
    x: usize,
    lt: spec_fn(V, V) -> bool,
)
    requires
        is_order(lt),
        ascending(keys, s, lt),
        forall|i: int| 0 <= i < s.len() ==> #[trigger] s[i] < x,
    ensures
        ascending(keys, insert_sorted(s, x, by_key(keys, lt)), lt),
        insert_sorted(s, x, by_key(keys, lt)).len() == s.len() + 1,
        forall|i: int|
            0 <= i < s.len() + 1 ==> #[trigger] insert_sorted(s, x, by_key(keys, lt))[i] <= x,
        forall|i: int|
            0 <= i < s.len() + 1 ==> insert_sorted(s, x, by_key(keys, lt))[i] == x || s.contains(
                #[trigger] insert_sorted(s, x, by_key(keys, lt))[i],
            ),
        insert_sorted(s, x, by_key(keys, lt)).contains(x),
        forall|y: usize|
            #[trigger] s.contains(y) ==> insert_sorted(s, x, by_key(keys, lt)).contains(y),
    decreases s.len(),
{
    let less = by_key(keys, lt);
    let r = insert_sorted(s, x, less);
    if s.len() == 0 {
        assert(r[0] == x);
    } else if less(x, s.last()) {
        let s0 = s.drop_last();
        lemma_insert_ascending(keys, s0, x, lt);
        let r0 = insert_sorted(s0, x, less);
        let z = s.last();
        assert(r == r0.push(z));
        assert forall|i: int| 0 <= i < r0.len() implies !lt(keys[z as int], keys[#[trigger] r0[i] as int])
            && (lt(keys[r0[i] as int], keys[z as int]) || r0[i] < z) by {
            if r0[i] != x {
                assert(s0.contains(r0[i]));
                let k = choose|k: int| 0 <= k < s0.len() && s0[k] == r0[i];
                assert(s[k] == r0[i] && s[s.len() - 1] == z);
            }
        }
        assert(ascending(keys, r, lt)) by {
            assert forall|i: int, j: int|
                #![trigger r[i], r[j]]
                0 <= i < j < r.len() implies !lt(keys[r[j] as int], keys[r[i] as int]) && (lt(
                keys[r[i] as int],
                keys[r[j] as int],
            ) || r[i] < r[j]) by {
                assert(r[i] == r0[i]);
                if j < r0.len() {
                    assert(r[j] == r0[j]);
                }
            }
        }
        assert forall|i: int| 0 <= i < r.len() implies r[i] == x || s.contains(#[trigger] r[i]) by {
            if i < r0.len() {
                assert(r[i] == r0[i]);
                if r0[i] != x {
                    assert(s0.contains(r0[i]));
                    let k = choose|k: int| 0 <= k < s0.len() && s0[k] == r0[i];
                    assert(s[k] == r[i]);
                }
            } else {
                assert(s[s.len() - 1] == r[i]);
            }
        }
        assert(r.contains(x)) by {
            let k = choose|k: int| 0 <= k < r0.len() && r0[k] == x;
            assert(r[k] == x);
        }
        assert forall|y: usize| #[trigger] s.contains(y) implies r.contains(y) by {
            let k = choose|k: int| 0 <= k < s.len() && s[k] == y;
            if k < s0.len() {
                assert(s0[k] == y);
                assert(s0.contains(y));
                let m = choose|m: int| 0 <= m < r0.len() && r0[m] == y;
                assert(r[m] == y);
            } else {
                assert(r[r0.len() as int] == y);
            }
        }
        assert forall|i: int| 0 <= i < r.len() implies #[trigger] r[i] <= x by {
            if i < r0.len() {
                assert(r[i] == r0[i]);
            } else {
                assert(s[s.len() - 1] == r[i]);
            }
        }
    } else {
        assert(r == s.push(x));
        assert(ascending(keys, r, lt)) by {
            assert forall|i: int, j: int|
                #![trigger r[i], r[j]]
                0 <= i < j < r.len() implies !lt(keys[r[j] as int], keys[r[i] as int]) && (lt(
                keys[r[i] as int],
                keys[r[j] as int],
            ) || r[i] < r[j]) by {
                assert(r[i] == s[i]);
                if j < s.len() {
                    assert(r[j] == s[j]);
                } else {
                    let last = s.len() - 1;
                    if i < last {
                        assert(s[i] == s[i] && s[last] == s[last]);
                        assert(!lt(keys[s[last] as int], keys[s[i] as int]));
                        assert(!lt(keys[x as int], keys[s[last] as int]));
                    }
                }
            }
        }
        assert(r[s.len() as int] == x);
        assert forall|y: usize| #[trigger] s.contains(y) implies r.contains(y) by {
            let k = choose|k: int| 0 <= k < s.len() && s[k] == y;
            assert(r[k] == y);
        }
        assert forall|i: int| 0 <= i < r.len() implies r[i] == x || s.contains(#[trigger] r[i]) by {
            if i < s.len() {
                assert(s[i] == r[i]);
            }
        }
    }
}

/// The positions in the order of their keys.
pub open spec fn key_order<V>(keys: Seq<V>, n: nat, lt: spec_fn(V, V) -> bool) -> Seq<usize> {
    stable_sort(positions(n), by_key(keys, lt))
}

pub proof fn lemma_key_order<V>(keys: Seq<V>, n: nat, lt: spec_fn(V, V) -> bool)
    requires
        is_order(lt),
        n <= usize::MAX,
    ensures
        ascending(keys, key_order(keys, n, lt), lt),
        key_order(keys, n, lt).len() == n,
        forall|i: int| 0 <= i < n ==> #[trigger] key_order(keys, n, lt)[i] < n,
        forall|x: usize| x < n ==> #[trigger] key_order(keys, n, lt).contains(x),
    decreases n,
{
    if n > 0 {
        let m = (n - 1) as nat;
        let x = m as usize;
        lemma_key_order(keys, m, lt);
        assert(positions(n).drop_last() =~= positions(m));
        let s = key_order(keys, m, lt);
        let r = key_order(keys, n, lt);
        assert(r == insert_sorted(s, x, by_key(keys, lt)));
        lemma_insert_ascending(keys, s, x, lt);
        assert forall|i: int| 0 <= i < n implies #[trigger] r[i] < n by {
            assert(r[i] == x || s.contains(r[i]));
        }
        assert forall|y: usize| y < n implies #[trigger] r.contains(y) by {
            if y < m {
                assert(s.contains(y));
            }
        }
    } else {
        assert(positions(0) =~= Seq::<usize>::empty());
    }
}

/// Whether position `i` is one of those in group `g`.
pub open spec fn in_group(gs: Seq<Seq<usize>>, g: int, i: usize) -> bool {
    0 <= g < gs.len() && gs[g].contains(i)
}

/// Whether position `i` is in some group.
pub open spec fn is_grouped(gs: Seq<Seq<usize>>, i: usize) -> bool {
    exists|g: int| in_group(gs, g, i)
}

/// No group is empty, a group holds one key and rising positions, and the groups stand in the
/// order of their keys.
pub open spec fn well_grouped<V>(
    keys: Seq<V>,
    gs: Seq<Seq<usize>>,
    lt: spec_fn(V, V) -> bool,
) -> bool {
    &&& forall|g: int| 0 <= g < gs.len() ==> (#[trigger] gs[g]).len() > 0
    &&& forall|g: int, a: int|
        0 <= g < gs.len() && 0 <= a < gs[g].len() ==> keys[#[trigger] gs[g][a] as int]
            == keys[gs[g][0] as int]
    &&& forall|g: int, a: int, b: int|
        0 <= g < gs.len() && 0 <= a < b < gs[g].len() ==> #[trigger] gs[g][a] < #[trigger] gs[g][b]
    &&& forall|g: int, h: int|
        0 <= g < h < gs.len() ==> lt(
            keys[(#[trigger] gs[g])[0] as int],
            keys[(#[trigger] gs[h])[0] as int],
        )
}

/// The groups hold what the order holds.
spec fn same_positions(order: Seq<usize>, gs: Seq<Seq<usize>>) -> bool {
    &&& forall|i: usize| #[trigger] order.contains(i) ==> exists|g: int| in_group(gs, g, i)
    &&& forall|g: int, i: usize| #[trigger] in_group(gs, g, i) ==> order.contains(i)
}

proof fn lemma_runs<V>(keys: Seq<V>, order: Seq<usize>, lt: spec_fn(V, V) -> bool)
    requires
        is_order(lt),
        is_connected(lt),
        ascending(keys, order, lt),
    ensures
        well_grouped(keys, runs(keys, order), lt),
        same_positions(order, runs(keys, order)),
    decreases order.len(),
{
    let gs = runs(keys, order);
    if order.len() > 0 {
        let o0 = order.drop_last();
        let i = order.last();
        assert(ascending(keys, o0, lt)) by {
            assert forall|a: int, b: int|
                #![trigger o0[a], o0[b]]
                0 <= a < b < o0.len() implies !lt(keys[o0[b] as int], keys[o0[a] as int]) && (lt(
                keys[o0[a] as int],
                keys[o0[b] as int],
            ) || o0[a] < o0[b]) by {
                assert(o0[a] == order[a] && o0[b] == order[b]);
            }
        }
        lemma_runs(keys, o0, lt);
        let g0 = runs(keys, o0);
        // What stands before `i` has a lesser key, or the same key and a lesser position.
        assert forall|y: usize| #[trigger] o0.contains(y) implies !lt(
            keys[i as int],
            keys[y as int],
        ) && (lt(keys[y as int], keys[i as int]) || y < i) by {
            let k = choose|k: int| 0 <= k < o0.len() && o0[k] == y;
            assert(order[k] == y && order[order.len() - 1] == i);
        }
        assert(order =~= o0.push(i));
        if g0.len() > 0 && keys[g0.last().last() as int] == keys[i as int] {
            lemma_run_grows(keys, o0, g0, i, lt);
        } else {
            lemma_run_starts(keys, o0, g0, i, lt);
        }
    } else {
        assert forall|g: int, i: usize| #[trigger] in_group(gs, g, i) implies order.contains(i) by {
        }
    }
}

proof fn lemma_run_grows<V>(
    keys: Seq<V>,
    o0: Seq<usize>,
    g0: Seq<Seq<usize>>,
    i: usize,
    lt: spec_fn(V, V) -> bool,
)
    requires
        is_order(lt),
        well_grouped(keys, g0, lt),
        same_positions(o0, g0),
        forall|y: usize| #[trigger]
            o0.contains(y) ==> lt(keys[y as int], keys[i as int]) || y < i,
        g0.len() > 0,
        keys[g0.last().last() as int] == keys[i as int],
    ensures
        well_grouped(keys, g0.drop_last().push(g0.last().push(i)), lt),
        same_positions(o0.push(i), g0.drop_last().push(g0.last().push(i))),
{
    let gs = g0.drop_last().push(g0.last().push(i));
    let n = g0.len() - 1;
    let m = g0[n].len();
    assert(g0[n][m - 1] == g0.last().last());
    assert(!lt(keys[i as int], keys[i as int]));
    assert forall|g: int| 0 <= g < gs.len() implies (#[trigger] gs[g]).len() > 0 && gs[g][0]
        == g0[g][0] && (forall|a: int|
        0 <= a < gs[g].len() ==> (#[trigger] gs[g][a] == i && g == n && a == m) || (a
            < g0[g].len() && gs[g][a] == g0[g][a])) by {
        assert(g0[g].len() > 0);
        if g < n {
            assert(gs[g] == g0[g]);
        } else {
            assert(gs[g] == g0[g].push(i));
        }
    }
    assert forall|g: int, a: int, b: int| 0 <= g < gs.len() && 0 <= a < b < gs[g].len() implies
        #[trigger] gs[g][a] < #[trigger] gs[g][b] by {
        assert(gs[g][0] == g0[g][0]);
        if g == n && b == m {
            assert(gs[g][a] == g0[g][a]);
            assert(in_group(g0, g, g0[g][a]));
            assert(keys[g0[g][a] as int] == keys[i as int]);
        }
    }
    assert forall|g: int, a: int| 0 <= g < gs.len() && 0 <= a < gs[g].len() implies keys[
        #[trigger] gs[g][a] as int] == keys[gs[g][0] as int] by {
        assert(gs[g][0] == g0[g][0]);
    }
    assert forall|g: int, h: int| 0 <= g < h < gs.len() implies lt(
        keys[(#[trigger] gs[g])[0] as int],
        keys[(#[trigger] gs[h])[0] as int],
    ) by {
        assert(gs[g][0] == g0[g][0] && gs[h][0] == g0[h][0]);
    }
    assert forall|y: usize| #[trigger] o0.push(i).contains(y) implies exists|g: int|
        in_group(gs, g, y) by {
        if y == i {
            assert(gs[n][m as int] == i);
            assert(in_group(gs, n, i));
        } else {
            let k = choose|k: int| 0 <= k < o0.push(i).len() && o0.push(i)[k] == y;
            assert(o0[k] == y);
            assert(o0.contains(y));
            let g = choose|g: int| in_group(g0, g, y);
            let a = choose|a: int| 0 <= a < g0[g].len() && g0[g][a] == y;
            assert(gs[g][a] == y);
            assert(in_group(gs, g, y));
        }
    }
    assert forall|g: int, y: usize| #[trigger] in_group(gs, g, y) implies o0.push(i).contains(
        y,
    ) by {
        let a = choose|a: int| 0 <= a < gs[g].len() && gs[g][a] == y;
        assert(gs[g][0] == g0[g][0]);
        if g == n && a == m {
            assert(o0.push(i)[o0.len() as int] == i);
        } else {
            assert(g0[g][a] == y);
            assert(in_group(g0, g, y));
            let k = choose|k: int| 0 <= k < o0.len() && o0[k] == y;
            assert(o0.push(i)[k] == y);
        }
    }
}

proof fn lemma_run_starts<V>(
    keys: Seq<V>,
    o0: Seq<usize>,
    g0: Seq<Seq<usize>>,
    i: usize,
    lt: spec_fn(V, V) -> bool,
)
    requires
        is_order(lt),
        is_connected(lt),
        well_grouped(keys, g0, lt),
        same_positions(o0, g0),
        forall|y: usize| #[trigger] o0.contains(y) ==> !lt(keys[i as int], keys[y as int]),
        g0.len() > 0 ==> keys[g0.last().last() as int] != keys[i as int],
    ensures
        well_grouped(keys, g0.push(seq![i]), lt),
        same_positions(o0.push(i), g0.push(seq![i])),
{
    let gs = g0.push(seq![i]);
    let n = g0.len();
    assert forall|g: int| 0 <= g < n implies #[trigger] gs[g] == g0[g] && lt(
        keys[gs[g][0] as int],
        keys[i as int],
    ) by {
        assert(g0[g].len() > 0 && g0[n - 1].len() > 0);
        let last = g0[n - 1].len() - 1;
        let y = g0[n - 1][last];
        assert(y == g0.last().last());
        assert(in_group(g0, n - 1, y));
        assert(lt(keys[y as int], keys[i as int]));
        let p = keys[g0[g][0] as int];
        let q = keys[g0[n - 1][0] as int];
        assert(q == keys[y as int]);
        if g < n - 1 {
            assert(lt(p, q));
            assert(!lt(keys[i as int], q));
            assert(lt(p, keys[i as int]) || !lt(p, q));
        }
    }
    assert(gs[n as int] == seq![i]);
    assert forall|g: int, h: int| 0 <= g < h < gs.len() implies lt(
        keys[(#[trigger] gs[g])[0] as int],
        keys[(#[trigger] gs[h])[0] as int],
    ) by {
        assert(gs[g] == g0[g]);
        if h < n {
            assert(gs[h] == g0[h]);
        }
    }
    assert forall|y: usize| #[trigger] o0.push(i).contains(y) implies exists|g: int|
        in_group(gs, g, y) by {
        if y == i {
            assert(gs[n as int][0] == i);
            assert(in_group(gs, n as int, i));
        } else {
            let k = choose|k: int| 0 <= k < o0.push(i).len() && o0.push(i)[k] == y;
            assert(o0[k] == y);
            assert(o0.contains(y));
            let g = choose|g: int| in_group(g0, g, y);
            assert(gs[g] == g0[g]);
            assert(in_group(gs, g, y));
        }
    }
    assert forall|g: int, y: usize| #[trigger] in_group(gs, g, y) implies o0.push(i).contains(
        y,
    ) by {
        if g == n {
            assert(y == i);
            assert(o0.push(i)[o0.len() as int] == i);
        } else {
            assert(gs[g] == g0[g]);
            assert(in_group(g0, g, y));
            let k = choose|k: int| 0 <= k < o0.len() && o0[k] == y;
            assert(o0.push(i)[k] == y);
        }
    }
}

/// Every position is in exactly one group, and two positions are in the same group exactly if
/// their keys are equal. No group is empty, and its positions rise.
pub proof fn law_groups_go_by_key<V>(keys: Seq<V>, lt: spec_fn(V, V) -> bool)
    requires
        is_order(lt),
        is_connected(lt),
        keys.len() <= usize::MAX,
    ensures
        well_grouped(keys, groups(keys, lt), lt),
        forall|i: usize| i < keys.len() ==> #[trigger] is_grouped(groups(keys, lt), i),
        forall|g: int, i: usize| #[trigger] in_group(groups(keys, lt), g, i) ==> i < keys.len(),
        forall|g: int, h: int, i: usize, j: usize| #[trigger]
            in_group(groups(keys, lt), g, i) && #[trigger] in_group(groups(keys, lt), h, j) ==> (g
                == h <==> keys[i as int] == keys[j as int]),
{
    let gs = groups(keys, lt);
    let order = key_order(keys, keys.len(), lt);
    lemma_key_order(keys, keys.len(), lt);
    lemma_runs(keys, order, lt);
    assert forall|i: usize| i < keys.len() implies #[trigger] is_grouped(gs, i) by {
        assert(order.contains(i));
    }
    assert forall|g: int, i: usize| #[trigger] in_group(gs, g, i) implies i < keys.len() by {
        let k = choose|k: int| 0 <= k < order.len() && order[k] == i;
    }
    assert forall|g: int, h: int, i: usize, j: usize| #[trigger]
        in_group(gs, g, i) && #[trigger] in_group(gs, h, j) implies (g == h <==> keys[i as int]
        == keys[j as int]) by {
        let a = choose|a: int| 0 <= a < gs[g].len() && gs[g][a] == i;
        let b = choose|b: int| 0 <= b < gs[h].len() && gs[h][b] == j;
        assert(keys[gs[g][a] as int] == keys[gs[g][0] as int]);
        assert(keys[gs[h][b] as int] == keys[gs[h][0] as int]);
        let k = keys[i as int];
        if g < h {
            assert(lt(keys[gs[g][0] as int], keys[gs[h][0] as int]));
        } else if h < g {
            assert(lt(keys[gs[h][0] as int], keys[gs[g][0] as int]));
        }
        assert(lt(k, k) ==> !lt(k, k));
    }
}

/// The positions below `n`.
pub(crate) fn index_list(n: usize) -> (r: Vec<usize>)
    ensures
        r@ == positions(n as nat),
{
    let mut r: Vec<usize> = Vec::new();
    let mut i: usize = 0;
    while i < n
        invariant
            i <= n,
            r@ == positions(i as nat),
        decreases n - i,
    {
        r.push(i);
        i += 1;
        assert(r@ =~= positions(i as nat));
    }
    r
}

/// Puts the positions of a list of keys together by key. `less` and `same` compare two keys;
/// `val` is what a key stands for and `lt` its order.
pub fn group_by<K, V, L: Fn(&usize, &usize) -> bool, E: Fn(usize, usize) -> bool>(
    keys: &Vec<K>,
    less: &L,
    same: &E,
    Ghost(vals): Ghost<Seq<V>>,
    Ghost(lt): Ghost<spec_fn(V, V) -> bool>,
) -> (r: Vec<Vec<usize>>)
    requires
        is_order(lt),
        vals.len() == keys@.len(),
        forall|a: &usize, b: &usize|
            *a < keys@.len() && *b < keys@.len() ==> #[trigger] less.requires((a, b)),
        forall|a: &usize, b: &usize, o: bool| #[trigger]
            less.ensures((a, b), o) ==> o == lt(vals[*a as int], vals[*b as int]),
        forall|a: usize, b: usize|
            a < keys@.len() && b < keys@.len() ==> #[trigger] same.requires((a, b)),
        forall|a: usize, b: usize, o: bool| #[trigger]
            same.ensures((a, b), o) ==> o == (vals[a as int] == vals[b as int]),
    ensures
        lists_view(r@) == groups(vals, lt),
{
    let ghost less_at = by_key(vals, lt);
    let ghost ok = |i: usize| i < keys@.len();
    proof {
        assert forall|a: usize, b: usize| #[trigger] less_at(a, b) implies !less_at(b, a) by {}
        assert forall|a: usize, b: usize, c: usize|
            #![trigger less_at(a, b), less_at(b, c)]
            !less_at(a, b) && !less_at(b, c) implies !less_at(a, c) by {
            assert(!lt(vals[a as int], vals[b as int]) && !lt(vals[b as int], vals[c as int]));
        }
    }
    let order = merge_sort(index_list(keys.len()), less, Ghost(less_at), Ghost(ok));
    let mut out: Vec<Vec<usize>> = Vec::new();
    let mut i: usize = 0;
    assert(lists_view(out@) =~= runs(vals, order@.take(0)));
    while i < order.len()
        invariant
            i <= order.len(),
            vals.len() == keys@.len(),
            forall|k: int| 0 <= k < order@.len() ==> #[trigger] order@[k] < keys@.len(),
            forall|a: usize, b: usize|
                a < keys@.len() && b < keys@.len() ==> #[trigger] same.requires((a, b)),
            forall|a: usize, b: usize, o: bool| #[trigger]
                same.ensures((a, b), o) ==> o == (vals[a as int] == vals[b as int]),
            lists_view(out@) == runs(vals, order@.take(i as int)),
            out@.len() > 0 <==> i > 0,
            i > 0 ==> out@.last()@.len() > 0 && out@.last()@.last() == order@[i - 1],
        decreases order.len() - i,
    {
        let x: usize = order[i];
        let ghost before = out@;
        let ghost seen = order@.take(i as int);
        assert(order@.take(i + 1).drop_last() =~= seen);
        if i > 0 && same(order[i - 1], x) {
            assert(lists_view(before).last() == before.last()@);
            let mut run = match out.pop() {
                Some(run) => run,
                None => Vec::new(),
            };
            run.push(x);
            out.push(run);
            assert(lists_view(out@) =~= lists_view(before).drop_last().push(
                lists_view(before).last().push(x),
            ));
        } else {
            if i > 0 {
                assert(lists_view(before).last() == before.last()@);
            }
            let mut run: Vec<usize> = Vec::new();
            run.push(x);
            assert(run@ =~= seq![x]);
            out.push(run);
            assert(lists_view(out@) =~= lists_view(before).push(seq![x]));
        }
        i += 1;
    }
    assert(order@.take(i as int) =~= order@);
    out
}

} // verus!
