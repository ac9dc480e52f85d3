//! How the entries of an index are numbered below their parents, and what they keep of them.

use vstd::prelude::*;

use crate::index_model::{
    at_least_one, entry_of, index_from, index_node, index_of, index_roots, level_below, root_level,
    EntryView, Level,
};
use crate::model::NodeView;

verus! {

/// How many of the first `k` entries stand under a root and have a parent.
pub open spec fn alike(es: Seq<EntryView>, pi: int, parent: Option<int>, k: int) -> int
    decreases k,
{
    if k <= 0 {
        0
    } else {
        alike(es, pi, parent, k - 1) + if es[k - 1].pi == pi && es[k - 1].parent == parent {
            1int
        } else {
            0int
        }
    }
}

/// An entry keeps the size of its parent, at least 1, and its number among those with the same
/// parent.
pub open spec fn numbered_at(es: Seq<EntryView>, roots: Seq<NodeView>, i: int) -> bool {
    let e = es[i];
    &&& 0 <= e.pi < roots.len()
    &&& e.child_idx == alike(es, e.pi, e.parent, i)
    &&& match e.parent {
        Some(p) => 0 <= p < i && es[p].pi == e.pi && e.parent_logical == at_least_one(
            es[p].logical_size,
        ),
        None => e.parent_logical == at_least_one(roots[e.pi].logical_size),
    }
}

/// An entry among those below one level, which begin with number `at`; the first of them is
/// child number `first`.
spec fn placed_at(s: Seq<EntryView>, at: int, level: Level, first: int, k: int) -> bool {
    let e = s[k];
    &&& e.pi == level.pi
    &&& if e.parent == level.parent {
        e.parent_logical == level.parent_logical && e.child_idx == first + alike(
            s,
            level.pi,
            level.parent,
            k,
        )
    } else {
        &&& e.parent is Some
        &&& at <= e.parent->0 < at + k
        &&& e.parent_logical == at_least_one(s[e.parent->0 - at].logical_size)
        &&& e.child_idx == alike(s, level.pi, e.parent, k)
    }
}

spec fn placed(s: Seq<EntryView>, at: int, level: Level, first: int) -> bool {
    forall|k: int| 0 <= k < s.len() ==> #[trigger] placed_at(s, at, level, first, k)
}

/// The parent of a level comes before what stands below it.
spec fn comes_before(level: Level, at: int) -> bool {
    match level.parent {
        Some(p) => p < at,
        None => true,
    }
}

proof fn lemma_alike_front(
    a: Seq<EntryView>,
    b: Seq<EntryView>,
    pi: int,
    parent: Option<int>,
    k: int,
)
    requires
        0 <= k <= a.len(),
    ensures
        alike(a + b, pi, parent, k) == alike(a, pi, parent, k),
    decreases k,
{
    if k > 0 {
        lemma_alike_front(a, b, pi, parent, k - 1);
        assert((a + b)[k - 1] == a[k - 1]);
    }
}

proof fn lemma_alike_back(
    a: Seq<EntryView>,
    b: Seq<EntryView>,
    pi: int,
    parent: Option<int>,
    k: int,
)
    requires
        0 <= k <= b.len(),
    ensures
        alike(a + b, pi, parent, a.len() + k) == alike(a, pi, parent, a.len() as int) + alike(
            b,
            pi,
            parent,
            k,
        ),
    decreases k,
{
    if k > 0 {
        lemma_alike_back(a, b, pi, parent, k - 1);
        assert((a + b)[a.len() + k - 1] == b[k - 1]);
    } else {
        lemma_alike_front(a, b, pi, parent, a.len() as int);
    }
}

proof fn lemma_alike_none(s: Seq<EntryView>, pi: int, parent: Option<int>, k: int)
    requires
        0 <= k <= s.len(),
        forall|j: int| 0 <= j < k ==> !((#[trigger] s[j]).pi == pi && s[j].parent == parent),
    ensures
        alike(s, pi, parent, k) == 0,
    decreases k,
{
    if k > 0 {
        lemma_alike_none(s, pi, parent, k - 1);
    }
}

proof fn lemma_node_placed(n: NodeView, level: Level, child_idx: int, at: int)
    requires
        comes_before(level, at),
    ensures
        placed(index_node(n, level, child_idx, at), at, level, child_idx),
        alike(
            index_node(n, level, child_idx, at),
            level.pi,
            level.parent,
            index_node(n, level, child_idx, at).len() as int,
        ) == 1,
    decreases n, 0int,
{
    let s = index_node(n, level, child_idx, at);
    let head = seq![entry_of(n, level, child_idx)];
    let inner = level_below(n, level, at);
    let t = if n.is_folder() {
        index_from(n.children, 0, inner, at + 1)
    } else {
        Seq::empty()
    };
    if n.is_folder() {
        lemma_from_placed(n.children, 0, inner, at + 1);
    }
    assert(s == head + t);
    assert forall|j: int| 0 <= j < t.len() implies !((#[trigger] t[j]).pi == level.pi
        && t[j].parent == level.parent) by {
        assert(placed_at(t, at + 1, inner, 0, j));
    }
    lemma_alike_none(t, level.pi, level.parent, t.len() as int);
    lemma_alike_back(head, t, level.pi, level.parent, t.len() as int);
    assert(alike(head, level.pi, level.parent, 1) == 1) by {
        assert(alike(head, level.pi, level.parent, 0) == 0);
    }
    assert forall|k: int| 0 <= k < s.len() implies #[trigger] placed_at(
        s,
        at,
        level,
        child_idx,
        k,
    ) by {
        if k == 0 {
            assert(alike(s, level.pi, level.parent, 0) == 0);
        } else {
            let j = k - 1;
            assert(placed_at(t, at + 1, inner, 0, j));
            assert(s[k] == t[j]);
            let par = t[j].parent;
            lemma_alike_back(head, t, level.pi, par, j);
            assert(alike(head, level.pi, par, 1) == 0) by {
                assert(alike(head, level.pi, par, 0) == 0);
                assert(head[0].parent != par);
            }
            let q = par->0;
            if q > at {
                assert(s[q - at] == t[q - at - 1]);
            }
        }
    }
}

proof fn lemma_from_placed(kids: Seq<NodeView>, i: int, level: Level, at: int)
    requires
        comes_before(level, at),
        0 <= i,
    ensures
        placed(index_from(kids, i, level, at), at, level, i),
    decreases kids, kids.len() - i,
{
    if i < kids.len() {
        let a = index_node(kids[i], level, i, at);
        let b = index_from(kids, i + 1, level, at + a.len());
        let s = a + b;
        lemma_node_placed(kids[i], level, i, at);
        lemma_from_placed(kids, i + 1, level, at + a.len());
        let n = a.len() as int;
        assert forall|k: int| 0 <= k < s.len() implies #[trigger] placed_at(
            s,
            at,
            level,
            i,
            k,
        ) by {
            if k < n {
                assert(placed_at(a, at, level, i, k));
                assert(s[k] == a[k]);
                lemma_alike_front(a, b, level.pi, a[k].parent, k);
                if a[k].parent != level.parent {
                    assert(s[a[k].parent->0 - at] == a[a[k].parent->0 - at]);
                }
            } else {
                let j = k - n;
                assert(placed_at(b, at + n, level, i + 1, j));
                assert(s[k] == b[j]);
                let par = b[j].parent;
                lemma_alike_back(a, b, level.pi, par, j);
                if par != level.parent {
                    assert forall|x: int| 0 <= x < n implies !((#[trigger] a[x]).pi == level.pi
                        && a[x].parent == par) by {
                        assert(placed_at(a, at, level, i, x));
                    }
                    lemma_alike_none(a, level.pi, par, n);
                    assert(s[par->0 - at] == b[par->0 - at - n]);
                }
            }
        }
        assert(index_from(kids, i, level, at) == s);
    }
}

/// An entry among those below the first `k` roots, which begin with number `at`.
spec fn rooted_at(s: Seq<EntryView>, at: int, roots: Seq<NodeView>, k: int, i: int) -> bool {
    let e = s[i];
    &&& 0 <= e.pi < k
    &&& e.child_idx == alike(s, e.pi, e.parent, i)
    &&& match e.parent {
        Some(p) => at <= p < at + i && s[p - at].pi == e.pi && e.parent_logical == at_least_one(
            s[p - at].logical_size,
        ),
        None => e.parent_logical == at_least_one(roots[e.pi].logical_size),
    }
}

proof fn lemma_roots_placed(
    roots: Seq<NodeView>,
    root_paths: Seq<Seq<char>>,
    want_dirs: bool,
    k: int,
    at: int,
)
    requires
        0 <= k <= roots.len(),
        0 <= at,
    ensures
        forall|i: int|
            0 <= i < index_roots(roots, root_paths, want_dirs, k, at).len()
                ==> #[trigger] rooted_at(
                index_roots(roots, root_paths, want_dirs, k, at),
                at,
                roots,
                k,
                i,
            ),
    decreases k,
{
    if k > 0 {
        let level = root_level(roots[k - 1], root_paths, want_dirs, k - 1);
        let a = index_from(roots[k - 1].children, 0, level, at);
        let b = index_roots(roots, root_paths, want_dirs, k - 1, at + a.len());
        let s = a + b;
        let n = a.len() as int;
        lemma_from_placed(roots[k - 1].children, 0, level, at);
        lemma_roots_placed(roots, root_paths, want_dirs, k - 1, at + a.len());
        assert(index_roots(roots, root_paths, want_dirs, k, at) == s);
        assert forall|i: int| 0 <= i < s.len() implies #[trigger] rooted_at(
            s,
            at,
            roots,
            k,
            i,
        ) by {
            if i < n {
                assert(placed_at(a, at, level, 0, i));
                assert(s[i] == a[i]);
                lemma_alike_front(a, b, level.pi, a[i].parent, i);
                if a[i].parent is Some {
                    let q = a[i].parent->0 - at;
                    assert(placed_at(a, at, level, 0, q));
                    assert(s[q] == a[q]);
                }
            } else {
                let j = i - n;
                assert(rooted_at(b, at + n, roots, k - 1, j));
                assert(s[i] == b[j]);
                let e = b[j];
                lemma_alike_back(a, b, e.pi, e.parent, j);
                assert forall|x: int| 0 <= x < n implies !((#[trigger] a[x]).pi == e.pi
                    && a[x].parent == e.parent) by {
                    assert(placed_at(a, at, level, 0, x));
                }
                lemma_alike_none(a, e.pi, e.parent, n);
                if e.parent is Some {
                    assert(s[e.parent->0 - at] == b[e.parent->0 - at - n]);
                }
            }
        }
    }
}

/// Every entry keeps the size of its parent, at least 1, be that another entry or a root; and
/// those with the same parent are numbered 0, 1, 2 and so on in the order of the index.
pub proof fn law_entries_are_numbered(
    roots: Seq<NodeView>,
    root_paths: Seq<Seq<char>>,
    struct_version: u64,
    want_dirs: bool,
    i: int,
)
    requires
        0 <= i < index_of(roots, root_paths, struct_version, want_dirs).entries.len(),
    ensures
        numbered_at(index_of(roots, root_paths, struct_version, want_dirs).entries, roots, i),
{
    let es = index_roots(roots, root_paths, want_dirs, roots.len() as int, 0);
    lemma_roots_placed(roots, root_paths, want_dirs, roots.len() as int, 0);
    assert(rooted_at(es, 0, roots, roots.len() as int, i));
}

} // verus!
