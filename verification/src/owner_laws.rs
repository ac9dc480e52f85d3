//! That the owner of everything on show is asked for, under its own path.

use vstd::prelude::*;

use crate::model::NodeView;
use crate::owners::{direct_queries, owner_queries, path_below, queries_below, QueryView};
use crate::row_laws::{is_seen, lemma_seen_below};
use crate::tree_list::all_children_fit;

verus! {

/// The path of what is reached from a node whose folder is `dir`: one backslash between the parts.
pub open spec fn path_to(dir: Seq<char>, n: NodeView, steps: Seq<usize>) -> Seq<char>
    decreases steps.len(),
{
    if steps.len() == 0 {
        dir
    } else {
        let c = n.children[steps[0] as int];
        path_to(
            if dir.len() > 0 && dir.last() == '\\' {
                dir + c.name
            } else {
                dir + seq!['\\'] + c.name
            },
            c,
            steps.skip(1),
        )
    }
}

/// Whether a query is for what is reached from a node at `rel`.
pub open spec fn is_query_for(
    q: QueryView,
    n: NodeView,
    rel: Seq<usize>,
    dir: Seq<char>,
    steps: Seq<usize>,
) -> bool {
    q.path == rel + steps && q.full_path == path_to(dir, n, steps)
}

/// Whether queries are those for everything that is on show below a node, and for nothing else,
/// each once. `at` says what each query is for.
pub open spec fn are_queries(
    qs: Seq<QueryView>,
    n: NodeView,
    rel: Seq<usize>,
    dir: Seq<char>,
    at: Seq<Seq<usize>>,
) -> bool {
    &&& at.len() == qs.len()
    &&& forall|i: int|
        0 <= i < at.len() ==> is_seen(n, #[trigger] at[i], true) && is_query_for(
            qs[i],
            n,
            rel,
            dir,
            at[i],
        )
    &&& forall|i: int, j: int| 0 <= i < j < at.len() ==> #[trigger] at[i] != #[trigger] at[j]
    &&& forall|steps: Seq<usize>| #[trigger] is_seen(n, steps, true) ==> at.contains(steps)
}

proof fn lemma_path_step(dir: Seq<char>, n: NodeView, i: usize, rest: Seq<usize>)
    ensures
        path_to(dir, n, seq![i] + rest) == path_to(
            path_below(dir, n.children[i as int].name),
            n.children[i as int],
            rest,
        ),
{
    let name = n.children[i as int].name;
    assert((seq![i] + rest).skip(1) =~= rest);
    assert(dir.push('\\') + name =~= dir + seq!['\\'] + name);
}

proof fn lemma_queries(n: NodeView, rel: Seq<usize>, dir: Seq<char>) -> (at: Seq<Seq<usize>>)
    requires
        all_children_fit(n),
    ensures
        are_queries(owner_queries(n, rel, dir), n, rel, dir, at),
    decreases n, n.children.len() + 1,
{
    let count = n.children.len();
    let direct = Seq::new(count, |i: int| seq![i as usize]);
    let more = lemma_below(n, count as int, rel, dir);
    let at = direct + more;
    let dq = direct_queries(n, rel, dir);
    let bq = queries_below(n, count as int, rel, dir);
    let qs = owner_queries(n, rel, dir);
    assert forall|i: int| 0 <= i < at.len() implies is_seen(n, #[trigger] at[i], true)
        && is_query_for(qs[i], n, rel, dir, at[i]) by {
        if i < count {
            let none = Seq::<usize>::empty();
            assert(at[i] == seq![i as usize]);
            assert(seq![i as usize] + none =~= at[i]);
            lemma_path_step(dir, n, i as usize, none);
            assert(rel.push(i as usize) =~= rel + at[i]);
            assert(qs[i] == dq[i]);
        } else {
            assert(at[i] == more[i - count]);
            assert(qs[i] == bq[i - count]);
        }
    }
    assert forall|i: int, j: int| 0 <= i < j < at.len() implies #[trigger] at[i]
        != #[trigger] at[j] by {
        if j < count {
            assert(at[i][0] == i as usize && at[j][0] == j as usize);
        } else if i < count {
            assert(at[j] == more[j - count]);
            assert(at[i].len() == 1 && at[j].len() > 1);
        } else {
            assert(at[i] == more[i - count] && at[j] == more[j - count]);
        }
    }
    assert forall|steps: Seq<usize>| #[trigger] is_seen(n, steps, true) implies at.contains(
        steps,
    ) by {
        if steps.len() == 1 {
            assert(steps =~= seq![steps[0]]);
            assert(at[steps[0] as int] == steps);
        } else {
            assert(more.contains(steps));
            let k = choose|k: int| 0 <= k < more.len() && more[k] == steps;
            assert(at[count + k] == steps);
        }
    }
    at
}

proof fn lemma_below(n: NodeView, k: int, rel: Seq<usize>, dir: Seq<char>) -> (at: Seq<Seq<usize>>)
    requires
        all_children_fit(n),
        0 <= k <= n.children.len(),
    ensures
        at.len() == queries_below(n, k, rel, dir).len(),
        forall|i: int|
            0 <= i < at.len() ==> is_seen(n, #[trigger] at[i], true) && at[i].len() > 1 && at[i][0]
                < k && is_query_for(queries_below(n, k, rel, dir)[i], n, rel, dir, at[i]),
        forall|i: int, j: int| 0 <= i < j < at.len() ==> #[trigger] at[i] != #[trigger] at[j],
        forall|steps: Seq<usize>| #[trigger]
            is_seen(n, steps, true) && steps.len() > 1 && steps[0] < k ==> at.contains(steps),
    decreases n, k,
{
    if k == 0 {
        Seq::empty()
    } else {
        let c = n.children[k - 1];
        let i = (k - 1) as usize;
        let more = lemma_below(n, k - 1, rel, dir);
        let rest = queries_below(n, k - 1, rel, dir);
        let all = queries_below(n, k, rel, dir);
        if c.is_folder() && c.expanded {
            let sub = path_below(dir, c.name);
            let below = rel.push(i);
            let inner = lemma_queries(c, below, sub);
            let iq = owner_queries(c, below, sub);
            let first = Seq::new(inner.len(), |j: int| seq![i] + inner[j]);
            let at = first + more;
            assert forall|j: int| 0 <= j < at.len() implies is_seen(n, #[trigger] at[j], true)
                && at[j].len() > 1 && at[j][0] < k && is_query_for(all[j], n, rel, dir, at[j]) by {
                if j < first.len() {
                    assert(at[j] == seq![i] + inner[j]);
                    lemma_seen_below(n, i, inner[j], true);
                    lemma_path_step(dir, n, i, inner[j]);
                    assert(below + inner[j] =~= rel + at[j]);
                    assert(all[j] == iq[j]);
                } else {
                    assert(at[j] == more[j - first.len()]);
                    assert(all[j] == rest[j - first.len()]);
                }
            }
            assert forall|a: int, b: int| 0 <= a < b < at.len() implies #[trigger] at[a]
                != #[trigger] at[b] by {
                if b < first.len() {
                    assert(at[a].skip(1) =~= inner[a]);
                    assert(at[b].skip(1) =~= inner[b]);
                    assert(inner[a] != inner[b]);
                } else if a < first.len() {
                    assert(at[b] == more[b - first.len()]);
                    assert(at[a][0] == i);
                } else {
                    assert(at[a] == more[a - first.len()] && at[b] == more[b - first.len()]);
                }
            }
            assert forall|steps: Seq<usize>| #[trigger]
                is_seen(n, steps, true) && steps.len() > 1 && steps[0] < k implies at.contains(
                steps,
            ) by {
                if steps[0] == i {
                    let tail = steps.skip(1);
                    assert(is_seen(c, tail, true));
                    assert(inner.contains(tail));
                    let j = choose|j: int| 0 <= j < inner.len() && inner[j] == tail;
                    assert(seq![i] + tail =~= steps);
                    assert(at[j] == steps);
                } else {
                    assert(more.contains(steps));
                    let j = choose|j: int| 0 <= j < more.len() && more[j] == steps;
                    assert(at[first.len() + j] == steps);
                }
            }
            at
        } else {
            assert(all =~= rest);
            more
        }
    }
}

/// The owner of everything that is on show below a folder is asked for, once each and under its
/// own path, and of nothing else: of every child, and of what is below the expanded ones.
pub proof fn law_owners_of_all_on_show_are_asked_for(n: NodeView, dir: Seq<char>)
    requires
        all_children_fit(n),
    ensures
        exists|at: Seq<Seq<usize>>|
            are_queries(owner_queries(n, Seq::empty(), dir), n, Seq::empty(), dir, at),
{
    let at = lemma_queries(n, Seq::empty(), dir);
}

} // verus!
