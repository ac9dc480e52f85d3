//! What holds of trees as a whole: the totals, and what is expanded.

use vstd::prelude::*;

use crate::model::{
    child_before, collapsed, descend, exclusive, file_total, folder_total, folder_view, graft,
    logical_total, physical_total, replaced, toggled_node, total, totals_fit, without, NodeView,
};
use crate::sorting::{insert_sorted, stable_sort};
use crate::theme::Color32;

verus! {

/// Every total in the tree is the total over what stands below it.
pub open spec fn consistent(n: NodeView) -> bool
    decreases n,
{
    &&& n.size == n.logical_size
    &&& n.is_folder() ==> {
        &&& n.logical_size == logical_total(n.children)
        &&& n.physical_size == physical_total(n.children)
        &&& n.file_count == file_total(n.children)
        &&& n.folder_count == folder_total(n.children)
    }
    &&& n.is_file() ==> n.children.len() == 0 && n.file_count == 0 && n.folder_count == 0
    &&& forall|i: int| 0 <= i < n.children.len() ==> consistent(#[trigger] n.children[i])
}

proof fn lemma_total_push(s: Seq<NodeView>, x: NodeView, f: spec_fn(NodeView) -> int)
    ensures
        total(s.push(x), f) == total(s, f) + f(x),
{
    assert(s.push(x).drop_last() =~= s);
}

proof fn lemma_total_insert(
    s: Seq<NodeView>,
    x: NodeView,
    lt: spec_fn(NodeView, NodeView) -> bool,
    f: spec_fn(NodeView) -> int,
)
    ensures
        total(insert_sorted(s, x, lt), f) == total(s, f) + f(x),
    decreases s.len(),
{
    if s.len() == 0 {
        assert(insert_sorted(s, x, lt) =~= s.push(x));
        lemma_total_push(s, x, f);
    } else if lt(x, s.last()) {
        lemma_total_insert(s.drop_last(), x, lt, f);
        lemma_total_push(insert_sorted(s.drop_last(), x, lt), s.last(), f);
    } else {
        lemma_total_push(s, x, f);
    }
}

proof fn lemma_total_sort(
    s: Seq<NodeView>,
    lt: spec_fn(NodeView, NodeView) -> bool,
    f: spec_fn(NodeView) -> int,
)
    ensures
        total(stable_sort(s, lt), f) == total(s, f),
    decreases s.len(),
{
    if s.len() > 0 {
        lemma_total_sort(s.drop_last(), lt, f);
        lemma_total_insert(stable_sort(s.drop_last(), lt), s.last(), lt, f);
    }
}

proof fn lemma_total_update(
    s: Seq<NodeView>,
    i: int,
    x: NodeView,
    f: spec_fn(NodeView) -> int,
)
    requires
        0 <= i < s.len(),
    ensures
        total(s.update(i, x), f) == total(s, f) - f(s[i]) + f(x),
    decreases s.len(),
{
    let u = s.update(i, x);
    if i == s.len() - 1 {
        assert(u.drop_last() =~= s.drop_last());
    } else {
        lemma_total_update(s.drop_last(), i, x, f);
        assert(u.drop_last() =~= s.drop_last().update(i, x));
    }
}

proof fn lemma_total_remove(s: Seq<NodeView>, i: int, f: spec_fn(NodeView) -> int)
    requires
        0 <= i < s.len(),
    ensures
        total(s.remove(i), f) == total(s, f) - f(s[i]),
    decreases s.len(),
{
    if i == s.len() - 1 {
        assert(s.remove(i) =~= s.drop_last());
    } else {
        lemma_total_remove(s.drop_last(), i, f);
        assert(s.remove(i).drop_last() =~= s.drop_last().remove(i));
        assert(s.remove(i).last() == s.last());
    }
}

proof fn lemma_total_bounds(s: Seq<NodeView>, i: int, f: spec_fn(NodeView) -> int)
    requires
        0 <= i < s.len(),
        forall|n: NodeView| #[trigger] f(n) >= 0,
    ensures
        f(s[i]) <= total(s, f),
    decreases s.len(),
{
    if i < s.len() - 1 {
        lemma_total_bounds(s.drop_last(), i, f);
    } else {
        lemma_total_not_negative(s.drop_last(), f);
    }
}

proof fn lemma_total_not_negative(s: Seq<NodeView>, f: spec_fn(NodeView) -> int)
    requires
        forall|n: NodeView| #[trigger] f(n) >= 0,
    ensures
        total(s, f) >= 0,
    decreases s.len(),
{
    if s.len() > 0 {
        lemma_total_not_negative(s.drop_last(), f);
    }
}

proof fn lemma_insert_members(
    s: Seq<NodeView>,
    x: NodeView,
    lt: spec_fn(NodeView, NodeView) -> bool,
    p: spec_fn(NodeView) -> bool,
)
    requires
        p(x),
        forall|i: int| 0 <= i < s.len() ==> p(#[trigger] s[i]),
    ensures
        forall|i: int|
            0 <= i < insert_sorted(s, x, lt).len() ==> p(#[trigger] insert_sorted(s, x, lt)[i]),
    decreases s.len(),
{
    let r = insert_sorted(s, x, lt);
    if s.len() > 0 && lt(x, s.last()) {
        lemma_insert_members(s.drop_last(), x, lt, p);
        assert(p(s[s.len() - 1]));
        assert forall|i: int| 0 <= i < r.len() implies p(#[trigger] r[i]) by {
            if i < r.len() - 1 {
                assert(r[i] == insert_sorted(s.drop_last(), x, lt)[i]);
            }
        }
    }
}

proof fn lemma_sort_members(
    s: Seq<NodeView>,
    lt: spec_fn(NodeView, NodeView) -> bool,
    p: spec_fn(NodeView) -> bool,
)
    requires
        forall|i: int| 0 <= i < s.len() ==> p(#[trigger] s[i]),
    ensures
        forall|i: int| 0 <= i < stable_sort(s, lt).len() ==> p(#[trigger] stable_sort(s, lt)[i]),
    decreases s.len(),
{
    if s.len() > 0 {
        assert forall|i: int| 0 <= i < s.drop_last().len() implies p(
            #[trigger] s.drop_last()[i],
        ) by {
            assert(s.drop_last()[i] == s[i]);
        }
        assert(p(s[s.len() - 1]));
        lemma_sort_members(s.drop_last(), lt, p);
        lemma_insert_members(stable_sort(s.drop_last(), lt), s.last(), lt, p);
    }
}

/// A folder made of consistent children is consistent.
pub proof fn law_new_folder_is_consistent(
    name: Seq<char>,
    color: Color32,
    children: Seq<NodeView>,
    modified_ft: u64,
    created_ft: u64,
    accessed_ft: u64,
    attributes: u32,
    reparse_tag: u32,
    is_reserved: bool,
    owner: Seq<char>,
)
    requires
        totals_fit(children),
        forall|i: int| 0 <= i < children.len() ==> consistent(#[trigger] children[i]),
    ensures
        consistent(
            folder_view(
                name,
                color,
                children,
                modified_ft,
                created_ft,
                accessed_ft,
                attributes,
                reparse_tag,
                is_reserved,
                owner,
            ),
        ),
{
    let lt = |a: NodeView, b: NodeView| child_before(a, b);
    lemma_total_sort(children, lt, |n: NodeView| n.logical_size as int);
    lemma_total_sort(children, lt, |n: NodeView| n.physical_size as int);
    lemma_total_sort(children, lt, |n: NodeView| n.files());
    lemma_total_sort(children, lt, |n: NodeView| n.folders());
    lemma_total_not_negative(children, |n: NodeView| n.logical_size as int);
    lemma_total_not_negative(children, |n: NodeView| n.physical_size as int);
    lemma_total_not_negative(children, |n: NodeView| n.files());
    lemma_total_not_negative(children, |n: NodeView| n.folders());
    lemma_sort_members(children, lt, |n: NodeView| consistent(n));
}

proof fn lemma_child_bounds(n: NodeView, i: int)
    requires
        consistent(n),
        0 <= i < n.children.len(),
    ensures
        n.is_folder(),
        consistent(n.children[i]),
        n.children[i].logical_size <= n.logical_size,
        n.children[i].physical_size <= n.physical_size,
        n.children[i].files() <= n.file_count,
        n.children[i].folders() <= n.folder_count,
{
    lemma_total_bounds(n.children, i, |c: NodeView| c.logical_size as int);
    lemma_total_bounds(n.children, i, |c: NodeView| c.physical_size as int);
    lemma_total_bounds(n.children, i, |c: NodeView| c.files());
    lemma_total_bounds(n.children, i, |c: NodeView| c.folders());
}

/// In a consistent tree no node outweighs one above it.
pub proof fn law_descendant_is_no_larger(n: NodeView, path: Seq<usize>)
    requires
        consistent(n),
        path.len() > 0,
        descend(n, path) is Some,
    ensures
        consistent(descend(n, path)->0),
        descend(n, path)->0.logical_size <= n.logical_size,
        descend(n, path)->0.physical_size <= n.physical_size,
        descend(n, path)->0.files() <= n.file_count,
        descend(n, path)->0.folders() <= n.folder_count,
    decreases path.len(),
{
    let i = path[0] as int;
    lemma_child_bounds(n, i);
    if path.len() > 1 {
        law_descendant_is_no_larger(n.children[i], path.skip(1));
    } else {
        assert(path.skip(1).len() == 0);
        assert(descend(n.children[i], path.skip(1)) == Some(n.children[i]));
    }
}

proof fn lemma_child_swapped(n: NodeView, i: int, c: NodeView)
    requires
        consistent(n),
        0 <= i < n.children.len(),
        consistent(c),
    ensures
        ({
            let u = n.children.update(i, c);
            let o = n.children[i];
            &&& logical_total(u) == n.logical_size - o.logical_size + c.logical_size
            &&& physical_total(u) == n.physical_size - o.physical_size + c.physical_size
            &&& file_total(u) == n.file_count - o.files() + c.files()
            &&& folder_total(u) == n.folder_count - o.folders() + c.folders()
            &&& forall|k: int| 0 <= k < u.len() ==> consistent(#[trigger] u[k])
        }),
{
    lemma_child_bounds(n, i);
    lemma_total_update(n.children, i, c, |c: NodeView| c.logical_size as int);
    lemma_total_update(n.children, i, c, |c: NodeView| c.physical_size as int);
    lemma_total_update(n.children, i, c, |c: NodeView| c.files());
    lemma_total_update(n.children, i, c, |c: NodeView| c.folders());
    let u = n.children.update(i, c);
    assert forall|k: int| 0 <= k < u.len() implies consistent(#[trigger] u[k]) by {
        if k != i {
            assert(u[k] == n.children[k]);
        }
    }
}

/// Taking a node out keeps the tree consistent: every node above loses just what it held.
pub proof fn law_removal_keeps_totals(n: NodeView, path: Seq<usize>)
    requires
        consistent(n),
        path.len() > 0,
        descend(n, path) is Some,
    ensures
        consistent(without(n, path)),
        ({
            let gone = descend(n, path)->0;
            let m = without(n, path);
            &&& m.kind == n.kind
            &&& m.logical_size == n.logical_size - gone.logical_size
            &&& m.physical_size == n.physical_size - gone.physical_size
            &&& m.file_count == n.file_count - gone.files()
            &&& m.folder_count == n.folder_count - gone.folders()
        }),
    decreases path.len(),
{
    let i = path[0] as int;
    let gone = descend(n, path)->0;
    law_descendant_is_no_larger(n, path);
    lemma_child_bounds(n, i);
    let m = without(n, path);
    if path.len() == 1 {
        assert(path.skip(1).len() == 0);
        assert(descend(n.children[i], path.skip(1)) == Some(n.children[i]));
        lemma_total_remove(n.children, i, |c: NodeView| c.logical_size as int);
        lemma_total_remove(n.children, i, |c: NodeView| c.physical_size as int);
        lemma_total_remove(n.children, i, |c: NodeView| c.files());
        lemma_total_remove(n.children, i, |c: NodeView| c.folders());
        assert forall|k: int| 0 <= k < m.children.len() implies consistent(
            #[trigger] m.children[k],
        ) by {
            if k < i {
                assert(m.children[k] == n.children[k]);
            } else {
                assert(m.children[k] == n.children[k + 1]);
            }
        }
    } else {
        let c = without(n.children[i], path.skip(1));
        law_removal_keeps_totals(n.children[i], path.skip(1));
        lemma_child_swapped(n, i, c);
    }
}

/// Putting a node in the place of another keeps the tree consistent, and every node above
/// changes by the difference, as long as the new totals fit.
pub proof fn law_replacement_keeps_totals(n: NodeView, path: Seq<usize>, new: NodeView)
    requires
        consistent(n),
        consistent(new),
        path.len() > 0,
        descend(n, path) is Some,
        n.logical_size - descend(n, path)->0.logical_size + new.logical_size <= u64::MAX,
        n.physical_size - descend(n, path)->0.physical_size + new.physical_size <= u64::MAX,
        n.file_count - descend(n, path)->0.files() + new.files() <= u64::MAX,
        n.folder_count - descend(n, path)->0.folders() + new.folders() <= u64::MAX,
    ensures
        consistent(replaced(n, path, new)),
        ({
            let old = descend(n, path)->0;
            let m = replaced(n, path, new);
            &&& m.kind == n.kind
            &&& m.logical_size == n.logical_size - old.logical_size + new.logical_size
            &&& m.physical_size == n.physical_size - old.physical_size + new.physical_size
            &&& m.file_count == n.file_count - old.files() + new.files()
            &&& m.folder_count == n.folder_count - old.folders() + new.folders()
        }),
    decreases path.len(),
{
    let i = path[0] as int;
    law_descendant_is_no_larger(n, path);
    lemma_child_bounds(n, i);
    if path.len() == 1 {
        assert(path.skip(1).len() == 0);
        assert(descend(n.children[i], path.skip(1)) == Some(n.children[i]));
        lemma_child_swapped(n, i, new);
    } else {
        law_replacement_keeps_totals(n.children[i], path.skip(1), new);
        lemma_child_swapped(n, i, replaced(n.children[i], path.skip(1), new));
    }
}

/// What a replacement put somewhere is what is found there.
pub proof fn law_replacement_is_found(n: NodeView, path: Seq<usize>, new: NodeView)
    requires
        path.len() > 0,
        descend(n, path) is Some,
    ensures
        descend(replaced(n, path, new), path) == Some(new),
    decreases path.len(),
{
    let i = path[0] as int;
    let m = replaced(n, path, new);
    if path.len() == 1 {
        assert(path.skip(1).len() == 0);
        assert(descend(m.children[i], path.skip(1)) == Some(new));
    } else {
        law_replacement_is_found(n.children[i], path.skip(1), new);
    }
}

/// Two paths part ways: they agree up to some level and differ there.
pub open spec fn diverge(p: Seq<usize>, q: Seq<usize>) -> bool
    decreases p.len(),
{
    p.len() > 0 && q.len() > 0 && (p[0] != q[0] || diverge(p.skip(1), q.skip(1)))
}

/// A replacement leaves everything off its path where and as it was.
pub proof fn law_replacement_leaves_the_rest(
    n: NodeView,
    path: Seq<usize>,
    new: NodeView,
    other: Seq<usize>,
)
    requires
        diverge(path, other),
    ensures
        descend(replaced(n, path, new), other) == descend(n, other),
    decreases path.len(),
{
    let i = path[0] as int;
    let m = replaced(n, path, new);
    if i < n.children.len() && descend(n, path) is Some {
        if path[0] == other[0] {
            assert(diverge(path.skip(1), other.skip(1)));
            assert(path.skip(1).len() > 0);
            law_replacement_leaves_the_rest(n.children[i], path.skip(1), new, other.skip(1));
        } else if other[0] < n.children.len() {
            assert(m.children[other[0] as int] == n.children[other[0] as int]);
        }
    }
}

/// Nothing below a node that is folded up is expanded.
pub open spec fn tidy(n: NodeView) -> bool
    decreases n,
{
    &&& forall|i: int| 0 <= i < n.children.len() ==> tidy(#[trigger] n.children[i])
    &&& !n.expanded ==> forall|i: int| 0 <= i < n.children.len() ==> !(#[trigger] n.children[i]).expanded
}

/// No node of the tree is expanded.
pub open spec fn folded_up(n: NodeView) -> bool
    decreases n,
{
    &&& !n.expanded
    &&& forall|i: int| 0 <= i < n.children.len() ==> folded_up(#[trigger] n.children[i])
}

proof fn lemma_tidy_folded(n: NodeView)
    requires
        tidy(n),
        !n.expanded,
    ensures
        folded_up(n),
    decreases n,
{
    assert forall|i: int| 0 <= i < n.children.len() implies folded_up(#[trigger] n.children[i]) by {
        lemma_tidy_folded(n.children[i]);
    }
}

proof fn lemma_folded_tidy(n: NodeView)
    requires
        folded_up(n),
    ensures
        tidy(n),
    decreases n,
{
    assert forall|i: int| 0 <= i < n.children.len() implies tidy(#[trigger] n.children[i])
        && !n.children[i].expanded by {
        assert(folded_up(n.children[i]));
        lemma_folded_tidy(n.children[i]);
    }
}

/// Folding up a tidy tree leaves nothing expanded in it, though nodes that were folded up are
/// not entered.
pub proof fn law_collapse_folds_everything(n: NodeView)
    requires
        tidy(n),
    ensures
        folded_up(collapsed(n)),
    decreases n,
{
    if n.expanded {
        let m = collapsed(n);
        assert forall|i: int| 0 <= i < m.children.len() implies folded_up(
            #[trigger] m.children[i],
        ) by {
            law_collapse_folds_everything(n.children[i]);
        }
    } else {
        lemma_tidy_folded(n);
    }
}

/// Every node on the way to the end of a path is expanded, the last one left out.
pub open spec fn visible(n: NodeView, path: Seq<usize>) -> bool
    decreases path.len(),
{
    path.len() > 0 ==> n.expanded && path[0] < n.children.len() && visible(
        n.children[path[0] as int],
        path.skip(1),
    )
}

/// A click on a node that is on show keeps the tree tidy.
pub proof fn law_toggle_keeps_tidy(n: NodeView, path: Seq<usize>)
    requires
        tidy(n),
        visible(n, path),
    ensures
        descend(n, path) is Some,
        tidy(graft(n, path, toggled_node(descend(n, path)->0))),
        path.len() > 0 ==> graft(n, path, toggled_node(descend(n, path)->0)).expanded,
    decreases path.len(),
{
    if path.len() == 0 {
        if n.expanded {
            law_collapse_folds_everything(n);
            lemma_folded_tidy(collapsed(n));
        }
    } else {
        let i = path[0] as int;
        law_toggle_keeps_tidy(n.children[i], path.skip(1));
        let m = graft(n, path, toggled_node(descend(n, path)->0));
        assert forall|k: int| 0 <= k < m.children.len() implies tidy(#[trigger] m.children[k]) by {
            if k != i {
                assert(m.children[k] == n.children[k]);
            }
        }
    }
}

/// Expanding a folded node and folding it up again gives the tree back, where it was tidy.
pub proof fn law_toggle_twice(n: NodeView)
    requires
        tidy(n),
        !n.expanded,
    ensures
        toggled_node(toggled_node(n)) == n,
{
    let m = toggled_node(n);
    assert(collapsed(m).children =~= n.children) by {
        assert forall|i: int| 0 <= i < n.children.len() implies collapsed(
            #[trigger] n.children[i],
        ) == n.children[i] by {
            assert(!n.children[i].expanded);
        }
    }
}

/// After an exclusive toggle at most one of the siblings is expanded.
pub proof fn law_exclusive_toggle_leaves_one(n: NodeView, idx: usize, i: int)
    requires
        0 <= i < n.children.len(),
    ensures
        exclusive(n, idx).children[i].expanded ==> i == idx && !n.children[i].expanded,
{
}

} // verus!
