//! What a folder is made of, and what stays when a tree is changed.

use vstd::prelude::*;

use crate::model::{
    child_before, collapsed, descend, exclusive, file_total, file_view, folder_total, folder_view,
    graft, latest, logical_total, physical_total, toggled_node, totals_fit, without,
    NodeKind, NodeView,
};
use crate::sorting::{is_order, law_sort_permutes, law_sort_sorts, stable_sort};
use crate::theme::Color32;
use crate::tree_laws::diverge;

verus! {

/// One more node adds its sizes to the totals of a list, its files with itself where it is one,
/// and its folders with itself where it is one. An empty list adds up to nothing.
pub proof fn law_node_adds_its_own(s: Seq<NodeView>, n: NodeView)
    ensures
        logical_total(Seq::empty()) == 0,
        physical_total(Seq::empty()) == 0,
        file_total(Seq::empty()) == 0,
        folder_total(Seq::empty()) == 0,
        logical_total(s.push(n)) == logical_total(s) + n.logical_size,
        physical_total(s.push(n)) == physical_total(s) + n.physical_size,
        n.kind == NodeKind::File ==> file_total(s.push(n)) == file_total(s) + n.file_count + 1,
        n.kind == NodeKind::Folder ==> file_total(s.push(n)) == file_total(s) + n.file_count,
        n.kind == NodeKind::File ==> folder_total(s.push(n)) == folder_total(s) + n.folder_count,
        n.kind == NodeKind::Folder ==> folder_total(s.push(n)) == folder_total(s) + n.folder_count
            + 1,
{
    assert(s.push(n).drop_last() =~= s);
}

proof fn lemma_latest(s: Seq<NodeView>)
    ensures
        forall|i: int| 0 <= i < s.len() ==> (#[trigger] s[i]).modified_ft <= latest(s),
        s.len() == 0 ==> latest(s) == 0,
        s.len() > 0 ==> exists|i: int| 0 <= i < s.len() && (#[trigger] s[i]).modified_ft == latest(s),
    decreases s.len(),
{
    if s.len() > 0 {
        let front = s.drop_last();
        lemma_latest(front);
        assert forall|i: int| 0 <= i < s.len() implies (#[trigger] s[i]).modified_ft <= latest(
            s,
        ) by {
            if i < front.len() {
                assert(front[i] == s[i]);
            }
        }
        if latest(front) < s.last().modified_ft || front.len() == 0 {
            assert(s[s.len() - 1].modified_ft == latest(s));
        } else {
            let i = choose|i: int|
                0 <= i < front.len() && (#[trigger] front[i]).modified_ft == latest(front);
            assert(s[i].modified_ft == latest(s));
        }
    }
}

proof fn lemma_totals_positive(s: Seq<NodeView>)
    ensures
        logical_total(s) >= 0,
        physical_total(s) >= 0,
        file_total(s) >= 0,
        folder_total(s) >= 0,
    decreases s.len(),
{
    if s.len() > 0 {
        lemma_totals_positive(s.drop_last());
    }
}

proof fn lemma_child_order()
    ensures
        is_order(|a: NodeView, b: NodeView| child_before(a, b)),
{
}

/// A folder has the name and the figures that it is given and just the children that it is given,
/// larger ones first and of those of one size folders before files. Its sizes and counts are the
/// totals of its children. Nothing in it was changed later than it was.
pub proof fn law_folder_is_made_of_its_children(
    name: Seq<char>,
    color: Color32,
    children: Seq<NodeView>,
    modified_ft: u64,
    created_ft: u64,
    accessed_ft: u64,
    attributes: u32,
    reparse_tag: u32,
    is_reserved: bool,
    owner: Seq<char>,
)
    requires
        totals_fit(children),
    ensures
        ({
            let n = folder_view(
                name,
                color,
                children,
                modified_ft,
                created_ft,
                accessed_ft,
                attributes,
                reparse_tag,
                is_reserved,
                owner,
            );
            &&& n.kind == NodeKind::Folder
            &&& n.name == name
            &&& n.color == color
            &&& n.owner == owner
            &&& n.is_reserved == is_reserved
            &&& n.reparse_tag == reparse_tag
            &&& n.created_ft == created_ft
            &&& n.accessed_ft == accessed_ft
            &&& attributes != 0 ==> n.attributes == attributes
            &&& !n.expanded
            &&& n.full_path_override is None
            &&& n.size == n.logical_size
            &&& n.logical_size == logical_total(children)
            &&& n.physical_size == physical_total(children)
            &&& n.file_count == file_total(children)
            &&& n.folder_count == folder_total(children)
            &&& n.children.len() == children.len()
            &&& n.children.to_multiset() == children.to_multiset()
            &&& forall|i: int, j: int|
                0 <= i < j < n.children.len() ==> (#[trigger] n.children[i]).logical_size >= (
                #[trigger] n.children[j]).logical_size
            &&& forall|i: int, j: int|
                0 <= i < j < n.children.len() && n.children[i].logical_size
                    == n.children[j].logical_size && (#[trigger] n.children[j]).kind
                    == NodeKind::Folder ==> (#[trigger] n.children[i]).kind == NodeKind::Folder
            &&& n.modified_ft >= modified_ft
            &&& forall|i: int|
                0 <= i < children.len() ==> (#[trigger] children[i]).modified_ft <= n.modified_ft
            &&& n.modified_ft == modified_ft || exists|i: int|
                0 <= i < children.len() && (#[trigger] children[i]).modified_ft == n.modified_ft
        }),
{
    let lt = |a: NodeView, b: NodeView| child_before(a, b);
    lemma_child_order();
    law_sort_permutes(children, lt);
    law_sort_sorts(children, lt);
    lemma_latest(children);
    lemma_totals_positive(children);
    let sorted = stable_sort(children, lt);
    assert forall|i: int, j: int| 0 <= i < j < sorted.len() implies (
    #[trigger] sorted[i]).logical_size >= (#[trigger] sorted[j]).logical_size && (
    sorted[i].logical_size == sorted[j].logical_size && sorted[j].kind == NodeKind::Folder
        ==> sorted[i].kind == NodeKind::Folder) by {
        assert(!lt(sorted[j], sorted[i]));
    }
}

/// A file has the name and the figures that it is given, and nothing below it.
pub proof fn law_file_is_as_it_is_given(
    name: Seq<char>,
    logical_size: u64,
    physical_size: u64,
    color: Color32,
    modified_ft: u64,
    created_ft: u64,
    accessed_ft: u64,
    attributes: u32,
    reparse_tag: u32,
    is_reserved: bool,
    owner: Seq<char>,
)
    ensures
        ({
            let n = file_view(
                name,
                logical_size,
                physical_size,
                color,
                modified_ft,
                created_ft,
                accessed_ft,
                attributes,
                reparse_tag,
                is_reserved,
                owner,
            );
            &&& n.kind == NodeKind::File
            &&& n.name == name
            &&& n.color == color
            &&& n.owner == owner
            &&& n.is_reserved == is_reserved
            &&& n.reparse_tag == reparse_tag
            &&& n.modified_ft == modified_ft
            &&& n.created_ft == created_ft
            &&& n.accessed_ft == accessed_ft
            &&& attributes != 0 ==> n.attributes == attributes
            &&& n.size == logical_size
            &&& n.logical_size == logical_size
            &&& n.physical_size == physical_size
            &&& n.file_count == 0
            &&& n.folder_count == 0
            &&& n.children.len() == 0
            &&& !n.expanded
            &&& n.full_path_override is None
        }),
{
}

/// What is put somewhere is found there, and everything off the way to it stays as it was.
pub proof fn law_graft_is_found(n: NodeView, path: Seq<usize>, new: NodeView, other: Seq<usize>)
    requires
        descend(n, path) is Some,
    ensures
        descend(graft(n, path, new), path) == Some(new),
        diverge(path, other) ==> descend(graft(n, path, new), other) == descend(n, other),
    decreases path.len(),
{
    if path.len() > 0 {
        let i = path[0] as int;
        law_graft_is_found(n.children[i], path.skip(1), new, other.skip(1));
    }
}

/// Removing a node takes it out of the children of its parent, and leaves the others there in
/// their order. Everything off the way to the parent stays as it was.
pub proof fn law_removal_leaves_the_rest(n: NodeView, path: Seq<usize>, other: Seq<usize>)
    requires
        path.len() > 0,
        descend(n, path) is Some,
    ensures
        descend(n, path.drop_last()) is Some,
        path.last() < descend(n, path.drop_last())->0.children.len(),
        descend(without(n, path), path.drop_last()) is Some,
        descend(without(n, path), path.drop_last())->0.children == descend(
            n,
            path.drop_last(),
        )->0.children.remove(path.last() as int),
        diverge(path.drop_last(), other) ==> descend(without(n, path), other) == descend(n, other),
    decreases path.len(),
{
    let i = path[0] as int;
    if path.len() == 1 {
        assert(path.drop_last().len() == 0);
    } else {
        let rest = path.skip(1);
        law_removal_leaves_the_rest(n.children[i], rest, other.skip(1));
        assert(rest.drop_last() =~= path.drop_last().skip(1));
        assert(rest.last() == path.last());
    }
}

/// Whether two trees differ in nothing but in what is expanded.
pub open spec fn is_same_tree(a: NodeView, b: NodeView) -> bool
    decreases a,
{
    &&& a == (NodeView { children: a.children, expanded: a.expanded, ..b })
    &&& a.children.len() == b.children.len()
    &&& forall|i: int|
        0 <= i < a.children.len() ==> is_same_tree(#[trigger] a.children[i], b.children[i])
}

proof fn lemma_same_as_itself(n: NodeView)
    ensures
        is_same_tree(n, n),
    decreases n,
{
    assert forall|i: int| 0 <= i < n.children.len() implies is_same_tree(
        #[trigger] n.children[i],
        n.children[i],
    ) by {
        lemma_same_as_itself(n.children[i]);
    }
}

/// Folding a tree up changes nothing but what is expanded, and leaves the node folded.
pub proof fn law_folding_keeps_the_tree(n: NodeView)
    ensures
        is_same_tree(n, collapsed(n)),
        !collapsed(n).expanded,
    decreases n,
{
    if n.expanded {
        let m = collapsed(n);
        assert forall|i: int| 0 <= i < n.children.len() implies is_same_tree(
            #[trigger] n.children[i],
            m.children[i],
        ) by {
            law_folding_keeps_the_tree(n.children[i]);
        }
    } else {
        lemma_same_as_itself(n);
    }
}

/// A click on a node expands it where it was folded and folds it where it was expanded, and
/// changes nothing but what is expanded.
pub proof fn law_click_flips_a_node(n: NodeView)
    ensures
        is_same_tree(n, toggled_node(n)),
        toggled_node(n).expanded == !n.expanded,
        !n.expanded ==> toggled_node(n).children == n.children,
{
    if n.expanded {
        law_folding_keeps_the_tree(n);
    } else {
        assert forall|i: int| 0 <= i < n.children.len() implies is_same_tree(
            #[trigger] n.children[i],
            n.children[i],
        ) by {
            lemma_same_as_itself(n.children[i]);
        }
    }
}

/// A click that folds up the others expands its own node where it was folded, leaves all its
/// siblings folded, and changes nothing but what is expanded.
pub proof fn law_exclusive_click_folds_the_others(n: NodeView, idx: usize)
    ensures
        is_same_tree(n, exclusive(n, idx)),
        exclusive(n, idx).expanded == n.expanded,
        forall|i: int|
            0 <= i < n.children.len() ==> ((#[trigger] exclusive(n, idx).children[i]).expanded <==> i
                == idx && !n.children[i].expanded),
        idx < n.children.len() && !n.children[idx as int].expanded ==> exclusive(
            n,
            idx,
        ).children[idx as int].children == n.children[idx as int].children,
{
    let m = exclusive(n, idx);
    assert forall|i: int| 0 <= i < n.children.len() implies is_same_tree(
        #[trigger] n.children[i],
        m.children[i],
    ) && (m.children[i].expanded <==> i == idx && !n.children[i].expanded) by {
        law_folding_keeps_the_tree(n.children[i]);
        lemma_same_as_itself(n.children[i]);
        law_click_flips_a_node(n.children[i]);
    }
}

} // verus!
