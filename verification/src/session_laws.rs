//! What changes in a window when something is scanned, removed, linked or closed, and what stays.

use vstd::prelude::*;

use crate::disk_laws::law_link_takes_the_place_of_its_node;
use crate::file_ops::symlink_node;
use crate::model::{descend, toggled_node, CategoryStat, NodeKind, NodeView};
use crate::model_laws::{
    is_same_tree, law_click_flips_a_node, law_graft_is_found, law_removal_leaves_the_rest,
};
use crate::pane::{bumped, linking, removing, toggling, NewLinkView, PaneView};
use crate::session::{
    node_linked, node_removed, partition_added, partition_removed, rescan_started, tab_closed,
    EffectView, SessionView, Source,
};
use crate::tabs::UsageView;
use crate::tree_laws::{diverge, law_replacement_is_found, law_replacement_leaves_the_rest};

verus! {

/// What a path leads to in a list: the first step is the tree, and a list of groups has one.
pub open spec fn node_at(v: PaneView, path: Seq<usize>) -> Option<NodeView> {
    match v {
        PaneView::Tree(t) => if path.len() > 0 && path[0] < t.trees.len() {
            descend(t.trees[path[0] as int], path.skip(1))
        } else {
            None
        },
        PaneView::Group(g) => if path.len() > 0 && path[0] == 0 {
            descend(g.root, path.skip(1))
        } else {
            None
        },
        PaneView::Search(_) => None,
    }
}

/// The row that is selected in a list.
pub open spec fn selected_in(v: PaneView) -> Option<Seq<usize>> {
    match v {
        PaneView::Tree(t) => t.selected,
        PaneView::Group(g) => g.selected,
        PaneView::Search(s) => s.selected,
    }
}

/// The version of the nodes of a list.
pub open spec fn version_in(v: PaneView) -> Option<u64> {
    match v {
        PaneView::Tree(t) => Some(t.struct_version),
        PaneView::Group(g) => Some(g.struct_version),
        PaneView::Search(_) => None,
    }
}

proof fn lemma_diverging(path: Seq<usize>, other: Seq<usize>)
    requires
        diverge(path, other),
    ensures
        path[0] == other[0] ==> diverge(path.skip(1), other.skip(1)),
        other.len() > 0,
{
}

/// A node that was deleted is taken out of the children of its parent, and the others stay there
/// in their order; everything off the way to the parent stays; a selection is kept unless it was
/// that of the node; and the list counts as changed.
pub proof fn law_deleted_node_is_taken_out(
    v: PaneView,
    path: Seq<usize>,
    entry: Option<u32>,
    other: Seq<usize>,
)
    requires
        path.len() >= 2,
        node_at(v, path) is Some,
    ensures
        ({
            let w = removing(v, path, entry);
            &&& node_at(v, path.drop_last()) is Some
            &&& node_at(w, path.drop_last()) is Some
            &&& path.last() < node_at(v, path.drop_last())->0.children.len()
            &&& node_at(w, path.drop_last())->0.children == node_at(
                v,
                path.drop_last(),
            )->0.children.remove(path.last() as int)
            &&& diverge(path.drop_last(), other) ==> node_at(w, other) == node_at(v, other)
            &&& selected_in(v) == Some(path) ==> selected_in(w) is None
            &&& selected_in(v) != Some(path) ==> selected_in(w) == selected_in(v)
            &&& version_in(w) != version_in(v)
        }),
{
    let w = removing(v, path, entry);
    let steps = path.skip(1);
    let up = path.drop_last();
    assert(up.skip(1) =~= steps.drop_last());
    assert(steps.last() == path.last());
    match v {
        PaneView::Tree(t) => {
            let n = t.trees[path[0] as int];
            law_removal_leaves_the_rest(n, steps, other.skip(1));
            if diverge(up, other) {
                lemma_diverging(up, other);
            }
        },
        PaneView::Group(g) => {
            law_removal_leaves_the_rest(g.root, steps, other.skip(1));
            if diverge(up, other) {
                lemma_diverging(up, other);
            }
        },
        PaneView::Search(_) => {},
    }
}

/// A result of a search that was deleted is struck out, and the results are looked for again.
pub proof fn law_deleted_result_is_struck_out(v: PaneView, path: Seq<usize>, entry: u32)
    requires
        v is Search,
    ensures
        removing(v, path, Some(entry)) is Search,
        removing(v, path, Some(entry))->Search_0.search.removed
            == v->Search_0.search.removed.insert(entry),
        removing(v, path, Some(entry))->Search_0.search.results is None,
        removing(v, path, Some(entry))->Search_0.search.query == v->Search_0.search.query,
        removing(v, path, None) == v,
{
    assert(removing(v, path, None)->Search_0 =~= v->Search_0);
}

/// A link that took the place of a node stands where the node stood, with its own name and the
/// tag of a link and nothing below it; everything off the way to it stays as it was.
pub proof fn law_link_stands_where_the_node_stood(
    v: PaneView,
    path: Seq<usize>,
    link: NewLinkView,
    other: Seq<usize>,
)
    requires
        path.len() >= 2,
        link.full_path.len() > 0,
        node_at(v, path) is Some,
        v is Tree,
    ensures
        ({
            let w = linking(v, path, link);
            &&& node_at(w, path) is Some
            &&& node_at(w, path)->0.name == link.name
            &&& node_at(w, path)->0.reparse_tag == 0xA000_000C
            &&& node_at(w, path)->0.children.len() == 0
            &&& (node_at(w, path)->0.kind == NodeKind::Folder <==> link.is_folder)
            &&& node_at(w, path)->0.modified_ft == node_at(v, path)->0.modified_ft
            &&& diverge(path, other) ==> node_at(w, other) == node_at(v, other)
            &&& selected_in(w) == selected_in(v)
            &&& version_in(w) != version_in(v)
        }),
{
    let t = v->Tree_0;
    let n = t.trees[path[0] as int];
    let steps = path.skip(1);
    let old_node = descend(n, steps)->0;
    let new = symlink_node(link.full_path, link.name, link.is_folder, old_node, link.size);
    law_link_takes_the_place_of_its_node(
        link.full_path,
        link.name,
        link.is_folder,
        old_node,
        link.size,
    );
    law_replacement_is_found(n, steps, new);
    if diverge(path, other) {
        lemma_diverging(path, other);
        if path[0] == other[0] {
            law_replacement_leaves_the_rest(n, steps, new, other.skip(1));
        }
    }
}

/// A click on a row opens or closes its node, selects it, and changes nothing else but what is
/// open below it.
pub proof fn law_clicked_row_is_flipped(v: PaneView, path: Seq<usize>, other: Seq<usize>)
    requires
        path.len() > 0,
        node_at(v, path) is Some,
    ensures
        ({
            let w = toggling(v, path);
            &&& node_at(w, path) is Some
            &&& node_at(w, path)->0.expanded == !node_at(v, path)->0.expanded
            &&& is_same_tree(node_at(v, path)->0, node_at(w, path)->0)
            &&& diverge(path, other) ==> node_at(w, other) == node_at(v, other)
            &&& selected_in(w) == Some(path)
            &&& version_in(w) == version_in(v)
        }),
{
    let steps = path.skip(1);
    let x = node_at(v, path)->0;
    law_click_flips_a_node(x);
    if diverge(path, other) {
        lemma_diverging(path, other);
    }
    match v {
        PaneView::Tree(t) => {
            law_graft_is_found(t.trees[path[0] as int], steps, toggled_node(x), other.skip(1));
        },
        PaneView::Group(g) => {
            law_graft_is_found(g.root, steps, toggled_node(x), other.skip(1));
        },
        PaneView::Search(_) => {},
    }
}

/// A partition that was scanned for the first time comes behind the others, with its path; all
/// others stay. One that was scanned again takes its old place, and no other changes.
pub proof fn law_scanned_partition_takes_its_place(
    s: SessionView,
    node: NodeView,
    info: Option<UsageView>,
    stats: Vec<CategoryStat>,
)
    requires
        s.ok(),
    ensures
        ({
            let t = partition_added(s, node, info, stats);
            let n = s.main_list().trees.len();
            let again = s.scan.rescan_target is Some && s.scan.rescan_target->0 < n;
            &&& again ==> {
                let pi = s.scan.rescan_target->0 as int;
                &&& t.main_list().trees.len() == n
                &&& t.main_list().trees[pi] == node
                &&& t.infos[pi] == info
                &&& t.categories[pi] == stats
                &&& t.root_paths == s.root_paths
                &&& forall|k: int|
                    0 <= k < n && k != pi ==> #[trigger] t.main_list().trees[k]
                        == s.main_list().trees[k]
            }
            &&& !again ==> {
                &&& t.main_list().trees.len() == n + 1
                &&& t.main_list().trees.last() == node
                &&& t.infos.last() == info
                &&& t.categories.last() == stats
                &&& s.scan.current is Some ==> t.root_paths.last() == s.scan.current->0
                &&& t.root_paths.drop_last() == s.root_paths
                &&& t.main_list().trees.drop_last() == s.main_list().trees
            }
            &&& t.scan.current is None
            &&& t.scan.rescan_target is None
            &&& t.main_list().selected is None
            &&& t.main_list().struct_version != s.main_list().struct_version
            &&& t.scan.queue == s.scan.queue
        }),
{
    let t = partition_added(s, node, info, stats);
    let n = s.main_list().trees.len();
    if !(s.scan.rescan_target is Some && s.scan.rescan_target->0 < n) {
        assert(t.root_paths.drop_last() =~= s.root_paths);
        assert(t.main_list().trees.drop_last() =~= s.main_list().trees);
    }
}

/// Scanning a partition again asks for the path that it was scanned from, unless something is
/// being scanned; the list itself stays as it is until the scan is over.
pub proof fn law_rescan_asks_for_the_same_path(s: SessionView, pi: usize)
    requires
        s.ok(),
        pi < s.root_paths.len(),
        s.root_paths[pi as int].len() > 0,
    ensures
        !s.scan.scanning ==> rescan_started(s, pi).1 == EffectView::Scan(s.root_paths[pi as int])
            && rescan_started(s, pi).0.scan.rescan_target == Some(pi) && rescan_started(
            s,
            pi,
        ).0.scan.scanning,
        s.scan.scanning ==> rescan_started(s, pi).1 == EffectView::Nothing && rescan_started(
            s,
            pi,
        ).0.scan == s.scan,
        rescan_started(s, pi).0.tabs == s.tabs,
        rescan_started(s, pi).0.root_paths == s.root_paths,
{
}

/// A partition that is taken off the list is gone from all that is kept of the partitions, and
/// the others stay in their order, each with its own figures and path.
pub proof fn law_removed_partition_leaves_the_others(s: SessionView, pi: usize, k: int)
    requires
        s.ok(),
        pi < s.main_list().trees.len(),
        0 <= k < s.main_list().trees.len() - 1,
    ensures
        ({
            let t = partition_removed(s, pi);
            let j = if k < pi {
                k
            } else {
                k + 1
            };
            &&& t.main_list().trees.len() == s.main_list().trees.len() - 1
            &&& t.main_list().trees[k] == s.main_list().trees[j]
            &&& t.infos[k] == s.infos[j]
            &&& t.categories[k] == s.categories[j]
            &&& t.root_paths[k] == s.root_paths[j]
            &&& t.scan == s.scan
            &&& t.main_list().selected is None
        }),
{
}

/// A change in one tab leaves every other tab, and everything that is kept of the partitions, as
/// it was.
pub proof fn law_change_stays_in_its_tab(
    s: SessionView,
    i: usize,
    path: Seq<usize>,
    entry: Option<u32>,
    link: NewLinkView,
    k: int,
)
    requires
        0 < i < s.tabs.len(),
        0 <= k < s.tabs.len(),
        k != i,
    ensures
        node_removed(s, Source::Tab(i), path, entry).tabs[k] == s.tabs[k],
        node_linked(s, Source::Tab(i), path, link).tabs[k] == s.tabs[k],
        node_removed(s, Source::Tab(i), path, entry).root_paths == s.root_paths,
        node_removed(s, Source::Main, path, entry).tabs[if k == 0 {
            i as int
        } else {
            k
        }] == s.tabs[if k == 0 {
            i as int
        } else {
            k
        }],
        node_removed(s, Source::Tab(i), path, entry).tabs[i as int].pane == removing(
            s.tabs[i as int].pane,
            path,
            entry,
        ),
        node_linked(s, Source::Tab(i), path, link).tabs[i as int].pane == linking(
            s.tabs[i as int].pane,
            path,
            link,
        ),
{
}

/// Closing a tab takes that tab away and leaves the others in their order. The list of
/// partitions is not closed.
pub proof fn law_closed_tab_leaves_the_others(s: SessionView, i: usize, k: int)
    ensures
        i == 0 || i >= s.tabs.len() ==> tab_closed(s, i) == s,
        0 < i < s.tabs.len() ==> tab_closed(s, i).tabs.len() == s.tabs.len() - 1,
        0 < i < s.tabs.len() && 0 <= k < i ==> tab_closed(s, i).tabs[k] == s.tabs[k],
        0 < i < s.tabs.len() && i <= k < s.tabs.len() - 1 ==> tab_closed(s, i).tabs[k] == s.tabs[k
            + 1],
        tab_closed(s, i).root_paths == s.root_paths,
        tab_closed(s, i).scan == s.scan,
{
}

/// A version that was counted up is another one.
pub proof fn law_versions_differ(v: u64)
    ensures
        bumped(v) != v,
{
}

} // verus!
