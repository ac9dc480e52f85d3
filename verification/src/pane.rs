//! What a tab shows: a list of partitions, a list of groups, or search results; and what
//! selecting, opening, finding, deleting and linking do to it.

use vstd::prelude::*;
use vstd::slice::slice_subrange;

use crate::compact_tree::{CacheView, ViewState};
use crate::file_ops::{build_refreshed_symlink_node, is_empty, symlink_node};
use crate::list_search::{ListSearch, SearchStateView};
use crate::model::{
    descend, forest_view, graft, lemma_children, replaced, toggled_node, without, Node, NodePath,
    NodeView, SortState,
};
use crate::tree_list::{copy_path, same_path};

verus! {

/// The next version: after the last one comes the first.
pub open spec fn bumped(v: u64) -> u64 {
    if v == u64::MAX {
        0
    } else {
        (v + 1) as u64
    }
}

/// The next version.
pub fn bump(v: u64) -> (r: u64)
    ensures
        r == bumped(v),
{
    if v == u64::MAX {
        0
    } else {
        v + 1
    }
}

/// The steps of an optional path.
pub open spec fn path_option(p: Option<NodePath>) -> Option<Seq<usize>> {
    match p {
        Some(x) => Some(x@),
        None => None,
    }
}

/// A list of partitions.
pub struct TreePane {
    pub trees: Vec<Node>,
    pub selected: Option<NodePath>,
    pub sort: SortState,
    /// Goes up whenever the rows have to be made anew.
    pub expand_version: u64,
    /// Goes up whenever a node leaves the list or is replaced.
    pub struct_version: u64,
    /// The row to scroll to, once.
    pub pending_scroll: Option<NodePath>,
}

/// What a [`TreePane`] holds.
#[verifier::ext_equal]
pub struct TreePaneView {
    pub trees: Seq<NodeView>,
    pub selected: Option<Seq<usize>>,
    pub sort: SortState,
    pub expand_version: u64,
    pub struct_version: u64,
    pub pending_scroll: Option<Seq<usize>>,
}

impl View for TreePane {
    type V = TreePaneView;

    open spec fn view(&self) -> TreePaneView {
        TreePaneView {
            trees: forest_view(self.trees@),
            selected: path_option(self.selected),
            sort: self.sort,
            expand_version: self.expand_version,
            struct_version: self.struct_version,
            pending_scroll: path_option(self.pending_scroll),
        }
    }
}

/// A list of groups of files below one root.
pub struct GroupPane {
    pub root: Node,
    pub selected: Option<NodePath>,
    pub view: ViewState,
}

/// What a [`GroupPane`] holds.
#[verifier::ext_equal]
pub struct GroupPaneView {
    pub root: NodeView,
    pub selected: Option<Seq<usize>>,
    pub sort: crate::compact_tree::SortState,
    pub expand_version: u64,
    pub struct_version: u64,
    pub pending_scroll: Option<Seq<usize>>,
    pub cached: Option<CacheView>,
}

impl View for GroupPane {
    type V = GroupPaneView;

    open spec fn view(&self) -> GroupPaneView {
        GroupPaneView {
            root: self.root@,
            selected: path_option(self.selected),
            sort: self.view.sort,
            expand_version: self.view.expand_version,
            struct_version: self.view.struct_version,
            pending_scroll: path_option(self.view.pending_scroll),
            cached: self.view.cached(),
        }
    }
}

/// A list of search results.
pub struct SearchPane {
    pub search: ListSearch,
    pub selected: Option<NodePath>,
    pub sort: SortState,
    pub pending_scroll: Option<NodePath>,
    pub pending_scroll_entry: Option<u32>,
}

/// What a [`SearchPane`] holds.
#[verifier::ext_equal]
pub struct SearchPaneView {
    pub search: SearchStateView,
    pub selected: Option<Seq<usize>>,
    pub sort: SortState,
    pub pending_scroll: Option<Seq<usize>>,
    pub pending_scroll_entry: Option<u32>,
}

impl View for SearchPane {
    type V = SearchPaneView;

    open spec fn view(&self) -> SearchPaneView {
        SearchPaneView {
            search: self.search@,
            selected: path_option(self.selected),
            sort: self.sort,
            pending_scroll: path_option(self.pending_scroll),
            pending_scroll_entry: self.pending_scroll_entry,
        }
    }
}

/// What a tab shows.
pub enum Pane {
    Tree(TreePane),
    Group(GroupPane),
    Search(SearchPane),
}

/// What a [`Pane`] holds.
#[verifier::ext_equal]
pub enum PaneView {
    Tree(TreePaneView),
    Group(GroupPaneView),
    Search(SearchPaneView),
}

impl View for Pane {
    type V = PaneView;

    open spec fn view(&self) -> PaneView {
        match self {
            Pane::Tree(t) => PaneView::Tree(t@),
            Pane::Group(g) => PaneView::Group(g@),
            Pane::Search(s) => PaneView::Search(s@),
        }
    }
}

/// The list with a row selected.
pub open spec fn selecting(v: PaneView, path: Seq<usize>) -> PaneView {
    match v {
        PaneView::Tree(t) => PaneView::Tree(TreePaneView { selected: Some(path), ..t }),
        PaneView::Group(g) => PaneView::Group(GroupPaneView { selected: Some(path), ..g }),
        PaneView::Search(s) => PaneView::Search(SearchPaneView { selected: Some(path), ..s }),
    }
}

/// A tree with the node that the steps lead to opened or closed.
pub open spec fn toggled_at(n: NodeView, steps: Seq<usize>) -> NodeView {
    match descend(n, steps) {
        Some(x) => graft(n, steps, toggled_node(x)),
        None => n,
    }
}

/// The trees with the one that a path starts at changed.
pub open spec fn with_tree(
    trees: Seq<NodeView>,
    path: Seq<usize>,
    change: spec_fn(NodeView, Seq<usize>) -> NodeView,
) -> Seq<NodeView> {
    if path.len() > 0 && path[0] < trees.len() {
        trees.update(path[0] as int, change(trees[path[0] as int], path.skip(1)))
    } else {
        trees
    }
}

/// The steps below the first of a path.
pub open spec fn below_first(path: Seq<usize>) -> Seq<usize> {
    if path.len() == 0 {
        path
    } else {
        path.skip(1)
    }
}

/// The list with a row opened or closed, and selected. Search results have nothing to open.
pub open spec fn toggling(v: PaneView, path: Seq<usize>) -> PaneView {
    match v {
        PaneView::Tree(t) => PaneView::Tree(
            TreePaneView {
                trees: with_tree(t.trees, path, |n: NodeView, s: Seq<usize>| toggled_at(n, s)),
                selected: Some(path),
                expand_version: bumped(t.expand_version),
                ..t
            },
        ),
        PaneView::Group(g) => PaneView::Group(
            GroupPaneView {
                root: toggled_at(g.root, path.skip(1)),
                selected: Some(path),
                expand_version: bumped(g.expand_version),
                ..g
            },
        ),
        PaneView::Search(s) => v,
    }
}

/// A tree with everything above the node that the steps lead to opened.
pub open spec fn revealed(n: NodeView, steps: Seq<usize>) -> NodeView
    decreases steps.len(),
{
    if steps.len() >= 2 && steps[0] < n.children.len() {
        NodeView {
            expanded: true,
            children: n.children.update(
                steps[0] as int,
                revealed(n.children[steps[0] as int], steps.skip(1)),
            ),
            ..n
        }
    } else {
        NodeView { expanded: true, ..n }
    }
}

/// Whether anything above the node that the steps lead to was closed.
pub open spec fn was_closed(n: NodeView, steps: Seq<usize>) -> bool
    decreases steps.len(),
{
    !n.expanded || (steps.len() >= 2 && steps[0] < n.children.len() && was_closed(
        n.children[steps[0] as int],
        steps.skip(1),
    ))
}

/// The list with everything above a row opened, the row selected and about to be scrolled to.
/// Search results stand in no tree: there the entry of the row is kept too.
pub open spec fn revealing(v: PaneView, path: Seq<usize>, entry: Option<u32>) -> PaneView {
    match v {
        PaneView::Tree(t) => PaneView::Tree(
            TreePaneView {
                trees: with_tree(t.trees, path, |n: NodeView, s: Seq<usize>| revealed(n, s)),
                selected: Some(path),
                pending_scroll: Some(path),
                expand_version: if path.len() > 0 && path[0] < t.trees.len() && was_closed(
                    t.trees[path[0] as int],
                    path.skip(1),
                ) {
                    bumped(t.expand_version)
                } else {
                    t.expand_version
                },
                ..t
            },
        ),
        PaneView::Group(g) => PaneView::Group(
            GroupPaneView {
                root: revealed(g.root, below_first(path)),
                selected: Some(path),
                pending_scroll: Some(path),
                expand_version: if was_closed(g.root, below_first(path)) {
                    bumped(g.expand_version)
                } else {
                    g.expand_version
                },
                ..g
            },
        ),
        PaneView::Search(s) => PaneView::Search(
            SearchPaneView {
                selected: Some(path),
                pending_scroll: Some(path),
                pending_scroll_entry: entry,
                ..s
            },
        ),
    }
}

/// A selection without a path that is gone.
pub open spec fn deselected(selected: Option<Seq<usize>>, path: Seq<usize>) -> Option<Seq<usize>> {
    if selected == Some(path) {
        None
    } else {
        selected
    }
}

/// The list without a node that was deleted. A partition itself stays; of search results the
/// entry is struck out.
pub open spec fn removing(v: PaneView, path: Seq<usize>, entry: Option<u32>) -> PaneView {
    match v {
        PaneView::Tree(t) => PaneView::Tree(
            TreePaneView {
                trees: if path.len() >= 2 {
                    with_tree(t.trees, path, |n: NodeView, s: Seq<usize>| without(n, s))
                } else {
                    t.trees
                },
                selected: deselected(t.selected, path),
                expand_version: bumped(t.expand_version),
                struct_version: bumped(t.struct_version),
                ..t
            },
        ),
        PaneView::Group(g) => PaneView::Group(
            GroupPaneView {
                root: if path.len() >= 2 {
                    without(g.root, path.skip(1))
                } else {
                    g.root
                },
                selected: deselected(g.selected, path),
                expand_version: bumped(g.expand_version),
                struct_version: bumped(g.struct_version),
                ..g
            },
        ),
        PaneView::Search(s) => PaneView::Search(
            SearchPaneView {
                search: match entry {
                    Some(e) => SearchStateView {
                        removed: s.search.removed.insert(e),
                        results: None,
                        ..s.search
                    },
                    None => s.search,
                },
                ..s
            },
        ),
    }
}

/// A link that has taken the place of a file or folder.
pub struct NewLink<'a> {
    pub full_path: &'a str,
    pub name: &'a str,
    pub is_folder: bool,
    /// What the system says of the link itself, 0 where it says nothing.
    pub size: u64,
}

/// What a [`NewLink`] holds.
#[verifier::ext_equal]
pub struct NewLinkView {
    pub full_path: Seq<char>,
    pub name: Seq<char>,
    pub is_folder: bool,
    pub size: u64,
}

impl<'a> View for NewLink<'a> {
    type V = NewLinkView;

    open spec fn view(&self) -> NewLinkView {
        NewLinkView {
            full_path: self.full_path@,
            name: self.name@,
            is_folder: self.is_folder,
            size: self.size,
        }
    }
}

/// A tree with a link in place of the node that the steps lead to.
pub open spec fn linked_at(n: NodeView, steps: Seq<usize>, link: NewLinkView) -> NodeView {
    match descend(n, steps) {
        Some(old_node) => replaced(
            n,
            steps,
            symlink_node(link.full_path, link.name, link.is_folder, old_node, link.size),
        ),
        None => n,
    }
}

/// The list with a link in place of a file or folder. Search results stay as they are, and so
/// does everything where the place is not known.
pub open spec fn linking(v: PaneView, path: Seq<usize>, link: NewLinkView) -> PaneView {
    if path.len() < 2 || link.full_path.len() == 0 {
        v
    } else {
        match v {
            PaneView::Tree(t) => PaneView::Tree(
                TreePaneView {
                    trees: with_tree(
                        t.trees,
                        path,
                        |n: NodeView, s: Seq<usize>| linked_at(n, s, link),
                    ),
                    expand_version: bumped(t.expand_version),
                    struct_version: bumped(t.struct_version),
                    ..t
                },
            ),
            PaneView::Group(g) => PaneView::Group(
                GroupPaneView {
                    root: linked_at(g.root, path.skip(1), link),
                    expand_version: bumped(g.expand_version),
                    struct_version: bumped(g.struct_version),
                    ..g
                },
            ),
            PaneView::Search(s) => v,
        }
    }
}

/// Whether the counts of a node can be taken off those above it.
pub open spec fn countable(n: NodeView) -> bool {
    n.files() <= u64::MAX && n.folders() <= u64::MAX
}

/// Whether the counts of the node that the steps lead to, if any, can be taken off those above it.
pub open spec fn countable_at(n: NodeView, steps: Seq<usize>) -> bool {
    match descend(n, steps) {
        Some(x) => countable(x),
        None => true,
    }
}

/// Whether the node that a path leads to, if any, can be deleted or replaced.
pub open spec fn changeable(v: PaneView, path: Seq<usize>) -> bool {
    match v {
        PaneView::Tree(t) => path.len() >= 2 && path[0] < t.trees.len() ==> countable_at(
            t.trees[path[0] as int],
            path.skip(1),
        ),
        PaneView::Group(g) => path.len() >= 2 ==> countable_at(g.root, path.skip(1)),
        PaneView::Search(_) => true,
    }
}

fn rest_of(path: &[usize]) -> (r: &[usize])
    requires
        path@.len() > 0,
    ensures
        r@ == path@.skip(1),
{
    let r = slice_subrange(path, 1, path.len());
    assert(r@ =~= path@.skip(1));
    r
}

/// A tree with the first `k` nodes on a way expanded, and another node at the end of these.
spec fn on_the_way(n: NodeView, steps: Seq<usize>, k: nat, y: NodeView) -> NodeView
    decreases k,
{
    if k == 0 {
        y
    } else {
        NodeView {
            expanded: true,
            children: n.children.update(
                steps[0] as int,
                on_the_way(n.children[steps[0] as int], steps.skip(1), (k - 1) as nat, y),
            ),
            ..n
        }
    }
}

proof fn lemma_one_further(n: NodeView, steps: Seq<usize>, k: nat, y: NodeView)
    requires
        k < steps.len(),
        descend(n, steps.take(k as int)) is Some,
        steps[k as int] < (descend(n, steps.take(k as int))->0).children.len(),
    ensures
        on_the_way(n, steps, k + 1, y) == on_the_way(
            n,
            steps,
            k,
            NodeView {
                expanded: true,
                children: (descend(n, steps.take(k as int))->0).children.update(
                    steps[k as int] as int,
                    y,
                ),
                ..descend(n, steps.take(k as int))->0
            },
        ),
        descend(n, steps.take(k as int + 1)) == Some(
            (descend(n, steps.take(k as int))->0).children[steps[k as int] as int],
        ),
    decreases k,
{
    if k == 0 {
        reveal_with_fuel(on_the_way, 2);
        reveal_with_fuel(descend, 2);
        assert(steps.take(0) =~= Seq::<usize>::empty());
        assert(steps.take(1).skip(1) =~= Seq::<usize>::empty());
    } else {
        let c = n.children[steps[0] as int];
        assert(steps.take(k as int).skip(1) =~= steps.skip(1).take(k - 1));
        assert(steps.take(k as int + 1).skip(1) =~= steps.skip(1).take(k as int));
        lemma_one_further(c, steps.skip(1), (k - 1) as nat, y);
    }
}

fn reveal_node(n: &mut Node, steps: &[usize]) -> (changed: bool)
    ensures
        final(n)@ == revealed(old(n)@, steps@),
        changed == was_closed(old(n)@, steps@),
{
    let ghost start = n@;
    let mut changed = false;
    let mut k: usize = 0;
    let mut cur = n;
    assert(steps@.take(0) =~= Seq::<usize>::empty());
    assert(steps@.skip(0) =~= steps@);
    loop
        invariant
            k <= steps.len(),
            start == old(n)@,
            descend(start, steps@.take(k as int)) == Some((*cur)@),
            (*final(n))@ == on_the_way(start, steps@, k as nat, (*final(cur))@),
            revealed(start, steps@) == on_the_way(
                start,
                steps@,
                k as nat,
                revealed((*cur)@, steps@.skip(k as int)),
            ),
            was_closed(start, steps@) == (changed || was_closed((*cur)@, steps@.skip(k as int))),
        decreases steps.len() - k,
    {
        let ghost before = *cur;
        let ghost rest = steps@.skip(k as int);
        proof {
            lemma_children(before);
        }
        if !cur.expanded {
            changed = true;
        }
        cur.expanded = true;
        let ghost open = *cur;
        assert(open@.children =~= before@.children);
        if steps.len() - k < 2 || steps[k] >= cur.children.len() {
            return changed;
        }
        let i: usize = steps[k];
        let ghost done = *final(cur);
        cur = &mut cur.children[i];
        proof {
            let x = *final(cur);
            assert(rest[0] == i);
            assert(rest.skip(1) =~= steps@.skip(k + 1));
            assert(done@.children =~= before@.children.update(i as int, x@));
            lemma_one_further(start, steps@, k as nat, x@);
            lemma_one_further(start, steps@, k as nat, revealed((*cur)@, steps@.skip(k + 1)));
        }
        k += 1;
    }
}

fn node_countable(n: &Node) -> (r: bool)
    ensures
        r == countable(n@),
{
    (!n.is_file() || n.file_count < u64::MAX) && (!n.is_folder() || n.folder_count < u64::MAX)
}

fn countable_below(n: &Node, steps: &[usize]) -> (r: bool)
    ensures
        r == countable_at(n@, steps@),
{
    match n.get_at_path(steps) {
        Some(x) => node_countable(x),
        None => true,
    }
}

fn deselect(selected: &mut Option<NodePath>, path: &[usize])
    ensures
        path_option(*final(selected)) == deselected(path_option(*old(selected)), path@),
{
    let gone = match selected {
        Some(p) => same_path(p.as_slice(), path),
        None => false,
    };
    if gone {
        *selected = None;
    }
}

fn link_below(n: &mut Node, steps: &[usize], link: &NewLink<'_>)
    requires
        countable_at(old(n)@, steps@),
    ensures
        final(n)@ == linked_at(old(n)@, steps@, link@),
{
    let new_node = match n.get_at_path(steps) {
        Some(old_node) => build_refreshed_symlink_node(
            link.full_path,
            link.name,
            link.is_folder,
            old_node,
            link.size,
        ),
        None => return,
    };
    let _ = n.replace_at_path(steps, new_node);
}

impl Pane {
    /// Selects a row.
    pub fn select(&mut self, path: NodePath)
        ensures
            final(self)@ == selecting(old(self)@, path@),
    {
        match self {
            Pane::Tree(t) => {
                t.selected = Some(path);
            },
            Pane::Group(g) => {
                g.selected = Some(path);
            },
            Pane::Search(s) => {
                s.selected = Some(path);
            },
        }
    }

    /// Opens or closes a row, and selects it.
    pub fn toggle(&mut self, path: NodePath)
        requires
            old(self)@ is Group ==> path@.len() > 0,
        ensures
            final(self)@ == toggling(old(self)@, path@),
    {
        match self {
            Pane::Tree(t) => {
                let ghost before = forest_view(t.trees@);
                if path.len() > 0 && path[0] < t.trees.len() {
                    let _ = t.trees[path[0]].toggle_expand(rest_of(path.as_slice()));
                }
                assert(forest_view(t.trees@) =~= with_tree(
                    before,
                    path@,
                    |n: NodeView, s: Seq<usize>| toggled_at(n, s),
                ));
                t.expand_version = bump(t.expand_version);
                t.selected = Some(path);
            },
            Pane::Group(g) => {
                let _ = g.root.toggle_expand(rest_of(path.as_slice()));
                g.view.expand_version = bump(g.view.expand_version);
                g.selected = Some(path);
            },
            Pane::Search(_) => {},
        }
    }

    /// Opens everything above a row, selects it and has it scrolled to.
    pub fn show_row(&mut self, path: NodePath, entry: Option<u32>)
        ensures
            final(self)@ == revealing(old(self)@, path@, entry),
    {
        match self {
            Pane::Tree(t) => {
                let ghost before = forest_view(t.trees@);
                if path.len() > 0 && path[0] < t.trees.len() {
                    if reveal_node(&mut t.trees[path[0]], rest_of(path.as_slice())) {
                        t.expand_version = bump(t.expand_version);
                    }
                }
                assert(forest_view(t.trees@) =~= with_tree(
                    before,
                    path@,
                    |n: NodeView, s: Seq<usize>| revealed(n, s),
                ));
                t.pending_scroll = Some(copy_path(&path));
                t.selected = Some(path);
            },
            Pane::Group(g) => {
                let below = if path.len() > 0 {
                    rest_of(path.as_slice())
                } else {
                    path.as_slice()
                };
                if reveal_node(&mut g.root, below) {
                    g.view.expand_version = bump(g.view.expand_version);
                }
                g.view.pending_scroll = Some(copy_path(&path));
                g.selected = Some(path);
            },
            Pane::Search(s) => {
                s.pending_scroll = Some(copy_path(&path));
                s.pending_scroll_entry = entry;
                s.selected = Some(path);
            },
        }
    }

    /// Whether the node that a path leads to, if any, can be deleted or replaced.
    pub fn can_change(&self, path: &[usize]) -> (r: bool)
        ensures
            r == changeable(self@, path@),
    {
        if path.len() < 2 {
            return true;
        }
        match self {
            Pane::Tree(t) => if path[0] < t.trees.len() {
                countable_below(&t.trees[path[0]], rest_of(path))
            } else {
                true
            },
            Pane::Group(g) => countable_below(&g.root, rest_of(path)),
            Pane::Search(_) => true,
        }
    }

    /// Takes a node that was deleted out of the list.
    pub fn remove(&mut self, path: &[usize], entry: Option<u32>)
        requires
            changeable(old(self)@, path@),
        ensures
            final(self)@ == removing(old(self)@, path@, entry),
    {
        match self {
            Pane::Tree(t) => {
                let ghost before = forest_view(t.trees@);
                if path.len() >= 2 && path[0] < t.trees.len() {
                    let _ = t.trees[path[0]].remove_at_path(rest_of(path));
                    assert(forest_view(t.trees@) =~= with_tree(
                        before,
                        path@,
                        |n: NodeView, s: Seq<usize>| without(n, s),
                    ));
                }
                deselect(&mut t.selected, path);
                t.expand_version = bump(t.expand_version);
                t.struct_version = bump(t.struct_version);
            },
            Pane::Group(g) => {
                if path.len() >= 2 {
                    let _ = g.root.remove_at_path(rest_of(path));
                }
                deselect(&mut g.selected, path);
                g.view.expand_version = bump(g.view.expand_version);
                g.view.struct_version = bump(g.view.struct_version);
            },
            Pane::Search(s) => {
                if let Some(e) = entry {
                    s.search.mark_search_row_removed(e);
                }
            },
        }
    }

    /// Puts a link in place of a file or folder.
    pub fn link(&mut self, path: &[usize], link: &NewLink<'_>)
        requires
            changeable(old(self)@, path@),
        ensures
            final(self)@ == linking(old(self)@, path@, link@),
    {
        if path.len() < 2 || is_empty(link.full_path) {
            return;
        }
        match self {
            Pane::Tree(t) => {
                let ghost before = forest_view(t.trees@);
                if path[0] < t.trees.len() {
                    link_below(&mut t.trees[path[0]], rest_of(path), link);
                }
                assert(forest_view(t.trees@) =~= with_tree(
                    before,
                    path@,
                    |n: NodeView, s: Seq<usize>| linked_at(n, s, link@),
                ));
                t.expand_version = bump(t.expand_version);
                t.struct_version = bump(t.struct_version);
            },
            Pane::Group(g) => {
                link_below(&mut g.root, rest_of(path), link);
                g.view.expand_version = bump(g.view.expand_version);
                g.view.struct_version = bump(g.view.struct_version);
            },
            Pane::Search(_) => {},
        }
    }
}

/// What was revealed is shown: every node above it is there and open.
pub proof fn law_revealed_nodes_are_shown(n: NodeView, steps: Seq<usize>, k: int)
    requires
        descend(n, steps) is Some,
        0 <= k < steps.len(),
    ensures
        descend(revealed(n, steps), steps.take(k)) is Some,
        (descend(revealed(n, steps), steps.take(k))->0).expanded,
    decreases k,
{
    if k > 0 {
        let i = steps[0] as int;
        assert(steps.take(k).skip(1) =~= steps.skip(1).take(k - 1));
        law_revealed_nodes_are_shown(n.children[i], steps.skip(1), k - 1);
    }
}

/// Revealing leads to the same node as before, whatever is opened on the way.
pub proof fn law_revealing_keeps_the_way(n: NodeView, steps: Seq<usize>)
    requires
        steps.len() > 0,
    ensures
        descend(revealed(n, steps), steps) == descend(n, steps),
    decreases steps.len(),
{
    if steps.len() >= 2 && steps[0] < n.children.len() {
        law_revealing_keeps_the_way(n.children[steps[0] as int], steps.skip(1));
    }
}

/// What is revealed already stays as it is.
pub proof fn law_revealing_twice(n: NodeView, steps: Seq<usize>)
    ensures
        revealed(revealed(n, steps), steps) == revealed(n, steps),
        !was_closed(revealed(n, steps), steps),
    decreases steps.len(),
{
    if steps.len() >= 2 && steps[0] < n.children.len() {
        let i = steps[0] as int;
        law_revealing_twice(n.children[i], steps.skip(1));
        let r = revealed(n, steps);
        assert(revealed(r, steps).children =~= r.children);
    }
}

} // verus!
