//! Opening tabs, and what the work that runs for them in the background brings.

use std::sync::Arc;

use vstd::prelude::*;

use crate::dedup::HashPhase;
use crate::file_groups::{
    extension_tree, extensions_fit, files_below, files_of, try_build_extension_tree_multi, RootAt,
};
use crate::find::FindState;
use crate::model::{folder_view, forest_view, Node, NodeView};
use crate::pane::{bump, bumped, GroupPaneView, Pane, PaneView, TreePaneView};
use crate::search_index::NameIndex;
use crate::session::{Effect, EffectView, Session, SessionView};
use crate::tabs::{
    all_title, copy_index, copy_strings, copy_usages, count_kind, empty_find, find_tab, group_pane,
    index_option, kind_count, new_group_pane, new_search_pane, new_tree_pane, pane_fits,
    scope_title, search_pane, tab_for, tree_pane, Loading, Tab, TabKind, TabView,
};
use crate::text::{decimal, owned, trim_end};
use crate::theme::Color32;

verus! {

/// White.
pub const WHITE: Color32 = 0xFFFF_FFFF;

/// The files of the first `k` partitions, one partition after the other.
pub open spec fn all_files(trees: Seq<NodeView>, root_paths: Seq<Seq<char>>, k: int) -> Seq<NodeView>
    decreases k,
{
    if k <= 0 {
        Seq::empty()
    } else {
        all_files(trees, root_paths, k - 1) + files_below(
            trees[k - 1],
            trim_end(root_paths[k - 1], '\\'),
            0,
        )
    }
}

/// The files that a tab about a partition, or about all of them, is about; nothing where there
/// is no such partition.
pub open spec fn files_in_scope(s: SessionView, scope: Option<usize>) -> Option<Seq<NodeView>> {
    let trees = s.main_list().trees;
    match scope {
        Some(pi) => if pi < trees.len() {
            Some(files_below(trees[pi as int], trim_end(s.root_paths[pi as int], '\\'), 0))
        } else {
            None
        },
        None => if trees.len() > 0 {
            Some(all_files(trees, s.root_paths, trees.len() as int))
        } else {
            None
        },
    }
}

/// The title of a tab about a partition, or about all of them.
pub open spec fn title_of(s: SessionView, scope: Option<usize>) -> Seq<char> {
    let trees = s.main_list().trees;
    scope_title(
        match scope {
            Some(pi) => Some(trees[pi as int].name),
            None => None,
        },
        trees.len(),
    )
}

/// The state with one more tab, which is the active one.
pub open spec fn with_tab(s: SessionView, tab: TabView) -> SessionView {
    SessionView {
        tabs: s.tabs.push(tab),
        active_tab: s.tabs.len() as usize,
        next_id: bumped(s.next_id),
        ..s
    }
}

/// A new tab.
pub open spec fn new_tab(
    s: SessionView,
    kind: TabKind,
    scope: Option<usize>,
    title: Seq<char>,
    pane: PaneView,
    loading: Loading,
) -> TabView {
    TabView {
        id: s.next_id,
        kind,
        scope,
        title,
        pane,
        find: empty_find(),
        index: None,
        loading,
        infos: Seq::empty(),
        root_paths: Seq::empty(),
    }
}

/// The state once the user has asked for the files of a partition, or of all of them, by
/// extension. A tab that shows them already becomes the active one. Where a total does not fit
/// its field, nothing is shown.
pub open spec fn extensions_opened(s: SessionView, scope: Option<usize>) -> SessionView {
    match tab_for(s.tabs, TabKind::Extensions, scope, 0) {
        Some(i) => SessionView { active_tab: i as usize, ..s },
        None => match files_in_scope(s, scope) {
            Some(files) => if extensions_fit(files) {
                with_tab(
                    s,
                    new_tab(
                        s,
                        TabKind::Extensions,
                        scope,
                        title_of(s, scope),
                        new_group_pane(extension_tree(files)),
                        Loading::Ready,
                    ),
                )
            } else {
                s
            },
            None => s,
        },
    }
}

/// The root of a list of groups that has not come yet.
pub open spec fn empty_root() -> NodeView {
    folder_view(Seq::empty(), WHITE, Seq::empty(), 0, 0, 0, 0x10, 0, false, Seq::empty())
}

/// The state once the user has asked for the files with the same content in a partition, or in
/// all of them. A tab that shows them already becomes the active one.
pub open spec fn duplicates_opened(s: SessionView, scope: Option<usize>) -> (
    SessionView,
    EffectView,
) {
    match tab_for(s.tabs, TabKind::Duplicates, scope, 0) {
        Some(i) => (SessionView { active_tab: i as usize, ..s }, EffectView::Nothing),
        None => if files_in_scope(s, scope) is Some {
            (
                with_tab(
                    s,
                    new_tab(
                        s,
                        TabKind::Duplicates,
                        scope,
                        title_of(s, scope),
                        new_group_pane(empty_root()),
                        Loading::Comparing(HashPhase::Prefilter, 0, 0),
                    ),
                ),
                EffectView::Compare(scope),
            )
        } else {
            (s, EffectView::Nothing)
        },
    }
}

/// The state once the user has asked for a list to search in. Without partitions there is none.
pub open spec fn search_opened(s: SessionView) -> SessionView {
    if s.main_list().trees.len() == 0 {
        s
    } else {
        with_tab(
            s,
            TabView {
                index: s.main_index,
                ..new_tab(
                    s,
                    TabKind::Search,
                    None,
                    "搜索 "@ + decimal(
                        kind_count(s.tabs, TabKind::Search, s.tabs.len() as int) + 1,
                    ),
                    new_search_pane(),
                    Loading::Ready,
                )
            },
        )
    }
}

/// The state once the user has asked for a copy of the list of partitions. It is made from an
/// index, as soon as there is one.
pub open spec fn copy_opened(s: SessionView) -> (SessionView, EffectView) {
    if s.main_list().trees.len() == 0 {
        (s, EffectView::Nothing)
    } else {
        (
            with_tab(
                s,
                TabView {
                    index: s.main_index,
                    infos: s.infos,
                    root_paths: s.root_paths,
                    ..new_tab(
                        s,
                        TabKind::Copy,
                        None,
                        "列表副本 "@ + decimal(
                            kind_count(s.tabs, TabKind::Copy, s.tabs.len() as int) + 1,
                        ),
                        new_tree_pane(Seq::empty()),
                        if s.main_index is Some {
                            Loading::Building
                        } else {
                            Loading::WaitIndex
                        },
                    )
                },
            ),
            if s.main_index is Some {
                EffectView::Rebuild(s.next_id)
            } else {
                EffectView::Nothing
            },
        )
    }
}

/// What the comparison of files for a partition, or for all of them, says.
pub enum CompareNews {
    Progress { phase: HashPhase, done: u64, total: u64 },
    /// The files with the same content.
    Done(Node),
    Failed(String),
    /// It ended without a word.
    Lost,
}

/// What a [`CompareNews`] says.
#[verifier::ext_equal]
pub enum NewsView {
    Progress { phase: HashPhase, done: u64, total: u64 },
    Done(NodeView),
    Failed(Seq<char>),
    Lost,
}

impl View for CompareNews {
    type V = NewsView;

    open spec fn view(&self) -> NewsView {
        match self {
            CompareNews::Progress { phase, done, total } => NewsView::Progress {
                phase: *phase,
                done: *done,
                total: *total,
            },
            CompareNews::Done(n) => NewsView::Done(n@),
            CompareNews::Failed(e) => NewsView::Failed(e@),
            CompareNews::Lost => NewsView::Lost,
        }
    }
}

/// A tab once the files with the same content are there.
pub open spec fn groups_shown(tab: TabView, root: NodeView) -> TabView {
    TabView {
        loading: Loading::Ready,
        pane: match tab.pane {
            PaneView::Group(g) => PaneView::Group(
                GroupPaneView {
                    root,
                    expand_version: bumped(g.expand_version),
                    struct_version: bumped(g.struct_version),
                    ..g
                },
            ),
            p => p,
        },
        ..tab
    }
}

/// The state once the comparison of files has said something. News for a tab that was closed
/// goes by; a comparison that ends without a word is told of only where its tab still waits.
pub open spec fn compare_heard(s: SessionView, scope: Option<usize>, news: NewsView) -> SessionView {
    match tab_for(s.tabs, TabKind::Duplicates, scope, 0) {
        Some(i) => {
            let tab = s.tabs[i];
            match news {
                NewsView::Progress { phase, done, total } => SessionView {
                    tabs: s.tabs.update(
                        i,
                        TabView { loading: Loading::Comparing(phase, done, total), ..tab },
                    ),
                    ..s
                },
                NewsView::Done(root) => SessionView {
                    tabs: s.tabs.update(i, groups_shown(tab, root)),
                    ..s
                },
                NewsView::Failed(e) => SessionView {
                    tabs: s.tabs.update(i, TabView { loading: Loading::Ready, ..tab }),
                    ..s
                }.telling(e, true),
                NewsView::Lost => if tab.loading is Comparing {
                    SessionView {
                        tabs: s.tabs.update(i, TabView { loading: Loading::Ready, ..tab }),
                        ..s
                    }.telling("重复文件比对内部错误，已中止（详情见日志）"@, true)
                } else {
                    s
                },
            }
        },
        None => s,
    }
}

/// Whether a tab waits for the index of the partitions.
pub open spec fn waits_for_index(tab: TabView) -> bool {
    &&& tab.index is None
    &&& tab.kind == TabKind::Search || (tab.kind == TabKind::Copy && tab.loading
        == Loading::WaitIndex)
}

/// A tab once the index of the partitions is there, where it waits for that.
pub open spec fn index_attached(tab: TabView, index: Option<crate::index_model::IndexView>) -> TabView {
    if waits_for_index(tab) && index is Some {
        TabView {
            index,
            loading: if tab.kind == TabKind::Copy {
                Loading::Building
            } else {
                tab.loading
            },
            ..tab
        }
    } else {
        tab
    }
}

/// The tabs for which a copy is to be made once the index of the partitions is there, among the
/// first `k`.
pub open spec fn copies_due(tabs: Seq<TabView>, ready: bool, k: int) -> Seq<u64>
    decreases k,
{
    if k <= 0 {
        Seq::empty()
    } else if ready && waits_for_index(tabs[k - 1]) && tabs[k - 1].kind == TabKind::Copy {
        copies_due(tabs, ready, k - 1).push(tabs[k - 1].id)
    } else {
        copies_due(tabs, ready, k - 1)
    }
}

/// The state once every tab that waits for the index of the partitions has it, where it is there.
pub open spec fn indexes_attached(s: SessionView) -> SessionView {
    SessionView {
        tabs: Seq::new(s.tabs.len(), |i: int| index_attached(s.tabs[i], s.main_index)),
        ..s
    }
}

/// A tab once its copy is made, where it waits for that.
pub open spec fn copy_shown(tab: TabView, id: u64, trees: Seq<NodeView>) -> TabView {
    if tab.id == id && tab.kind == TabKind::Copy && tab.loading == Loading::Building {
        TabView {
            loading: Loading::Ready,
            pane: match tab.pane {
                PaneView::Tree(t) => PaneView::Tree(TreePaneView { trees, ..t }),
                p => p,
            },
            ..tab
        }
    } else {
        tab
    }
}

/// The first tab that waits for a copy, from the `k`th on.
pub open spec fn tab_building(tabs: Seq<TabView>, id: u64, k: int) -> Option<int>
    decreases tabs.len() - k,
{
    if 0 <= k < tabs.len() {
        if tabs[k].id == id && tabs[k].kind == TabKind::Copy && tabs[k].loading
            == Loading::Building {
            Some(k)
        } else {
            tab_building(tabs, id, k + 1)
        }
    } else {
        None
    }
}

/// The state once the copy for a tab is made. A copy that could not be made comes empty.
pub open spec fn copy_made(s: SessionView, id: u64, trees: Seq<NodeView>) -> SessionView {
    match tab_building(s.tabs, id, 0) {
        Some(i) => SessionView { tabs: s.tabs.update(i, copy_shown(s.tabs[i], id, trees)), ..s },
        None => s,
    }
}

/// What to do for an index.
#[derive(Clone, Copy, Debug, PartialEq, Eq, Structural)]
pub enum IndexPlan {
    /// Nothing: it is up to date, or there is nothing to index.
    Nothing,
    /// Start building it.
    Restart,
    /// Go on building it.
    Continue,
}

/// What to do for an index of a tree of version `now`, of which an index of the version `have`
/// is there and one of the version `building` on the way.
pub open spec fn index_plan(have: Option<u64>, building: Option<u64>, now: u64) -> IndexPlan {
    if have == Some(now) {
        IndexPlan::Nothing
    } else if building == Some(now) {
        IndexPlan::Continue
    } else {
        IndexPlan::Restart
    }
}

fn plan(have: Option<u64>, building: Option<u64>, now: u64) -> (r: IndexPlan)
    ensures
        r == index_plan(have, building, now),
{
    if let Some(v) = have {
        if v == now {
            return IndexPlan::Nothing;
        }
    }
    if let Some(v) = building {
        if v == now {
            return IndexPlan::Continue;
        }
    }
    IndexPlan::Restart
}

/// The version that an index is of.
pub open spec fn version_of(i: Option<crate::index_model::IndexView>) -> Option<u64> {
    match i {
        Some(x) => Some(x.struct_version),
        None => None,
    }
}

fn version(i: &Option<Arc<NameIndex>>) -> (r: Option<u64>)
    ensures
        r == version_of(index_option(*i)),
{
    match i {
        Some(x) => Some(x.tree_version()),
        None => None,
    }
}

/// Two sessions differ in one tab and in what was told last at most, and the tab is right.
proof fn lemma_tab_changed(a: Session, b: Session, i: int)
    requires
        a.wf(),
        0 <= i < a.tabs@.len(),
        b.tabs@ == a.tabs@.update(i, b.tabs@[i]),
        b.tabs@[i].wf(),
        b.tabs@[i].kind == a.tabs@[i].kind,
        pane_fits(b.tabs@[i].kind, b.tabs@[i].pane@),
        i > 0,
        b.active_tab == a.active_tab,
        b.infos == a.infos,
        b.categories == a.categories,
        b.root_paths == a.root_paths,
        b.main_index == a.main_index,
    ensures
        b.wf(),
        b@.tabs == a@.tabs.update(i, b.tabs@[i]@),
{
    assert forall|k: int| 0 <= k < b.tabs@.len() implies (#[trigger] b.tabs@[k]).wf() by {
        assert(a.tabs@[k].wf());
    }
    assert(b@.tabs =~= a@.tabs.update(i, b.tabs@[i]@));
    assert forall|k: int| 0 <= k < b@.tabs.len() implies pane_fits(
        (#[trigger] b@.tabs[k]).kind,
        b@.tabs[k].pane,
    ) && (k > 0 ==> b@.tabs[k].kind != TabKind::Main) by {
        assert(pane_fits(a@.tabs[k].kind, a@.tabs[k].pane));
    }
}

proof fn lemma_tab_found(tabs: Seq<TabView>, kind: TabKind, scope: Option<usize>, k: int)
    requires
        0 <= k,
    ensures
        match tab_for(tabs, kind, scope, k) {
            Some(i) => k <= i < tabs.len() && tabs[i].kind == kind && tabs[i].scope == scope,
            None => true,
        },
    decreases tabs.len() - k,
{
    if k < tabs.len() && !(tabs[k].kind == kind && tabs[k].scope == scope) {
        lemma_tab_found(tabs, kind, scope, k + 1);
    }
}

impl Session {
    fn push_tab(&mut self, tab: Tab)
        requires
            old(self).wf(),
            tab.wf(),
            tab.kind != TabKind::Main,
            pane_fits(tab.kind, tab.pane@),
            tab.id == old(self).next_id,
        ensures
            final(self).wf(),
            final(self)@ == with_tab(old(self)@, tab@),
    {
        let ghost before = *self;
        let ghost v = tab@;
        let n: usize = self.tabs.len();
        self.tabs.push(tab);
        self.active_tab = n;
        self.next_id = bump(self.next_id);
        proof {
            assert(self@.tabs =~= before@.tabs.push(v));
            assert forall|k: int| 0 <= k < self.tabs@.len() implies (
            #[trigger] self.tabs@[k]).wf() by {
                if k < n {
                    assert(before.tabs@[k].wf());
                }
            }
            assert forall|k: int| 0 <= k < self@.tabs.len() implies pane_fits(
                (#[trigger] self@.tabs[k]).kind,
                self@.tabs[k].pane,
            ) && (k > 0 ==> self@.tabs[k].kind != TabKind::Main) by {
                if k < n {
                    assert(self@.tabs[k] == before@.tabs[k]);
                }
            }
            assert(self@.tabs[0] == before@.tabs[0]);
        }
    }

    fn fresh_tab(
        &self,
        kind: TabKind,
        scope: Option<usize>,
        title: String,
        pane: Pane,
        loading: Loading,
    ) -> (r: Tab)
        ensures
            r.wf(),
            r@ == new_tab(self@, kind, scope, title@, pane@, loading),
    {
        let r = Tab {
            id: self.next_id,
            kind,
            scope,
            title,
            pane,
            find: FindState::new(),
            index: None,
            loading,
            infos: Vec::new(),
            root_paths: Vec::new(),
        };
        assert(r@.infos =~= Seq::<Option<crate::tabs::UsageView>>::empty());
        assert(r@.root_paths =~= Seq::<Seq<char>>::empty());
        r
    }

    /// The list of partitions.
    pub fn partitions(&self) -> (r: &Vec<Node>)
        requires
            self.wf(),
        ensures
            forest_view(r@) == self@.main_list().trees,
    {
        assert(self@.tabs[0].pane == self.tabs@[0].pane@);
        match &self.tabs[0].pane {
            Pane::Tree(t) => &t.trees,
            _ => vstd::pervasive::unreached(),
        }
    }

    fn roots_in_scope(&self, scope: Option<usize>) -> (r: Option<Vec<RootAt<'_>>>)
        requires
            self.wf(),
        ensures
            match r {
                Some(roots) => files_in_scope(self@, scope) == Some(files_of(roots@, 0)),
                None => files_in_scope(self@, scope) is None,
            },
    {
        let trees = self.partitions();
        let ghost tv = self@.main_list().trees;
        let mut roots: Vec<RootAt<'_>> = Vec::new();
        match scope {
            Some(pi) => {
                if pi >= trees.len() {
                    return None;
                }
                roots.push(RootAt { node: &trees[pi], path: self.root_paths[pi].as_str() });
                proof {
                    reveal_with_fuel(files_of, 2);
                    assert(tv[pi as int] == trees@[pi as int]@);
                    assert(self@.root_paths[pi as int] == self.root_paths@[pi as int]@);
                    assert(roots@.drop_last() =~= Seq::empty());
                    assert(files_of(roots@, 0) =~= files_in_scope(self@, scope)->0);
                }
            },
            None => {
                if trees.len() == 0 {
                    return None;
                }
                let mut i: usize = 0;
                while i < trees.len()
                    invariant
                        i <= trees.len(),
                        self.wf(),
                        tv == self@.main_list().trees,
                        forest_view(trees@) == tv,
                        files_of(roots@, 0) == all_files(tv, self@.root_paths, i as int),
                    decreases trees.len() - i,
                {
                    let ghost before = roots@;
                    assert(tv[i as int] == trees@[i as int]@);
                    assert(self@.root_paths[i as int] == self.root_paths@[i as int]@);
                    roots.push(RootAt { node: &trees[i], path: self.root_paths[i].as_str() });
                    assert(roots@.drop_last() =~= before);
                    i += 1;
                }
            },
        }
        Some(roots)
    }

    fn scope_title(&self, scope: Option<usize>) -> (r: String)
        requires
            self.wf(),
            files_in_scope(self@, scope) is Some,
        ensures
            r@ == title_of(self@, scope),
    {
        let trees = self.partitions();
        match scope {
            Some(pi) => {
                assert(self@.main_list().trees[pi as int] == trees@[pi as int]@);
                owned(trees[pi].name.as_str())
            },
            None => all_title(trees.len()),
        }
    }

    /// Shows the files of a partition, or of all of them, by extension.
    pub fn open_extension_tab(&mut self, scope: Option<usize>)
        requires
            old(self).wf(),
        ensures
            final(self).wf(),
            final(self)@ == extensions_opened(old(self)@, scope),
    {
        if let Some(i) = find_tab(&self.tabs, TabKind::Extensions, scope) {
            self.active_tab = i;
            return;
        }
        let root = match self.roots_in_scope(scope) {
            Some(roots) => match try_build_extension_tree_multi(roots.as_slice()) {
                Some(n) => n,
                None => return,
            },
            None => return,
        };
        let title = self.scope_title(scope);
        let tab = self.fresh_tab(
            TabKind::Extensions,
            scope,
            title,
            group_pane(root),
            Loading::Ready,
        );
        self.push_tab(tab);
    }

    /// Shows the files with the same content in a partition, or in all of them.
    pub fn open_duplicate_tab(&mut self, scope: Option<usize>) -> (r: Effect)
        requires
            old(self).wf(),
        ensures
            final(self).wf(),
            (final(self)@, r@) == duplicates_opened(old(self)@, scope),
    {
        if let Some(i) = find_tab(&self.tabs, TabKind::Duplicates, scope) {
            self.active_tab = i;
            return Effect::Nothing;
        }
        if self.roots_in_scope(scope).is_none() {
            return Effect::Nothing;
        }
        let title = self.scope_title(scope);
        let none: Vec<Node> = Vec::new();
        assert(forest_view(none@) =~= Seq::<NodeView>::empty());
        let name = String::new();
        assert(name@ =~= Seq::<char>::empty());
        let root = Node::new_folder(name, WHITE, none);
        let tab = self.fresh_tab(
            TabKind::Duplicates,
            scope,
            title,
            group_pane(root),
            Loading::Comparing(HashPhase::Prefilter, 0, 0),
        );
        self.push_tab(tab);
        Effect::Compare(scope)
    }

    /// Opens a list to search in.
    pub fn open_search_tab(&mut self)
        requires
            old(self).wf(),
        ensures
            final(self).wf(),
            final(self)@ == search_opened(old(self)@),
    {
        if self.partitions().len() == 0 {
            return;
        }
        assert(self@.tabs[0].kind == self.tabs@[0].kind);
        let all: usize = self.tabs.len();
        let n: usize = count_kind(&self.tabs, TabKind::Search);
        assert(n < all);
        let title = numbered_from("搜索 ", n);
        let mut tab = self.fresh_tab(TabKind::Search, None, title, search_pane(), Loading::Ready);
        tab.index = copy_index(&self.main_index);
        self.push_tab(tab);
    }

    /// Opens a copy of the list of partitions.
    pub fn open_copy_tab(&mut self) -> (r: Effect)
        requires
            old(self).wf(),
        ensures
            final(self).wf(),
            (final(self)@, r@) == copy_opened(old(self)@),
    {
        if self.partitions().len() == 0 {
            return Effect::Nothing;
        }
        assert(self@.tabs[0].kind == self.tabs@[0].kind);
        let all: usize = self.tabs.len();
        let n: usize = count_kind(&self.tabs, TabKind::Copy);
        assert(n < all);
        let title = numbered_from("列表副本 ", n);
        let none: Vec<Node> = Vec::new();
        assert(forest_view(none@) =~= Seq::<NodeView>::empty());
        let ready = self.main_index.is_some();
        let id: u64 = self.next_id;
        let mut tab = self.fresh_tab(
            TabKind::Copy,
            None,
            title,
            tree_pane(none),
            if ready {
                Loading::Building
            } else {
                Loading::WaitIndex
            },
        );
        tab.index = copy_index(&self.main_index);
        tab.infos = copy_usages(&self.infos);
        tab.root_paths = copy_strings(&self.root_paths);
        self.push_tab(tab);
        if ready {
            Effect::Rebuild(id)
        } else {
            Effect::Nothing
        }
    }

    /// The comparison of files has said something.
    pub fn compare_news(&mut self, scope: Option<usize>, news: CompareNews)
        requires
            old(self).wf(),
        ensures
            final(self).wf(),
            final(self)@ == compare_heard(old(self)@, scope, news@),
    {
        let i: usize = match find_tab(&self.tabs, TabKind::Duplicates, scope) {
            Some(i) => i,
            None => return,
        };
        let ghost before = *self;
        assert(before@.tabs[i as int] == before.tabs@[i as int]@);
        assert(before.tabs@[i as int].wf());
        assert(i > 0);
        match news {
            CompareNews::Progress { phase, done, total } => {
                self.tabs[i].loading = Loading::Comparing(phase, done, total);
                proof {
                    lemma_tab_changed(before, *self, i as int);
                }
            },
            CompareNews::Done(root) => {
                self.tabs[i].loading = Loading::Ready;
                match &mut self.tabs[i].pane {
                    Pane::Group(g) => {
                        g.root = root;
                        g.view.expand_version = bump(g.view.expand_version);
                        g.view.struct_version = bump(g.view.struct_version);
                    },
                    _ => {},
                }
                proof {
                    assert(self.tabs@ =~= before.tabs@.update(i as int, self.tabs@[i as int]));
                    lemma_tab_changed(before, *self, i as int);
                }
            },
            CompareNews::Failed(e) => {
                self.tabs[i].loading = Loading::Ready;
                proof {
                    lemma_tab_changed(before, *self, i as int);
                }
                self.tell(e, true);
            },
            CompareNews::Lost => {
                let waits = match self.tabs[i].loading {
                    Loading::Comparing(..) => true,
                    _ => false,
                };
                if waits {
                    self.tabs[i].loading = Loading::Ready;
                    proof {
                        lemma_tab_changed(before, *self, i as int);
                    }
                    self.tell(owned("重复文件比对内部错误，已中止（详情见日志）"), true);
                }
            },
        }
    }

    /// Gives every tab that waits for the index of the partitions that index, where it is there.
    /// Says for which tabs a copy is to be made.
    pub fn attach_index(&mut self) -> (due: Vec<u64>)
        requires
            old(self).wf(),
        ensures
            final(self).wf(),
            final(self)@ == indexes_attached(old(self)@),
            due@ == copies_due(
                old(self)@.tabs,
                old(self)@.main_index is Some,
                old(self)@.tabs.len() as int,
            ),
    {
        let ghost before = *self;
        let ghost ready = before@.main_index is Some;
        let mut due: Vec<u64> = Vec::new();
        let mut i: usize = 0;
        assert(due@ =~= Seq::<u64>::empty());
        while i < self.tabs.len()
            invariant
                i <= self.tabs.len(),
                self.tabs@.len() == before.tabs@.len(),
                before.wf(),
                ready == (before@.main_index is Some),
                due@ == copies_due(before@.tabs, ready, i as int),
                self.active_tab == before.active_tab,
                self.infos == before.infos,
                self.categories == before.categories,
                self.root_paths == before.root_paths,
                self.main_index == before.main_index,
                self.scan == before.scan,
                self.pending_delete == before.pending_delete,
                self.pending_link == before.pending_link,
                self.status == before.status,
                self.now == before.now,
                self.next_id == before.next_id,
                forall|k: int|
                    0 <= k < i ==> (#[trigger] self.tabs@[k])@ == index_attached(
                        before@.tabs[k],
                        before@.main_index,
                    ) && self.tabs@[k].wf(),
                forall|k: int| i <= k < self.tabs@.len() ==> #[trigger] self.tabs@[k] == before.tabs@[k],
            decreases self.tabs.len() - i,
        {
            let ghost mid = self.tabs@;
            assert(before@.tabs[i as int] == before.tabs@[i as int]@);
            assert(before.tabs@[i as int].wf());
            let is_copy = self.tabs[i].kind == TabKind::Copy;
            let waits = self.tabs[i].index.is_none() && (self.tabs[i].kind == TabKind::Search || (
            is_copy && self.tabs[i].loading == Loading::WaitIndex));
            if waits && self.main_index.is_some() {
                let index = copy_index(&self.main_index);
                self.tabs[i].index = index;
                if is_copy {
                    let id: u64 = self.tabs[i].id;
                    self.tabs[i].loading = Loading::Building;
                    due.push(id);
                }
            }
            assert(self.tabs@ =~= mid.update(i as int, self.tabs@[i as int]));
            assert(self.tabs@[i as int]@ =~= index_attached(
                before@.tabs[i as int],
                before@.main_index,
            ));
            i += 1;
        }
        proof {
            assert(self@.tabs =~= indexes_attached(before@).tabs);
            assert forall|k: int| 0 <= k < self@.tabs.len() implies pane_fits(
                (#[trigger] self@.tabs[k]).kind,
                self@.tabs[k].pane,
            ) && (k > 0 ==> self@.tabs[k].kind != TabKind::Main) by {
                assert(pane_fits(before@.tabs[k].kind, before@.tabs[k].pane));
            }
        }
        due
    }

    /// The copy for a tab is made.
    pub fn set_copy(&mut self, id: u64, trees: Vec<Node>)
        requires
            old(self).wf(),
        ensures
            final(self).wf(),
            final(self)@ == copy_made(old(self)@, id, forest_view(trees@)),
    {
        let ghost before = *self;
        let mut i: usize = 0;
        while i < self.tabs.len()
            invariant
                i <= self.tabs.len(),
                *self == before,
                before == *old(self),
                before.wf(),
                tab_building(before@.tabs, id, i as int) == tab_building(before@.tabs, id, 0),
            decreases self.tabs.len() - i,
        {
            assert(before@.tabs[i as int] == before.tabs@[i as int]@);
            if self.tabs[i].id == id && self.tabs[i].kind == TabKind::Copy && self.tabs[i].loading
                == Loading::Building {
                assert(before.tabs@[i as int].wf());
                assert(pane_fits(before@.tabs[i as int].kind, before@.tabs[i as int].pane));
                let ghost tv = forest_view(trees@);
                self.tabs[i].loading = Loading::Ready;
                match &mut self.tabs[i].pane {
                    Pane::Tree(t) => {
                        t.trees = trees;
                    },
                    _ => {},
                }
                proof {
                    assert(self.tabs@ =~= before.tabs@.update(i as int, self.tabs@[i as int]));
                    lemma_tab_changed(before, *self, i as int);
                    assert(self@ =~= copy_made(before@, id, tv));
                }
                return;
            }
            i += 1;
        }
    }

    /// What to do for the index of the partitions, of which one of the version `building` is on
    /// the way. Without partitions there is no index.
    pub fn plan_main_index(&mut self, building: Option<u64>) -> (r: IndexPlan)
        requires
            old(self).wf(),
        ensures
            final(self).wf(),
            old(self)@.main_list().trees.len() == 0 ==> r == IndexPlan::Nothing && final(self)@ == (
            SessionView { main_index: None, ..old(self)@ }),
            old(self)@.main_list().trees.len() > 0 ==> final(self)@ == old(self)@ && r
                == index_plan(
                version_of(old(self)@.main_index),
                building,
                old(self)@.main_list().struct_version,
            ),
    {
        if self.partitions().len() == 0 {
            self.main_index = None;
            return IndexPlan::Nothing;
        }
        assert(self@.tabs[0].pane == self.tabs@[0].pane@);
        let now: u64 = match &self.tabs[0].pane {
            Pane::Tree(t) => t.struct_version,
            _ => vstd::pervasive::unreached(),
        };
        plan(version(&self.main_index), building, now)
    }

    /// The index of the partitions is there.
    pub fn set_main_index(&mut self, index: NameIndex)
        requires
            old(self).wf(),
            index.wf(),
        ensures
            final(self).wf(),
            final(self)@ == (SessionView { main_index: Some(index@), ..old(self)@ }),
    {
        self.main_index = Some(Arc::new(index));
    }

    /// What to do for the index of the list of groups in the active tab, if it shows one, of
    /// which one of the version `building` is on the way.
    pub fn plan_view_index(&self, building: Option<u64>) -> (r: IndexPlan)
        requires
            self.wf(),
        ensures
            r == match self@.tabs[self@.active_tab as int].pane {
                PaneView::Group(g) => index_plan(
                    version_of(self@.tabs[self@.active_tab as int].index),
                    building,
                    g.struct_version,
                ),
                _ => IndexPlan::Nothing,
            },
    {
        let tab = &self.tabs[self.active_tab];
        assert(self@.tabs[self.active_tab as int] == tab@);
        match &tab.pane {
            Pane::Group(g) => plan(version(&tab.index), building, g.view.struct_version),
            _ => IndexPlan::Nothing,
        }
    }

    /// The index of the list of groups in the active tab is there.
    pub fn set_view_index(&mut self, index: NameIndex)
        requires
            old(self).wf(),
            index.wf(),
        ensures
            final(self).wf(),
            final(self)@ == match old(self)@.tabs[old(self)@.active_tab as int].pane {
                PaneView::Group(_) => SessionView {
                    tabs: old(self)@.tabs.update(
                        old(self)@.active_tab as int,
                        TabView {
                            index: Some(index@),
                            ..old(self)@.tabs[old(self)@.active_tab as int]
                        },
                    ),
                    ..old(self)@
                },
                _ => old(self)@,
            },
    {
        let ghost before = *self;
        let i: usize = self.active_tab;
        assert(before@.tabs[i as int] == before.tabs@[i as int]@);
        assert(before.tabs@[i as int].wf());
        assert(pane_fits(before@.tabs[i as int].kind, before@.tabs[i as int].pane));
        let is_group = match &self.tabs[i].pane {
            Pane::Group(_) => true,
            _ => false,
        };
        if is_group {
            self.tabs[i].index = Some(Arc::new(index));
            proof {
                lemma_tab_changed(before, *self, i as int);
            }
        }
    }
}

fn numbered_from(front: &str, n: usize) -> (r: String)
    requires
        n < usize::MAX,
    ensures
        r@ == front@ + decimal((n + 1) as nat),
{
    let mut s = owned(front);
    crate::text::push_decimal(&mut s, n as u64 + 1);
    s
}

/// A comparison that is over, however it ended, is not waited for any longer.
pub proof fn law_ended_comparison_is_not_waited_for(
    s: SessionView,
    scope: Option<usize>,
    news: NewsView,
)
    requires
        !(news is Progress),
    ensures
        match tab_for(s.tabs, TabKind::Duplicates, scope, 0) {
            Some(i) => !(compare_heard(s, scope, news).tabs[i].loading is Comparing),
            None => compare_heard(s, scope, news) == s,
        },
{
    lemma_tab_found(s.tabs, TabKind::Duplicates, scope, 0);
}

/// A partition, or all of them, have at most one tab by extension: asking again leads to the tab
/// that is there.
pub proof fn law_extension_tab_is_opened_once(s: SessionView, scope: Option<usize>)
    requires
        s.ok(),
        s.tabs.len() < usize::MAX,
    ensures
        extensions_opened(extensions_opened(s, scope), scope) == extensions_opened(s, scope),
{
    let t = extensions_opened(s, scope);
    lemma_tab_found(s.tabs, TabKind::Extensions, scope, 0);
    match tab_for(s.tabs, TabKind::Extensions, scope, 0) {
        Some(i) => {},
        None => {
            if t.tabs.len() > s.tabs.len() {
                lemma_pushed_tab_is_found(s.tabs, t.tabs.last(), TabKind::Extensions, scope, 0);
            }
        },
    }
}

proof fn lemma_pushed_tab_is_found(
    tabs: Seq<TabView>,
    tab: TabView,
    kind: TabKind,
    scope: Option<usize>,
    k: int,
)
    requires
        0 <= k <= tabs.len(),
        tab_for(tabs, kind, scope, k) is None,
        tab.kind == kind,
        tab.scope == scope,
    ensures
        tab_for(tabs.push(tab), kind, scope, k) == Some(tabs.len() as int),
    decreases tabs.len() - k,
{
    if k < tabs.len() {
        assert(tabs.push(tab)[k] == tabs[k]);
        lemma_pushed_tab_is_found(tabs, tab, kind, scope, k + 1);
    }
}

} // verus!
