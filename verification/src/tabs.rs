//! The tabs of the window: what kind of list each shows, and how they are opened and closed.

use std::sync::Arc;

use vstd::prelude::*;
use vstd::string::*;

use crate::compact_tree::ViewState;
use crate::dedup::HashPhase;
use crate::file_ops::strings_view;
use crate::find::{FindState, FindView};
use crate::index_model::IndexView;
use crate::list_view::DiskUsage;
use crate::model::{Node, NodeView, SortDir, SortKey, SortState};
use crate::pane::{GroupPane, GroupPaneView, Pane, PaneView, SearchPane, TreePane};
use crate::search_index::NameIndex;
use crate::text::{decimal, owned, push_decimal};

verus! {

/// What a tab shows.
#[derive(Clone, Copy, Debug, PartialEq, Eq, Structural)]
pub enum TabKind {
    /// The partitions that were scanned.
    Main,
    /// Files by extension.
    Extensions,
    /// Files with the same content.
    Duplicates,
    /// Search results.
    Search,
    /// A copy of the list of partitions.
    Copy,
}

/// What a tab waits for.
#[derive(Clone, Copy, Debug, PartialEq, Eq, Structural)]
pub enum Loading {
    /// Nothing.
    Ready,
    /// The index that the copy is made from.
    WaitIndex,
    /// The copy.
    Building,
    /// The comparison of files: its round, and how many of how many files are done.
    Comparing(HashPhase, u64, u64),
}

/// A tab.
pub struct Tab {
    /// Tells it from every other tab there is or was.
    pub id: u64,
    pub kind: TabKind,
    /// The partition that it is about; all of them where there is none.
    pub scope: Option<usize>,
    pub title: String,
    pub pane: Pane,
    pub find: FindState,
    /// The index of what it shows.
    pub index: Option<Arc<NameIndex>>,
    pub loading: Loading,
    /// What was known of the partitions when the copy was made.
    pub infos: Vec<Option<DiskUsage>>,
    pub root_paths: Vec<String>,
}

/// What a [`DiskUsage`] holds.
#[verifier::ext_equal]
pub struct UsageView {
    pub total_bytes: u64,
    pub used_bytes: u64,
    pub free_bytes: u64,
    pub file_system: Seq<char>,
}

impl View for DiskUsage {
    type V = UsageView;

    open spec fn view(&self) -> UsageView {
        UsageView {
            total_bytes: self.total_bytes,
            used_bytes: self.used_bytes,
            free_bytes: self.free_bytes,
            file_system: self.file_system@,
        }
    }
}

/// What is known of a partition, if anything.
pub open spec fn usage_option(u: Option<DiskUsage>) -> Option<UsageView> {
    match u {
        Some(x) => Some(x@),
        None => None,
    }
}

/// What is known of several partitions.
pub open spec fn usages_view(v: Seq<Option<DiskUsage>>) -> Seq<Option<UsageView>> {
    Seq::new(v.len(), |i: int| usage_option(v[i]))
}

/// What an optional index holds.
pub open spec fn index_option(i: Option<Arc<NameIndex>>) -> Option<IndexView> {
    match i {
        Some(x) => Some(x@),
        None => None,
    }
}

/// What a [`Tab`] holds.
#[verifier::ext_equal]
pub struct TabView {
    pub id: u64,
    pub kind: TabKind,
    pub scope: Option<usize>,
    pub title: Seq<char>,
    pub pane: PaneView,
    pub find: FindView,
    pub index: Option<IndexView>,
    pub loading: Loading,
    pub infos: Seq<Option<UsageView>>,
    pub root_paths: Seq<Seq<char>>,
}

impl View for Tab {
    type V = TabView;

    open spec fn view(&self) -> TabView {
        TabView {
            id: self.id,
            kind: self.kind,
            scope: self.scope,
            title: self.title@,
            pane: self.pane@,
            find: self.find@,
            index: index_option(self.index),
            loading: self.loading,
            infos: usages_view(self.infos@),
            root_paths: strings_view(self.root_paths@),
        }
    }
}

/// What a list of tabs holds.
pub open spec fn tabs_view(v: Seq<Tab>) -> Seq<TabView> {
    Seq::new(v.len(), |i: int| v[i]@)
}

/// Whether a tab of a kind can show a list.
pub open spec fn pane_fits(kind: TabKind, pane: PaneView) -> bool {
    match kind {
        TabKind::Main | TabKind::Copy => pane is Tree,
        TabKind::Extensions | TabKind::Duplicates => pane is Group,
        TabKind::Search => pane is Search,
    }
}

/// The tabs are right: the list of partitions comes first and only there, every tab shows a list
/// of its kind, and one of the tabs is the active one.
pub open spec fn tabs_ok(tabs: Seq<TabView>, active: usize) -> bool {
    &&& active < tabs.len()
    &&& tabs[0].kind == TabKind::Main
    &&& forall|i: int| 0 < i < tabs.len() ==> (#[trigger] tabs[i]).kind != TabKind::Main
    &&& forall|i: int|
        0 <= i < tabs.len() ==> pane_fits((#[trigger] tabs[i]).kind, tabs[i].pane)
}

impl Tab {
    /// What is looked for in the tab, and its index, are right.
    pub open spec fn wf(&self) -> bool {
        &&& self.find.wf()
        &&& match self.index {
            Some(i) => i.wf(),
            None => true,
        }
    }
}

/// Every tab is right by itself.
pub open spec fn all_tabs_wf(tabs: Seq<Tab>) -> bool {
    forall|i: int| 0 <= i < tabs.len() ==> (#[trigger] tabs[i]).wf()
}

/// Nothing looked for yet.
pub open spec fn empty_find() -> FindView {
    FindView {
        query: Seq::empty(),
        found: crate::find::MatchesView::Paths(Seq::empty()),
        cursor: 0,
        computed_for: None,
        edited: false,
    }
}

/// A new list of partitions.
pub open spec fn new_tree_pane(trees: Seq<NodeView>) -> PaneView {
    PaneView::Tree(
        crate::pane::TreePaneView {
            trees,
            selected: None,
            sort: SortState { key: SortKey::Size, dir: SortDir::Desc },
            expand_version: 0,
            struct_version: 0,
            pending_scroll: None,
        },
    )
}

/// A new list of groups.
pub open spec fn new_group_pane(root: NodeView) -> PaneView {
    PaneView::Group(
        GroupPaneView {
            root,
            selected: None,
            sort: crate::compact_tree::SortState {
                key: crate::compact_tree::SortKey::Size,
                dir: crate::compact_tree::SortDir::Desc,
            },
            expand_version: 0,
            struct_version: 0,
            pending_scroll: None,
            cached: None,
        },
    )
}

/// A new list of search results.
pub open spec fn new_search_pane() -> PaneView {
    PaneView::Search(
        crate::pane::SearchPaneView {
            search: crate::list_search::SearchStateView {
                query: Seq::empty(),
                applied: Seq::empty(),
                edited: false,
                results: None,
                sorting: None,
                removed: Set::empty(),
            },
            selected: None,
            sort: SortState { key: SortKey::Size, dir: SortDir::Desc },
            pending_scroll: None,
            pending_scroll_entry: None,
        },
    )
}

pub(crate) fn tree_pane(trees: Vec<Node>) -> (r: Pane)
    ensures
        r@ == new_tree_pane(crate::model::forest_view(trees@)),
{
    Pane::Tree(
        TreePane {
            trees,
            selected: None,
            sort: SortState { key: SortKey::Size, dir: SortDir::Desc },
            expand_version: 0,
            struct_version: 0,
            pending_scroll: None,
        },
    )
}

pub(crate) fn group_pane(root: Node) -> (r: Pane)
    ensures
        r@ == new_group_pane(root@),
{
    Pane::Group(GroupPane { root, selected: None, view: ViewState::default() })
}

pub(crate) fn search_pane() -> (r: Pane)
    ensures
        r@ == new_search_pane(),
{
    Pane::Search(
        SearchPane {
            search: crate::list_search::ListSearch::new(),
            selected: None,
            sort: SortState { key: SortKey::Size, dir: SortDir::Desc },
            pending_scroll: None,
            pending_scroll_entry: None,
        },
    )
}

/// How many tabs of a kind there are among the first `k`.
pub open spec fn kind_count(tabs: Seq<TabView>, kind: TabKind, k: int) -> nat
    decreases k,
{
    if k <= 0 {
        0
    } else {
        kind_count(tabs, kind, k - 1) + if tabs[k - 1].kind == kind {
            1nat
        } else {
            0nat
        }
    }
}

pub(crate) fn count_kind(tabs: &Vec<Tab>, kind: TabKind) -> (n: usize)
    ensures
        n == kind_count(tabs_view(tabs@), kind, tabs@.len() as int),
        n <= tabs@.len(),
        tabs@.len() > 0 && tabs@[0].kind != kind ==> n < tabs@.len(),
{
    let mut n: usize = 0;
    let mut i: usize = 0;
    let ghost tv = tabs_view(tabs@);
    while i < tabs.len()
        invariant
            i <= tabs.len(),
            n <= i,
            i > 0 && tabs@[0].kind != kind ==> n < i,
            tv == tabs_view(tabs@),
            n == kind_count(tv, kind, i as int),
        decreases tabs.len() - i,
    {
        assert(tv[i as int] == tabs@[i as int]@);
        if tabs[i].kind == kind {
            n += 1;
        }
        i += 1;
    }
    n
}

/// The first tab of a kind for a partition, or for all of them, from the `k`th on.
pub open spec fn tab_for(tabs: Seq<TabView>, kind: TabKind, scope: Option<usize>, k: int) -> Option<
    int,
>
    decreases tabs.len() - k,
{
    if 0 <= k < tabs.len() {
        if tabs[k].kind == kind && tabs[k].scope == scope {
            Some(k)
        } else {
            tab_for(tabs, kind, scope, k + 1)
        }
    } else {
        None
    }
}

pub(crate) fn find_tab(tabs: &Vec<Tab>, kind: TabKind, scope: Option<usize>) -> (r: Option<usize>)
    ensures
        match r {
            Some(i) => tab_for(tabs_view(tabs@), kind, scope, 0) == Some(i as int) && i
                < tabs@.len() && tabs@[i as int]@.kind == kind && tabs@[i as int]@.scope == scope,
            None => tab_for(tabs_view(tabs@), kind, scope, 0) is None,
        },
{
    let ghost tv = tabs_view(tabs@);
    let mut i: usize = 0;
    while i < tabs.len()
        invariant
            i <= tabs.len(),
            tv == tabs_view(tabs@),
            tab_for(tv, kind, scope, i as int) == tab_for(tv, kind, scope, 0),
        decreases tabs.len() - i,
    {
        assert(tv[i as int] == tabs@[i as int]@);
        if tabs[i].kind == kind && tabs[i].scope == scope {
            return Some(i);
        }
        i += 1;
    }
    None
}

/// What stands on a tab.
pub open spec fn tab_caption(kind: TabKind, title: Seq<char>) -> Seq<char> {
    match kind {
        TabKind::Main => "📋 主列表"@,
        TabKind::Extensions => "🗐 "@ + title,
        TabKind::Duplicates => "🔍 "@ + title,
        TabKind::Search => "🔎 "@ + title,
        TabKind::Copy => "📑 "@ + title,
    }
}

/// What stands on a tab.
pub fn caption(kind: TabKind, title: &str) -> (r: String)
    ensures
        r@ == tab_caption(kind, title@),
{
    let front = match kind {
        TabKind::Main => return owned("📋 主列表"),
        TabKind::Extensions => "🗐 ",
        TabKind::Duplicates => "🔍 ",
        TabKind::Search => "🔎 ",
        TabKind::Copy => "📑 ",
    };
    crate::file_ops::pair(front, title)
}

/// The tab bar is shown once there is more than one tab.
pub fn bar_shown(tab_count: usize) -> (r: bool)
    ensures
        r == (tab_count > 1),
{
    tab_count > 1
}

/// Every tab but the list of partitions can be closed.
pub fn closable(kind: TabKind) -> (r: bool)
    ensures
        r == (kind != TabKind::Main),
{
    kind != TabKind::Main
}

/// The active tab once the tab `i` is closed, of which `left` stay.
pub open spec fn active_after_close(active: usize, i: usize, left: nat) -> usize {
    if active >= left {
        (left - 1) as usize
    } else if active > i {
        (active - 1) as usize
    } else {
        active
    }
}

/// The title of a tab about one partition, or about all of them.
pub open spec fn scope_title(name: Option<Seq<char>>, count: nat) -> Seq<char> {
    match name {
        Some(n) => n,
        None => "全部 "@ + decimal(count) + " 个分区"@,
    }
}

pub(crate) fn all_title(count: usize) -> (r: String)
    ensures
        r@ == scope_title(None, count as nat),
{
    numbered("全部 ", count, " 个分区")
}

pub(crate) fn numbered(front: &str, n: usize, back: &str) -> (r: String)
    ensures
        r@ == front@ + decimal(n as nat) + back@,
{
    let mut s = owned(front);
    push_decimal(&mut s, n as u64);
    s.append(back);
    s
}

pub(crate) fn copy_strings(v: &Vec<String>) -> (r: Vec<String>)
    ensures
        strings_view(r@) == strings_view(v@),
{
    let mut r: Vec<String> = Vec::new();
    let mut i: usize = 0;
    while i < v.len()
        invariant
            i <= v.len(),
            r@.len() == i,
            forall|k: int| 0 <= k < i ==> (#[trigger] r@[k])@ == v@[k]@,
        decreases v.len() - i,
    {
        r.push(owned(v[i].as_str()));
        i += 1;
    }
    assert(strings_view(r@) =~= strings_view(v@));
    r
}

pub(crate) fn copy_usages(v: &Vec<Option<DiskUsage>>) -> (r: Vec<Option<DiskUsage>>)
    ensures
        usages_view(r@) == usages_view(v@),
{
    let mut r: Vec<Option<DiskUsage>> = Vec::new();
    let mut i: usize = 0;
    while i < v.len()
        invariant
            i <= v.len(),
            r@.len() == i,
            forall|k: int| 0 <= k < i ==> usage_option(#[trigger] r@[k]) == usage_option(v@[k]),
        decreases v.len() - i,
    {
        let u = match &v[i] {
            Some(u) => Some(
                DiskUsage {
                    total_bytes: u.total_bytes,
                    used_bytes: u.used_bytes,
                    free_bytes: u.free_bytes,
                    file_system: owned(u.file_system.as_str()),
                },
            ),
            None => None,
        };
        r.push(u);
        i += 1;
    }
    assert(usages_view(r@) =~= usages_view(v@));
    r
}

pub(crate) fn copy_index(i: &Option<Arc<NameIndex>>) -> (r: Option<Arc<NameIndex>>)
    ensures
        r == *i,
{
    match i {
        Some(x) => Some(Arc::clone(x)),
        None => None,
    }
}

} // verus!
