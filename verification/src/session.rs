//! The state of the window: the partitions that were scanned, the tabs, what is being scanned
//! and what the user was told last.
//!
//! Everything the user or the system does comes in as a call. What the program has to do about
//! it comes back as an [`Effect`].

use std::collections::VecDeque;
use std::sync::Arc;

use vstd::prelude::*;
use vstd::string::*;

use crate::file_ops::{is_empty, pair, strings_view, triple};
use crate::list_view::DiskUsage;
use crate::model::{forest_view, text_option, CategoryStat, Node, NodePath, NodeView};
use crate::pane::{
    bump, bumped, changeable, linking, removing, NewLink, NewLinkView, Pane, PaneView, TreePaneView,
};
use crate::search_index::NameIndex;
use crate::tabs::{
    active_after_close, all_tabs_wf, empty_find, index_option, new_tree_pane, pane_fits, tabs_ok,
    tabs_view,
    tree_pane, usage_option, usages_view, Loading, Tab, TabKind, TabView, UsageView,
};
use crate::text::owned;

verus! {

/// Where a node that is deleted or linked stands.
#[derive(Clone, Copy, Debug, PartialEq, Eq, Structural)]
pub enum Source {
    /// In the list of partitions.
    Main,
    /// In another tab.
    Tab(usize),
}

/// A node that the user wants deleted, before they have confirmed it.
pub struct PendingDelete {
    pub source: Source,
    pub abs_path: NodePath,
    pub name: String,
    pub full_path: String,
    pub is_folder: bool,
    pub index_entry: Option<u32>,
}

/// What a [`PendingDelete`] holds.
#[verifier::ext_equal]
pub struct DeleteView {
    pub source: Source,
    pub abs_path: Seq<usize>,
    pub name: Seq<char>,
    pub full_path: Seq<char>,
    pub is_folder: bool,
    pub index_entry: Option<u32>,
}

impl View for PendingDelete {
    type V = DeleteView;

    open spec fn view(&self) -> DeleteView {
        DeleteView {
            source: self.source,
            abs_path: self.abs_path@,
            name: self.name@,
            full_path: self.full_path@,
            is_folder: self.is_folder,
            index_entry: self.index_entry,
        }
    }
}

/// What an optional [`PendingDelete`] holds.
pub open spec fn delete_option(d: Option<PendingDelete>) -> Option<DeleteView> {
    match d {
        Some(x) => Some(x@),
        None => None,
    }
}

/// What the user wants linked, before they have chosen where to.
pub enum PendingLink {
    /// One file or folder.
    Single {
        source: Source,
        abs_path: NodePath,
        name: String,
        full_path: String,
        is_folder: bool,
    },
    /// All files of a group.
    Group { tab_idx: usize, abs_path: NodePath, name: String, member_paths: Vec<String> },
}

/// What a [`PendingLink`] holds.
#[verifier::ext_equal]
pub enum LinkView {
    Single {
        source: Source,
        abs_path: Seq<usize>,
        name: Seq<char>,
        full_path: Seq<char>,
        is_folder: bool,
    },
    Group {
        tab_idx: usize,
        abs_path: Seq<usize>,
        name: Seq<char>,
        member_paths: Seq<Seq<char>>,
    },
}

impl View for PendingLink {
    type V = LinkView;

    open spec fn view(&self) -> LinkView {
        match self {
            PendingLink::Single { source, abs_path, name, full_path, is_folder } =>
                LinkView::Single {
                source: *source,
                abs_path: abs_path@,
                name: name@,
                full_path: full_path@,
                is_folder: *is_folder,
            },
            PendingLink::Group { tab_idx, abs_path, name, member_paths } => LinkView::Group {
                tab_idx: *tab_idx,
                abs_path: abs_path@,
                name: name@,
                member_paths: strings_view(member_paths@),
            },
        }
    }
}

/// What an optional [`PendingLink`] holds.
pub open spec fn link_option(d: Option<PendingLink>) -> Option<LinkView> {
    match d {
        Some(x) => Some(x@),
        None => None,
    }
}

/// What the user was told last.
pub struct StatusMsg {
    pub text: String,
    pub is_error: bool,
    /// When, in milliseconds.
    pub set_at: u64,
}

/// What a [`StatusMsg`] holds.
#[verifier::ext_equal]
pub struct StatusView {
    pub text: Seq<char>,
    pub is_error: bool,
    pub set_at: u64,
}

impl View for StatusMsg {
    type V = StatusView;

    open spec fn view(&self) -> StatusView {
        StatusView { text: self.text@, is_error: self.is_error, set_at: self.set_at }
    }
}

/// What an optional [`StatusMsg`] holds.
pub open spec fn status_option(s: Option<StatusMsg>) -> Option<StatusView> {
    match s {
        Some(x) => Some(x@),
        None => None,
    }
}

/// How long the user sees what they were told, in milliseconds.
pub const STATUS_MSG_TTL_MS: u64 = 8_000;

/// A file or folder, or a group of files, of which the user wants to know who holds it open.
pub struct LockRequest {
    pub tab_idx: usize,
    pub is_view_tab: bool,
    pub abs_path: NodePath,
    pub name: String,
    pub full_path: String,
    pub is_folder: bool,
    pub is_group: bool,
}

/// What a [`LockRequest`] holds.
#[verifier::ext_equal]
pub struct RequestView {
    pub tab_idx: usize,
    pub is_view_tab: bool,
    pub abs_path: Seq<usize>,
    pub name: Seq<char>,
    pub full_path: Seq<char>,
    pub is_folder: bool,
    pub is_group: bool,
}

impl View for LockRequest {
    type V = RequestView;

    open spec fn view(&self) -> RequestView {
        RequestView {
            tab_idx: self.tab_idx,
            is_view_tab: self.is_view_tab,
            abs_path: self.abs_path@,
            name: self.name@,
            full_path: self.full_path@,
            is_folder: self.is_folder,
            is_group: self.is_group,
        }
    }
}

/// What the program has to do.
pub enum Effect {
    Nothing,
    /// Scan a path.
    Scan(String),
    /// Compare the files of a partition, or of all of them.
    Compare(Option<usize>),
    /// Find out who holds something open.
    CheckLock(LockRequest),
    /// List the drives, for the user to choose where a link leads to.
    ListDrives,
    /// Make the copy for a tab.
    Rebuild(u64),
}

/// What an [`Effect`] says.
#[verifier::ext_equal]
pub enum EffectView {
    Nothing,
    Scan(Seq<char>),
    Compare(Option<usize>),
    CheckLock(RequestView),
    ListDrives,
    Rebuild(u64),
}

impl View for Effect {
    type V = EffectView;

    open spec fn view(&self) -> EffectView {
        match self {
            Effect::Nothing => EffectView::Nothing,
            Effect::Scan(p) => EffectView::Scan(p@),
            Effect::Compare(s) => EffectView::Compare(*s),
            Effect::CheckLock(r) => EffectView::CheckLock(r@),
            Effect::ListDrives => EffectView::ListDrives,
            Effect::Rebuild(id) => EffectView::Rebuild(*id),
        }
    }
}

/// What is being scanned, and what comes after it.
pub struct ScanState {
    pub scanning: bool,
    pub scanned_count: u64,
    pub error: Option<String>,
    pub queue: VecDeque<String>,
    pub current: Option<String>,
    /// The partition that is scanned again.
    pub rescan_target: Option<usize>,
}

/// What a [`ScanState`] holds.
#[verifier::ext_equal]
pub struct ScanStateView {
    pub scanning: bool,
    pub scanned_count: u64,
    pub error: Option<Seq<char>>,
    pub queue: Seq<Seq<char>>,
    pub current: Option<Seq<char>>,
    pub rescan_target: Option<usize>,
}

impl View for ScanState {
    type V = ScanStateView;

    open spec fn view(&self) -> ScanStateView {
        ScanStateView {
            scanning: self.scanning,
            scanned_count: self.scanned_count,
            error: text_option(self.error),
            queue: strings_view(self.queue@),
            current: text_option(self.current),
            rescan_target: self.rescan_target,
        }
    }
}

/// The state of the window.
pub struct Session {
    pub tabs: Vec<Tab>,
    pub active_tab: usize,
    /// What was known of each partition when it was scanned.
    pub infos: Vec<Option<DiskUsage>>,
    /// How much of each partition each kind of file took when it was scanned.
    pub categories: Vec<Vec<CategoryStat>>,
    /// Where each partition was scanned from.
    pub root_paths: Vec<String>,
    /// An index of the partitions, of the current version or an earlier one.
    pub main_index: Option<Arc<NameIndex>>,
    pub scan: ScanState,
    pub pending_delete: Option<PendingDelete>,
    pub pending_link: Option<PendingLink>,
    pub status: Option<StatusMsg>,
    /// The time, in milliseconds.
    pub now: u64,
    /// What tells the next tab from all others.
    pub next_id: u64,
}

/// What a [`Session`] holds.
#[verifier::ext_equal]
pub struct SessionView {
    pub tabs: Seq<TabView>,
    pub active_tab: usize,
    pub infos: Seq<Option<UsageView>>,
    pub categories: Seq<Vec<CategoryStat>>,
    pub root_paths: Seq<Seq<char>>,
    pub main_index: Option<crate::index_model::IndexView>,
    pub scan: ScanStateView,
    pub pending_delete: Option<DeleteView>,
    pub pending_link: Option<LinkView>,
    pub status: Option<StatusView>,
    pub now: u64,
    pub next_id: u64,
}

impl View for Session {
    type V = SessionView;

    open spec fn view(&self) -> SessionView {
        SessionView {
            tabs: tabs_view(self.tabs@),
            active_tab: self.active_tab,
            infos: usages_view(self.infos@),
            categories: self.categories@,
            root_paths: strings_view(self.root_paths@),
            main_index: index_option(self.main_index),
            scan: self.scan@,
            pending_delete: delete_option(self.pending_delete),
            pending_link: link_option(self.pending_link),
            status: status_option(self.status),
            now: self.now,
            next_id: self.next_id,
        }
    }
}

impl SessionView {
    /// The list of partitions.
    pub open spec fn main_list(self) -> TreePaneView {
        self.tabs[0].pane->Tree_0
    }

    /// The state with another list of partitions.
    pub open spec fn with_main(self, t: TreePaneView) -> SessionView {
        self.with_pane(0, PaneView::Tree(t))
    }

    /// The state with another list in a tab.
    pub open spec fn with_pane(self, i: int, pane: PaneView) -> SessionView {
        SessionView { tabs: self.tabs.update(i, TabView { pane, ..self.tabs[i] }), ..self }
    }

    /// The state once the user was told something.
    pub open spec fn telling(self, text: Seq<char>, is_error: bool) -> SessionView {
        SessionView { status: Some(StatusView { text, is_error, set_at: self.now }), ..self }
    }

    /// The tabs are right, and there are the same number of everything that is kept of each
    /// partition.
    pub open spec fn ok(self) -> bool {
        &&& tabs_ok(self.tabs, self.active_tab)
        &&& self.infos.len() == self.main_list().trees.len()
        &&& self.categories.len() == self.main_list().trees.len()
        &&& self.root_paths.len() == self.main_list().trees.len()
    }
}

/// The state of a window that was just opened.
pub open spec fn first_state() -> SessionView {
    SessionView {
        tabs: seq![
            TabView {
                id: 0,
                kind: TabKind::Main,
                scope: None,
                title: Seq::empty(),
                pane: new_tree_pane(Seq::empty()),
                find: empty_find(),
                index: None,
                loading: Loading::Ready,
                infos: Seq::empty(),
                root_paths: Seq::empty(),
            },
        ],
        active_tab: 0,
        infos: Seq::empty(),
        categories: Seq::empty(),
        root_paths: Seq::empty(),
        main_index: None,
        scan: ScanStateView {
            scanning: false,
            scanned_count: 0,
            error: None,
            queue: Seq::empty(),
            current: None,
            rescan_target: None,
        },
        pending_delete: None,
        pending_link: None,
        status: None,
        now: 0,
        next_id: 1,
    }
}

/// The state once the next path that waits is being scanned, if any does, and that path.
pub open spec fn dequeued(s: SessionView) -> (SessionView, EffectView) {
    if s.scan.queue.len() > 0 {
        let path = s.scan.queue[0];
        (
            SessionView {
                scan: ScanStateView {
                    queue: s.scan.queue.skip(1),
                    current: Some(path),
                    scanning: true,
                    scanned_count: 0,
                    error: None,
                    ..s.scan
                },
                ..s
            },
            EffectView::Scan(path),
        )
    } else {
        (s, EffectView::Nothing)
    }
}

/// The state with more paths that wait to be scanned. The first one starts at once where nothing
/// is being scanned.
pub open spec fn batch_started(s: SessionView, paths: Seq<Seq<char>>) -> (SessionView, EffectView) {
    let t = SessionView { scan: ScanStateView { queue: s.scan.queue + paths, ..s.scan }, ..s };
    if s.scan.scanning {
        (t, EffectView::Nothing)
    } else {
        dequeued(t)
    }
}

/// The state once a partition is being scanned again. Only one scan runs at a time.
pub open spec fn rescan_started(s: SessionView, pi: usize) -> (SessionView, EffectView) {
    if s.scan.scanning {
        (
            s.telling("已经有扫描在进行中，请等它完成后再重新扫描。"@, true),
            EffectView::Nothing,
        )
    } else if pi < s.root_paths.len() && s.root_paths[pi as int].len() > 0 {
        let path = s.root_paths[pi as int];
        (
            SessionView {
                scan: ScanStateView {
                    current: Some(path),
                    scanning: true,
                    scanned_count: 0,
                    error: None,
                    rescan_target: Some(pi),
                    ..s.scan
                },
                ..s
            },
            EffectView::Scan(path),
        )
    } else {
        (s, EffectView::Nothing)
    }
}

/// The list of partitions after a change of which partitions there are.
pub open spec fn relisted(t: TreePaneView, trees: Seq<NodeView>) -> TreePaneView {
    TreePaneView {
        trees,
        selected: None,
        expand_version: bumped(t.expand_version),
        struct_version: bumped(t.struct_version),
        ..t
    }
}

/// The state without a partition.
pub open spec fn partition_removed(s: SessionView, pi: usize) -> SessionView {
    let t = s.main_list();
    if pi < t.trees.len() {
        SessionView {
            infos: s.infos.remove(pi as int),
            categories: s.categories.remove(pi as int),
            root_paths: s.root_paths.remove(pi as int),
            ..s
        }.with_main(relisted(t, t.trees.remove(pi as int))).telling(
            "已从列表移除: "@ + t.trees[pi as int].name
                + "（不会删除磁盘上的文件，重新扫描可以再加回来）"@,
            false,
        )
    } else {
        s
    }
}

/// The state with a partition that was scanned: in its old place where it was scanned again and
/// is still there, at the end otherwise.
pub open spec fn partition_added(
    s: SessionView,
    node: NodeView,
    info: Option<UsageView>,
    stats: Vec<CategoryStat>,
) -> SessionView {
    let t = s.main_list();
    let path = match s.scan.current {
        Some(p) => p,
        None => Seq::empty(),
    };
    let u = SessionView {
        scan: ScanStateView { current: None, rescan_target: None, ..s.scan },
        ..s
    };
    match s.scan.rescan_target {
        Some(pi) if pi < t.trees.len() => SessionView {
            infos: s.infos.update(pi as int, info),
            categories: s.categories.update(pi as int, stats),
            ..u
        }.with_main(relisted(t, t.trees.update(pi as int, node))).telling(
            "重新扫描完成: "@ + path,
            false,
        ),
        _ => SessionView {
            infos: s.infos.push(info),
            categories: s.categories.push(stats),
            root_paths: s.root_paths.push(path),
            ..u
        }.with_main(relisted(t, t.trees.push(node))),
    }
}

/// The state once a scan is over: the next one starts, if any waits.
pub open spec fn scan_over(s: SessionView) -> (SessionView, EffectView) {
    dequeued(SessionView { scan: ScanStateView { scanning: false, ..s.scan }, ..s })
}

/// Where a source stands among the tabs, if it still does.
pub open spec fn source_tab(s: SessionView, source: Source) -> Option<int> {
    match source {
        Source::Main => Some(0),
        Source::Tab(i) => if 0 < i < s.tabs.len() {
            Some(i as int)
        } else {
            None
        },
    }
}

/// The state without a node that was deleted.
pub open spec fn node_removed(
    s: SessionView,
    source: Source,
    path: Seq<usize>,
    entry: Option<u32>,
) -> SessionView {
    match source_tab(s, source) {
        Some(i) => s.with_pane(i, removing(s.tabs[i].pane, path, entry)),
        None => s,
    }
}

/// The state with a link in place of a node.
pub open spec fn node_linked(
    s: SessionView,
    source: Source,
    path: Seq<usize>,
    link: NewLinkView,
) -> SessionView {
    match source_tab(s, source) {
        Some(i) => s.with_pane(i, linking(s.tabs[i].pane, path, link)),
        None => s,
    }
}

/// Whether the node that a path leads to, if any, can be deleted or replaced.
pub open spec fn node_changeable(s: SessionView, source: Source, path: Seq<usize>) -> bool {
    match source_tab(s, source) {
        Some(i) => changeable(s.tabs[i].pane, path),
        None => true,
    }
}

/// The state with a tab closed. The list of partitions is never closed.
pub open spec fn tab_closed(s: SessionView, i: usize) -> SessionView {
    if 0 < i < s.tabs.len() {
        SessionView {
            tabs: s.tabs.remove(i as int),
            active_tab: active_after_close(s.active_tab, i, (s.tabs.len() - 1) as nat),
            ..s
        }
    } else {
        s
    }
}

/// Only the list of one tab differs.
pub open spec fn pane_changed(a: Session, b: Session, i: int) -> bool {
    &&& 0 <= i < a.tabs@.len()
    &&& b.tabs@ == a.tabs@.update(i, b.tabs@[i])
    &&& b.tabs@[i].id == a.tabs@[i].id
    &&& b.tabs@[i].kind == a.tabs@[i].kind
    &&& b.tabs@[i].scope == a.tabs@[i].scope
    &&& b.tabs@[i].title == a.tabs@[i].title
    &&& b.tabs@[i].find == a.tabs@[i].find
    &&& b.tabs@[i].index == a.tabs@[i].index
    &&& b.tabs@[i].loading == a.tabs@[i].loading
    &&& b.tabs@[i].infos == a.tabs@[i].infos
    &&& b.tabs@[i].root_paths == a.tabs@[i].root_paths
}

pub(crate) proof fn lemma_pane_changed(a: Session, b: Session, i: int)
    requires
        pane_changed(a, b, i),
        all_tabs_wf(a.tabs@),
    ensures
        all_tabs_wf(b.tabs@),
        b@.tabs == a@.tabs.update(i, TabView { pane: b.tabs@[i].pane@, ..a@.tabs[i] }),
{
    assert forall|k: int| 0 <= k < b.tabs@.len() implies (#[trigger] b.tabs@[k]).wf() by {
        assert(a.tabs@[k].wf());
        if k != i {
            assert(b.tabs@[k] == a.tabs@[k]);
        }
    }
    assert(b@.tabs =~= a@.tabs.update(i, TabView { pane: b.tabs@[i].pane@, ..a@.tabs[i] }));
}

impl Session {
    /// The tabs and indexes are right, and there are the same number of everything that is kept
    /// of each partition.
    pub open spec fn wf(&self) -> bool {
        &&& self@.ok()
        &&& all_tabs_wf(self.tabs@)
        &&& match self.main_index {
            Some(i) => i.wf(),
            None => true,
        }
    }

    /// A window that was just opened.
    pub fn new() -> (r: Self)
        ensures
            r.wf(),
            r@ == first_state(),
    {
        let none: Vec<Node> = Vec::new();
        assert(forest_view(none@) =~= Seq::<NodeView>::empty());
        let tab = Tab {
            id: 0,
            kind: TabKind::Main,
            scope: None,
            title: String::new(),
            pane: tree_pane(none),
            find: crate::find::FindState::new(),
            index: None,
            loading: Loading::Ready,
            infos: Vec::new(),
            root_paths: Vec::new(),
        };
        let mut tabs: Vec<Tab> = Vec::new();
        tabs.push(tab);
        let r = Session {
            tabs,
            active_tab: 0,
            infos: Vec::new(),
            categories: Vec::new(),
            root_paths: Vec::new(),
            main_index: None,
            scan: ScanState {
                scanning: false,
                scanned_count: 0,
                error: None,
                queue: VecDeque::new(),
                current: None,
                rescan_target: None,
            },
            pending_delete: None,
            pending_link: None,
            status: None,
            now: 0,
            next_id: 1,
        };
        proof {
            assert(usages_view(Seq::<Option<DiskUsage>>::empty()) =~= Seq::<
                Option<UsageView>,
            >::empty());
            assert(strings_view(Seq::<String>::empty()) =~= Seq::<Seq<char>>::empty());
            assert(tab.title@ =~= Seq::<char>::empty());
            assert(tab@ =~= first_state().tabs[0]);
            assert(r@.tabs =~= first_state().tabs);
            assert(r@ =~= first_state());
        }
        r
    }

    /// The time goes on.
    pub fn tick(&mut self, now: u64)
        requires
            old(self).wf(),
        ensures
            final(self).wf(),
            final(self)@ == (SessionView { now, ..old(self)@ }),
    {
        self.now = now;
    }

    /// Tells the user something.
    pub fn tell(&mut self, text: String, is_error: bool)
        requires
            old(self).wf(),
        ensures
            final(self).wf(),
            final(self)@ == old(self)@.telling(text@, is_error),
    {
        self.status = Some(StatusMsg { text, is_error, set_at: self.now });
    }

    /// For how many milliseconds more the user sees what they were told last.
    pub fn status_left(&self) -> (r: Option<u64>)
        ensures
            r == match self@.status {
                Some(m) => if m.set_at <= self@.now && self@.now - m.set_at < STATUS_MSG_TTL_MS {
                    Some((STATUS_MSG_TTL_MS - (self@.now - m.set_at)) as u64)
                } else {
                    None
                },
                None => None,
            },
    {
        match &self.status {
            Some(m) => if m.set_at <= self.now && self.now - m.set_at < STATUS_MSG_TTL_MS {
                Some(STATUS_MSG_TTL_MS - (self.now - m.set_at))
            } else {
                None
            },
            None => None,
        }
    }

    fn dequeue_next_scan(&mut self) -> (r: Effect)
        requires
            old(self).wf(),
        ensures
            final(self).wf(),
            (final(self)@, r@) == dequeued(old(self)@),
    {
        let ghost q = self.scan.queue@;
        match self.scan.queue.pop_front() {
            Some(path) => {
                assert(strings_view(self.scan.queue@) =~= strings_view(q).skip(1));
                assert(strings_view(q)[0] == path@);
                let p = owned(path.as_str());
                self.scan.current = Some(path);
                self.scan.scanning = true;
                self.scan.scanned_count = 0;
                self.scan.error = None;
                Effect::Scan(p)
            },
            None => {
                assert(self.scan.queue@ =~= q);
                Effect::Nothing
            },
        }
    }

    /// More paths are to be scanned.
    pub fn start_scan_batch(&mut self, paths: Vec<String>) -> (r: Effect)
        requires
            old(self).wf(),
        ensures
            final(self).wf(),
            (final(self)@, r@) == batch_started(old(self)@, strings_view(paths@)),
    {
        let ghost q = strings_view(self.scan.queue@);
        let ghost before = *self;
        let mut i: usize = 0;
        assert(q + strings_view(paths@).take(0) =~= q);
        while i < paths.len()
            invariant
                i <= paths.len(),
                strings_view(self.scan.queue@) == q + strings_view(paths@).take(i as int),
                self.wf(),
                self@ == (SessionView {
                    scan: ScanStateView { queue: self@.scan.queue, ..before@.scan },
                    ..before@
                }),
            decreases paths.len() - i,
        {
            let ghost v = self.scan.queue@;
            let p = owned(paths[i].as_str());
            self.scan.queue.push_back(p);
            i += 1;
            proof {
                assert(strings_view(self.scan.queue@) =~= strings_view(v).push(p@));
                assert(q + strings_view(paths@).take(i as int) =~= (q + strings_view(paths@).take(
                    i - 1,
                )).push(p@));
            }
        }
        assert(strings_view(paths@).take(i as int) =~= strings_view(paths@));
        if self.scan.scanning {
            Effect::Nothing
        } else {
            self.dequeue_next_scan()
        }
    }

    /// A partition is to be scanned again.
    pub fn start_rescan(&mut self, pi: usize) -> (r: Effect)
        requires
            old(self).wf(),
        ensures
            final(self).wf(),
            (final(self)@, r@) == rescan_started(old(self)@, pi),
    {
        if self.scan.scanning {
            self.tell(owned("已经有扫描在进行中，请等它完成后再重新扫描。"), true);
            return Effect::Nothing;
        }
        if pi >= self.root_paths.len() {
            return Effect::Nothing;
        }
        assert(self@.root_paths[pi as int] == self.root_paths@[pi as int]@);
        if is_empty(self.root_paths[pi].as_str()) {
            return Effect::Nothing;
        }
        let path = owned(self.root_paths[pi].as_str());
        self.scan.current = Some(owned(path.as_str()));
        self.scan.scanning = true;
        self.scan.scanned_count = 0;
        self.scan.error = None;
        self.scan.rescan_target = Some(pi);
        Effect::Scan(path)
    }

    /// The scan has come to so many entries.
    pub fn scan_progress(&mut self, n: u64)
        requires
            old(self).wf(),
        ensures
            final(self).wf(),
            final(self)@ == (SessionView {
                scan: ScanStateView { scanned_count: n, ..old(self)@.scan },
                ..old(self)@
            }),
    {
        self.scan.scanned_count = n;
    }

    /// The scan has failed.
    pub fn scan_failed(&mut self, error: String) -> (r: Effect)
        requires
            old(self).wf(),
        ensures
            final(self).wf(),
            (final(self)@, r@) == scan_over(
                SessionView {
                    scan: ScanStateView {
                        error: Some(error@),
                        current: None,
                        rescan_target: None,
                        ..old(self)@.scan
                    },
                    ..old(self)@
                },
            ),
    {
        self.scan.error = Some(error);
        self.scan.current = None;
        self.scan.rescan_target = None;
        self.scan.scanning = false;
        self.dequeue_next_scan()
    }

    /// Takes a partition off the list. Nothing happens to its files.
    pub fn remove_partition(&mut self, pi: usize)
        requires
            old(self).wf(),
        ensures
            final(self).wf(),
            final(self)@ == partition_removed(old(self)@, pi),
    {
        let ghost before = *self;
        let name = match &mut self.tabs[0].pane {
            Pane::Tree(t) => {
                if pi >= t.trees.len() {
                    proof {
                        assert(self@.tabs =~= before@.tabs);
                    }
                    return;
                }
                let ghost trees = t.trees@;
                let gone = t.trees.remove(pi);
                assert(forest_view(t.trees@) =~= forest_view(trees).remove(pi as int));
                assert(forest_view(trees)[pi as int] == gone@);
                t.selected = None;
                t.expand_version = bump(t.expand_version);
                t.struct_version = bump(t.struct_version);
                gone.name
            },
            _ => {
                return;
            },
        };
        let _ = self.infos.remove(pi);
        let _ = self.categories.remove(pi);
        let _ = self.root_paths.remove(pi);
        proof {
            assert(usages_view(self.infos@) =~= before@.infos.remove(pi as int));
            assert(strings_view(self.root_paths@) =~= before@.root_paths.remove(pi as int));
            lemma_pane_changed(before, *self, 0);
        }
        self.tell(
            triple(
                "已从列表移除: ",
                name.as_str(),
                "（不会删除磁盘上的文件，重新扫描可以再加回来）",
            ),
            false,
        );
        assert(self@.tabs =~= partition_removed(before@, pi).tabs);
    }

    /// The scan is done. `stats` is how much each kind of file takes.
    pub fn scan_done(
        &mut self,
        node: Node,
        info: Option<DiskUsage>,
        stats: Vec<CategoryStat>,
    ) -> (r: Effect)
        requires
            old(self).wf(),
        ensures
            final(self).wf(),
            (final(self)@, r@) == scan_over(
                partition_added(old(self)@, node@, usage_option(info), stats),
            ),
    {
        let ghost before = *self;
        let ghost added = partition_added(before@, node@, usage_option(info), stats);
        let path = match &self.scan.current {
            Some(p) => owned(p.as_str()),
            None => String::new(),
        };
        let target = self.scan.rescan_target;
        self.scan.current = None;
        self.scan.rescan_target = None;
        let mut again: Option<usize> = None;
        match &mut self.tabs[0].pane {
            Pane::Tree(t) => {
                let ghost trees = t.trees@;
                t.selected = None;
                t.expand_version = bump(t.expand_version);
                t.struct_version = bump(t.struct_version);
                let ghost v = node@;
                if let Some(pi) = target {
                    if pi < t.trees.len() {
                        again = Some(pi);
                    }
                }
                match again {
                    Some(pi) => {
                        t.trees.set(pi, node);
                        assert(forest_view(t.trees@) =~= forest_view(trees).update(pi as int, v));
                    },
                    None => {
                        t.trees.push(node);
                        assert(forest_view(t.trees@) =~= forest_view(trees).push(v));
                    },
                }
            },
            _ => {},
        }
        match again {
            Some(pi) => {
                let ghost u = usage_option(info);
                self.infos.set(pi, info);
                self.categories.set(pi, stats);
                proof {
                    assert(usages_view(self.infos@) =~= before@.infos.update(pi as int, u));
                    lemma_pane_changed(before, *self, 0);
                }
                self.tell(pair("重新扫描完成: ", path.as_str()), false);
            },
            None => {
                let ghost u = usage_option(info);
                let ghost p = path@;
                self.infos.push(info);
                self.categories.push(stats);
                self.root_paths.push(path);
                proof {
                    assert(usages_view(self.infos@) =~= before@.infos.push(u));
                    assert(strings_view(self.root_paths@) =~= before@.root_paths.push(p));
                    lemma_pane_changed(before, *self, 0);
                }
            },
        }
        assert(self@ =~= added);
        self.scan.scanning = false;
        self.dequeue_next_scan()
    }

    /// Whether the node that a path leads to, if any, can be deleted or replaced.
    pub fn can_change(&self, source: Source, path: &[usize]) -> (r: bool)
        requires
            self.wf(),
        ensures
            r == node_changeable(self@, source, path@),
    {
        let i: usize = match source {
            Source::Main => 0,
            Source::Tab(i) => {
                if i == 0 || i >= self.tabs.len() {
                    return true;
                }
                i
            },
        };
        self.tabs[i].pane.can_change(path)
    }

    /// Takes a node that was deleted out of the list that it stands in.
    pub fn remove_node_after_success(
        &mut self,
        source: Source,
        path: &[usize],
        entry: Option<u32>,
    )
        requires
            old(self).wf(),
            node_changeable(old(self)@, source, path@),
        ensures
            final(self).wf(),
            final(self)@ == node_removed(old(self)@, source, path@, entry),
    {
        let ghost before = *self;
        let i: usize = match source {
            Source::Main => 0,
            Source::Tab(i) => {
                if i == 0 || i >= self.tabs.len() {
                    return;
                }
                i
            },
        };
        assert(before@.tabs[i as int].pane == before.tabs@[i as int].pane@);
        self.tabs[i].pane.remove(path, entry);
        proof {
            lemma_pane_changed(before, *self, i as int);
            assert(self@ =~= node_removed(before@, source, path@, entry));
            lemma_pane_kept(before@, i as int, self.tabs@[i as int].pane@);
        }
    }

    /// Puts a link in the place of the node that it was made for.
    pub fn refresh_node_after_symlink(&mut self, source: Source, path: &[usize], link: &NewLink<'_>)
        requires
            old(self).wf(),
            node_changeable(old(self)@, source, path@),
        ensures
            final(self).wf(),
            final(self)@ == node_linked(old(self)@, source, path@, link@),
    {
        let ghost before = *self;
        let i: usize = match source {
            Source::Main => 0,
            Source::Tab(i) => {
                if i == 0 || i >= self.tabs.len() {
                    return;
                }
                i
            },
        };
        assert(before@.tabs[i as int].pane == before.tabs@[i as int].pane@);
        self.tabs[i].pane.link(path, link);
        proof {
            lemma_pane_changed(before, *self, i as int);
            assert(self@ =~= node_linked(before@, source, path@, link@));
            lemma_pane_kept(before@, i as int, self.tabs@[i as int].pane@);
        }
    }

    /// Closes a tab.
    pub fn close_tab(&mut self, i: usize)
        requires
            old(self).wf(),
        ensures
            final(self).wf(),
            final(self)@ == tab_closed(old(self)@, i),
    {
        if i == 0 || i >= self.tabs.len() {
            return;
        }
        let ghost before = *self;
        let _ = self.tabs.remove(i);
        if self.active_tab >= self.tabs.len() {
            self.active_tab = self.tabs.len() - 1;
        } else if self.active_tab > i {
            self.active_tab = self.active_tab - 1;
        }
        proof {
            assert(self@.tabs =~= before@.tabs.remove(i as int));
            assert forall|k: int| 0 <= k < self.tabs@.len() implies (
            #[trigger] self.tabs@[k]).wf() by {
                let j = if k < i {
                    k
                } else {
                    k + 1
                };
                assert(before.tabs@[j].wf());
            }
            assert forall|k: int| 0 <= k < self@.tabs.len() implies pane_fits(
                (#[trigger] self@.tabs[k]).kind,
                self@.tabs[k].pane,
            ) && (k > 0 ==> self@.tabs[k].kind != TabKind::Main) by {
                let j = if k < i {
                    k
                } else {
                    k + 1
                };
                assert(self@.tabs[k] == before@.tabs[j]);
            }
        }
    }

    /// Makes a tab the active one.
    pub fn select_tab(&mut self, i: usize)
        requires
            old(self).wf(),
        ensures
            final(self).wf(),
            final(self)@ == (SessionView {
                active_tab: if i < old(self)@.tabs.len() {
                    i
                } else {
                    old(self)@.active_tab
                },
                ..old(self)@
            }),
    {
        if i < self.tabs.len() {
            self.active_tab = i;
        }
    }
}

/// The state stays right when a list changes to one of the same kind, as long as there are as
/// many partitions as before.
pub proof fn lemma_pane_kept(s: SessionView, i: int, pane: PaneView)
    requires
        s.ok(),
        0 <= i < s.tabs.len(),
        pane_fits(s.tabs[i].kind, pane),
        i == 0 ==> (pane->Tree_0).trees.len() == s.main_list().trees.len(),
    ensures
        s.with_pane(i, pane).ok(),
{
    let t = s.with_pane(i, pane);
    assert forall|k: int| 0 <= k < t.tabs.len() implies pane_fits(
        (#[trigger] t.tabs[k]).kind,
        t.tabs[k].pane,
    ) && (k > 0 ==> t.tabs[k].kind != TabKind::Main) by {
        assert(pane_fits(s.tabs[k].kind, s.tabs[k].pane));
    }
}

/// Closing a tab leaves the user where they were, unless it was the tab they were in: then they
/// are in the tab that took its place, or in the last one.
pub proof fn law_closing_keeps_the_active_tab(s: SessionView, i: usize)
    requires
        s.ok(),
        0 < i < s.tabs.len(),
    ensures
        s.active_tab != i ==> tab_closed(s, i).tabs[tab_closed(s, i).active_tab as int]
            == s.tabs[s.active_tab as int],
        tab_closed(s, i).ok(),
{
    let t = tab_closed(s, i);
    assert(t.tabs[0] == s.tabs[0]);
    assert forall|k: int| 0 <= k < t.tabs.len() implies pane_fits(
        (#[trigger] t.tabs[k]).kind,
        t.tabs[k].pane,
    ) && (k > 0 ==> t.tabs[k].kind != TabKind::Main) by {
        let j = if k < i {
            k
        } else {
            k + 1
        };
        assert(t.tabs[k] == s.tabs[j]);
    }
}

/// Scans run one at a time, and in the order in which they were asked for.
pub proof fn law_scans_wait_their_turn(s: SessionView, paths: Seq<Seq<char>>)
    ensures
        s.scan.scanning ==> batch_started(s, paths).1 == EffectView::Nothing
            && batch_started(s, paths).0.scan.queue == s.scan.queue + paths,
        !s.scan.scanning && s.scan.queue.len() == 0 && paths.len() > 0 ==> batch_started(s, paths).1
            == EffectView::Scan(paths[0]) && batch_started(s, paths).0.scan.queue == paths.skip(1),
{
    if !s.scan.scanning && s.scan.queue.len() == 0 {
        assert(s.scan.queue + paths =~= paths);
    }
}

/// A scan that is over, however it ended, does not hold up the next one: as long as a path
/// waits one is being scanned, and when none waits nothing is.
pub proof fn law_scan_that_ended_makes_room(s: SessionView)
    ensures
        scan_over(s).0.scan.scanning == (s.scan.queue.len() > 0),
        s.scan.queue.len() > 0 ==> scan_over(s).1 == EffectView::Scan(s.scan.queue[0])
            && scan_over(s).0.scan.queue == s.scan.queue.skip(1),
        s.scan.queue.len() == 0 ==> scan_over(s).1 == EffectView::Nothing,
{
}

/// Taking a partition off the list and scanning it anew puts everything that is kept of it at
/// the end of every list.
pub proof fn law_partition_lists_stay_parallel(
    s: SessionView,
    node: NodeView,
    info: Option<UsageView>,
    stats: Vec<CategoryStat>,
    pi: usize,
)
    requires
        s.ok(),
    ensures
        partition_added(s, node, info, stats).ok(),
        partition_removed(s, pi).ok(),
{
    let a = partition_added(s, node, info, stats);
    let r = partition_removed(s, pi);
    assert forall|k: int| 0 <= k < a.tabs.len() implies pane_fits(
        (#[trigger] a.tabs[k]).kind,
        a.tabs[k].pane,
    ) && (k > 0 ==> a.tabs[k].kind != TabKind::Main) by {
        assert(pane_fits(s.tabs[k].kind, s.tabs[k].pane));
    }
    assert forall|k: int| 0 <= k < r.tabs.len() implies pane_fits(
        (#[trigger] r.tabs[k]).kind,
        r.tabs[k].pane,
    ) && (k > 0 ==> r.tabs[k].kind != TabKind::Main) by {
        assert(pane_fits(s.tabs[k].kind, s.tabs[k].pane));
    }
}

} // verus!
