//! What the user asks for in a list, and what came of it.

use vstd::prelude::*;

use crate::file_ops::strings_view;
use crate::model::{descend, forest_view, lemma_children, Node, NodePath, NodeView};
use crate::pane::{selecting, toggling, Pane, PaneView};
use crate::session::{
    lemma_pane_changed, lemma_pane_kept, partition_removed, rescan_started, DeleteView, Effect, EffectView, LinkView, LockRequest,
    PendingDelete, PendingLink, RequestView, Session, SessionView, Source,
};
use crate::session_tabs::{duplicates_opened, extensions_opened};
use crate::tabs::TabKind;
use crate::text::owned;
use crate::ui::{ActionView, TreeAction};

verus! {

/// The paths of the files of a group.
pub open spec fn member_paths(kids: Seq<NodeView>, k: int) -> Seq<Seq<char>>
    decreases k,
{
    if k <= 0 {
        Seq::empty()
    } else {
        match kids[k - 1].full_path_override {
            Some(p) => member_paths(kids, k - 1).push(p),
            None => member_paths(kids, k - 1),
        }
    }
}

/// The paths of the files of the group that a path leads to in a tab, where the tab shows files
/// with the same content and the group is there.
pub open spec fn group_paths(s: SessionView, tab_idx: usize, path: Seq<usize>) -> Option<
    Seq<Seq<char>>,
> {
    if tab_idx < s.tabs.len() && s.tabs[tab_idx as int].kind == TabKind::Duplicates {
        match s.tabs[tab_idx as int].pane {
            PaneView::Group(g) => match descend(g.root, path.skip(1)) {
                Some(n) => Some(member_paths(n.children, n.children.len() as int)),
                None => None,
            },
            _ => None,
        }
    } else {
        None
    }
}

/// What is told in a tab that does not show the partitions themselves.
pub open spec fn snapshot_refusal(a: ActionView) -> Seq<char> {
    match a {
        ActionView::RequestRescan(_) =>
            "这是数据快照，不支持重新扫描——请到主列表操作对应的分区。"@,
        ActionView::RequestRemovePartition(_) =>
            "这是数据快照，不支持从这里移除分区——请到主列表操作。"@,
        ActionView::RequestExtensionBreakdown(_) =>
            "这是数据快照，暂不支持在这里做扩展名分类——请到主列表操作对应的分区。"@,
        _ => "这是数据快照，暂不支持在这里查找重复文件——请到主列表操作对应的分区。"@,
    }
}

/// The state, and what to do, once the user has asked for something in the list of the active
/// tab.
pub open spec fn acted(s: SessionView, a: ActionView) -> (SessionView, EffectView) {
    let i = s.active_tab as int;
    let in_tab = s.active_tab != 0;
    let source = if in_tab {
        Source::Tab(s.active_tab)
    } else {
        Source::Main
    };
    match a {
        ActionView::Nothing => (s, EffectView::Nothing),
        ActionView::Select(p) | ActionView::EnterNode(p) => (
            s.with_pane(i, selecting(s.tabs[i].pane, p)),
            EffectView::Nothing,
        ),
        ActionView::ToggleExpand(p) => (
            s.with_pane(i, toggling(s.tabs[i].pane, p)),
            EffectView::Nothing,
        ),
        ActionView::RequestDelete { abs_path, name, full_path, is_folder, index_entry } => (
            SessionView {
                pending_delete: Some(
                    DeleteView { source, abs_path, name, full_path, is_folder, index_entry },
                ),
                ..s
            },
            EffectView::Nothing,
        ),
        ActionView::RequestCheckLock { abs_path, name, full_path, is_folder } => (
            s,
            EffectView::CheckLock(
                RequestView {
                    tab_idx: s.active_tab,
                    is_view_tab: in_tab,
                    abs_path,
                    name,
                    full_path,
                    is_folder,
                    is_group: false,
                },
            ),
        ),
        ActionView::RequestCheckLockGroup { abs_path, name } => (
            s,
            EffectView::CheckLock(
                RequestView {
                    tab_idx: s.active_tab,
                    is_view_tab: true,
                    abs_path,
                    name,
                    full_path: Seq::empty(),
                    is_folder: false,
                    is_group: true,
                },
            ),
        ),
        ActionView::RequestCreateSymlink { abs_path, name, full_path, is_folder } => (
            if abs_path.len() < 2 {
                s
            } else {
                SessionView {
                    pending_link: Some(
                        LinkView::Single { source, abs_path, name, full_path, is_folder },
                    ),
                    ..s
                }
            },
            EffectView::ListDrives,
        ),
        ActionView::RequestCreateSymlinkGroup { abs_path, name } => (
            match group_paths(s, s.active_tab, abs_path) {
                Some(paths) => if paths.len() < 2 {
                    s
                } else {
                    SessionView {
                        pending_link: Some(
                            LinkView::Group {
                                tab_idx: s.active_tab,
                                abs_path,
                                name,
                                member_paths: paths,
                            },
                        ),
                        ..s
                    }
                },
                None => s,
            },
            EffectView::ListDrives,
        ),
        ActionView::RequestRescan(pi) => if in_tab {
            (s.telling(snapshot_refusal(a), true), EffectView::Nothing)
        } else {
            rescan_started(s, pi)
        },
        ActionView::RequestRemovePartition(pi) => if in_tab {
            (s.telling(snapshot_refusal(a), true), EffectView::Nothing)
        } else {
            (partition_removed(s, pi), EffectView::Nothing)
        },
        ActionView::RequestExtensionBreakdown(pi) => if in_tab {
            (s.telling(snapshot_refusal(a), true), EffectView::Nothing)
        } else {
            (extensions_opened(s, Some(pi)), EffectView::Nothing)
        },
        ActionView::RequestDuplicateFinder(pi) => if in_tab {
            (s.telling(snapshot_refusal(a), true), EffectView::Nothing)
        } else {
            duplicates_opened(s, Some(pi))
        },
    }
}

/// A row of a list of groups has a path that leads somewhere.
pub open spec fn action_fits(s: SessionView, a: ActionView) -> bool {
    s.tabs[s.active_tab as int].pane is Group ==> match a {
        ActionView::ToggleExpand(p) => p.len() > 0,
        ActionView::RequestCreateSymlinkGroup { abs_path, .. } => abs_path.len() > 0,
        _ => true,
    }
}

fn paths_of_members(n: &Node) -> (r: Vec<String>)
    ensures
        strings_view(r@) == member_paths(n@.children, n@.children.len() as int),
{
    proof {
        lemma_children(*n);
    }
    let mut r: Vec<String> = Vec::new();
    let mut i: usize = 0;
    assert(strings_view(r@) =~= member_paths(n@.children, 0));
    while i < n.children.len()
        invariant
            i <= n.children.len(),
            n@.children == forest_view(n.children@),
            strings_view(r@) == member_paths(n@.children, i as int),
        decreases n.children.len() - i,
    {
        let c = &n.children[i];
        assert(n@.children[i as int] == c@);
        if let Some(p) = &c.full_path_override {
            let ghost before = r@;
            let q = owned(p.as_str());
            r.push(q);
            assert(strings_view(r@) =~= strings_view(before).push(q@));
        }
        i += 1;
    }
    r
}

/// What an optional list of texts holds.
pub open spec fn strings_option(v: Option<Vec<String>>) -> Option<Seq<Seq<char>>> {
    match v {
        Some(x) => Some(strings_view(x@)),
        None => None,
    }
}

impl Session {
    /// The paths of the files of a group in a tab.
    pub fn group_members(&self, tab_idx: usize, path: &[usize]) -> (r: Option<Vec<String>>)
        requires
            self.wf(),
            path@.len() > 0,
        ensures
            strings_option(r) == group_paths(self@, tab_idx, path@),
    {
        if tab_idx >= self.tabs.len() {
            return None;
        }
        let tab = &self.tabs[tab_idx];
        assert(self@.tabs[tab_idx as int] == tab@);
        if tab.kind != TabKind::Duplicates {
            return None;
        }
        let rest = vstd::slice::slice_subrange(path, 1, path.len());
        assert(rest@ =~= path@.skip(1));
        match &tab.pane {
            Pane::Group(g) => match g.root.get_at_path(rest) {
                Some(n) => Some(paths_of_members(n)),
                None => None,
            },
            _ => None,
        }
    }

    fn change_pane_select(&mut self, path: NodePath)
        requires
            old(self).wf(),
        ensures
            final(self).wf(),
            final(self)@ == old(self)@.with_pane(
                old(self)@.active_tab as int,
                selecting(old(self)@.tabs[old(self)@.active_tab as int].pane, path@),
            ),
    {
        let ghost before = *self;
        let i: usize = self.active_tab;
        let ghost p = path@;
        assert(before@.tabs[i as int].pane == before.tabs@[i as int].pane@);
        self.tabs[i].pane.select(path);
        proof {
            lemma_pane_changed(before, *self, i as int);
            assert(self@ =~= before@.with_pane(i as int, self.tabs@[i as int].pane@));
            lemma_pane_kept(before@, i as int, self.tabs@[i as int].pane@);
        }
    }

    fn change_pane_toggle(&mut self, path: NodePath)
        requires
            old(self).wf(),
            action_fits(old(self)@, ActionView::ToggleExpand(path@)),
        ensures
            final(self).wf(),
            final(self)@ == old(self)@.with_pane(
                old(self)@.active_tab as int,
                toggling(old(self)@.tabs[old(self)@.active_tab as int].pane, path@),
            ),
    {
        let ghost before = *self;
        let i: usize = self.active_tab;
        assert(before@.tabs[i as int].pane == before.tabs@[i as int].pane@);
        self.tabs[i].pane.toggle(path);
        proof {
            lemma_pane_changed(before, *self, i as int);
            assert(self@ =~= before@.with_pane(i as int, self.tabs@[i as int].pane@));
            lemma_pane_kept(before@, i as int, self.tabs@[i as int].pane@);
        }
    }

    fn refuse(&mut self, text: &str) -> (r: Effect)
        requires
            old(self).wf(),
        ensures
            final(self).wf(),
            final(self)@ == old(self)@.telling(text@, true),
            r@ == EffectView::Nothing,
    {
        self.tell(owned(text), true);
        Effect::Nothing
    }

    /// The user has asked for something in the list of the active tab.
    pub fn apply_tree_action(&mut self, action: TreeAction) -> (r: Effect)
        requires
            old(self).wf(),
            action_fits(old(self)@, action@),
        ensures
            final(self).wf(),
            (final(self)@, r@) == acted(old(self)@, action@),
    {
        let tab_idx: usize = self.active_tab;
        let in_tab = tab_idx != 0;
        let source = if in_tab {
            Source::Tab(tab_idx)
        } else {
            Source::Main
        };
        match action {
            TreeAction::Nothing => Effect::Nothing,
            TreeAction::Select(p) => {
                self.change_pane_select(p);
                Effect::Nothing
            },
            TreeAction::EnterNode(p) => {
                self.change_pane_select(p);
                Effect::Nothing
            },
            TreeAction::ToggleExpand(p) => {
                self.change_pane_toggle(p);
                Effect::Nothing
            },
            TreeAction::RequestDelete { abs_path, name, full_path, is_folder, index_entry } => {
                self.pending_delete = Some(
                    PendingDelete { source, abs_path, name, full_path, is_folder, index_entry },
                );
                Effect::Nothing
            },
            TreeAction::RequestCheckLock { abs_path, name, full_path, is_folder } => {
                Effect::CheckLock(
                    LockRequest {
                        tab_idx,
                        is_view_tab: in_tab,
                        abs_path,
                        name,
                        full_path,
                        is_folder,
                        is_group: false,
                    },
                )
            },
            TreeAction::RequestCheckLockGroup { abs_path, name } => {
                let full_path = String::new();
                assert(full_path@ =~= Seq::<char>::empty());
                Effect::CheckLock(
                    LockRequest {
                        tab_idx,
                        is_view_tab: true,
                        abs_path,
                        name,
                        full_path,
                        is_folder: false,
                        is_group: true,
                    },
                )
            },
            TreeAction::RequestCreateSymlink { abs_path, name, full_path, is_folder } => {
                if abs_path.len() >= 2 {
                    self.pending_link = Some(
                        PendingLink::Single { source, abs_path, name, full_path, is_folder },
                    );
                }
                Effect::ListDrives
            },
            TreeAction::RequestCreateSymlinkGroup { abs_path, name } => {
                if abs_path.len() > 0 {
                    if let Some(member_paths) = self.group_members(tab_idx, abs_path.as_slice()) {
                        if member_paths.len() >= 2 {
                            self.pending_link = Some(
                                PendingLink::Group { tab_idx, abs_path, name, member_paths },
                            );
                        }
                    }
                }
                Effect::ListDrives
            },
            TreeAction::RequestRescan(pi) => if in_tab {
                self.refuse("这是数据快照，不支持重新扫描——请到主列表操作对应的分区。")
            } else {
                self.start_rescan(pi)
            },
            TreeAction::RequestRemovePartition(pi) => if in_tab {
                self.refuse("这是数据快照，不支持从这里移除分区——请到主列表操作。")
            } else {
                self.remove_partition(pi);
                Effect::Nothing
            },
            TreeAction::RequestExtensionBreakdown(pi) => if in_tab {
                self.refuse("这是数据快照，暂不支持在这里做扩展名分类——请到主列表操作对应的分区。")
            } else {
                self.open_extension_tab(Some(pi));
                Effect::Nothing
            },
            TreeAction::RequestDuplicateFinder(pi) => if in_tab {
                self.refuse("这是数据快照，暂不支持在这里查找重复文件——请到主列表操作对应的分区。")
            } else {
                self.open_duplicate_tab(Some(pi))
            },
        }
    }
}

} // verus!
