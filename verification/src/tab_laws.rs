//! What the user gets for what they ask for in a tab.

use vstd::prelude::*;

use crate::model::NodeView;
use crate::session::{EffectView, SessionView, Source};
use crate::session_actions::acted;
use crate::session_laws::selected_in;
use crate::session_tabs::{
    compare_heard, copy_opened, duplicates_opened, extensions_opened, files_in_scope, search_opened,
    NewsView,
};
use crate::tabs::{tab_for, Loading, TabKind, TabView};
use crate::ui::ActionView;

verus! {

/// The tab that the user is in, as something to be changed.
pub open spec fn here(s: SessionView) -> Source {
    if s.active_tab == 0 {
        Source::Main
    } else {
        Source::Tab(s.active_tab)
    }
}

/// Asking for something to be deleted deletes nothing: what is to be deleted is noted, with the
/// tab and the path it was asked for in, and no list changes.
pub proof fn law_deleting_is_confirmed_first(
    s: SessionView,
    abs_path: Seq<usize>,
    name: Seq<char>,
    full_path: Seq<char>,
    is_folder: bool,
    index_entry: Option<u32>,
)
    ensures
        ({
            let (t, e) = acted(
                s,
                ActionView::RequestDelete { abs_path, name, full_path, is_folder, index_entry },
            );
            &&& t.tabs == s.tabs
            &&& e == EffectView::Nothing
            &&& t.pending_delete is Some
            &&& t.pending_delete->0.source == here(s)
            &&& t.pending_delete->0.abs_path == abs_path
            &&& t.pending_delete->0.name == name
            &&& t.pending_delete->0.full_path == full_path
            &&& t.pending_delete->0.is_folder == is_folder
            &&& t.pending_delete->0.index_entry == index_entry
            &&& t.pending_link == s.pending_link
        }),
{
}

/// A question who holds a file or folder open is asked for that file or folder, and changes
/// nothing.
pub proof fn law_question_is_about_the_row(
    s: SessionView,
    abs_path: Seq<usize>,
    name: Seq<char>,
    full_path: Seq<char>,
    is_folder: bool,
)
    ensures
        ({
            let (t, e) = acted(
                s,
                ActionView::RequestCheckLock { abs_path, name, full_path, is_folder },
            );
            &&& t == s
            &&& e is CheckLock
            &&& e->CheckLock_0.tab_idx == s.active_tab
            &&& e->CheckLock_0.abs_path == abs_path
            &&& e->CheckLock_0.name == name
            &&& e->CheckLock_0.full_path == full_path
            &&& e->CheckLock_0.is_folder == is_folder
            &&& !e->CheckLock_0.is_group
        }),
{
}

/// A click selects the row in the list of the active tab, and changes no other tab.
pub proof fn law_click_selects_in_its_tab(s: SessionView, path: Seq<usize>, k: int)
    requires
        s.active_tab < s.tabs.len(),
        0 <= k < s.tabs.len(),
    ensures
        ({
            let (t, e) = acted(s, ActionView::Select(path));
            &&& e == EffectView::Nothing
            &&& selected_in(t.tabs[s.active_tab as int].pane) == Some(path)
            &&& k != s.active_tab ==> t.tabs[k] == s.tabs[k]
            &&& t.tabs.len() == s.tabs.len()
            &&& t.active_tab == s.active_tab
        }),
{
}

/// Partitions are scanned again, taken off and looked into only from the list of partitions: in
/// any other tab the user is told so, and nothing happens.
pub proof fn law_other_tabs_do_not_change_partitions(s: SessionView, pi: usize)
    requires
        s.active_tab != 0,
    ensures
        ({
            let a = acted(s, ActionView::RequestRescan(pi));
            let b = acted(s, ActionView::RequestRemovePartition(pi));
            let c = acted(s, ActionView::RequestExtensionBreakdown(pi));
            let d = acted(s, ActionView::RequestDuplicateFinder(pi));
            &&& a.0.tabs == s.tabs && b.0.tabs == s.tabs && c.0.tabs == s.tabs && d.0.tabs == s.tabs
            &&& a.0.scan == s.scan
            &&& a.1 == EffectView::Nothing && b.1 == EffectView::Nothing && c.1
                == EffectView::Nothing && d.1 == EffectView::Nothing
            &&& a.0.status is Some && a.0.status->0.is_error
            &&& b.0.status is Some && b.0.status->0.is_error
            &&& c.0.status is Some && c.0.status->0.is_error
            &&& d.0.status is Some && d.0.status->0.is_error
        }),
{
}

/// Whether a state has one more tab than another, behind all others and active.
pub open spec fn has_new_tab(s: SessionView, t: SessionView, kind: TabKind) -> bool {
    &&& t.tabs.len() == s.tabs.len() + 1
    &&& t.tabs.drop_last() == s.tabs
    &&& t.active_tab == s.tabs.len()
    &&& t.tabs.last().kind == kind
    &&& t.tabs.last().id == s.next_id
    &&& t.next_id != s.next_id
    &&& t.root_paths == s.root_paths
    &&& t.infos == s.infos
}

/// A list to search in, and a copy of the list of partitions, open in a tab of their own behind
/// the others. Without partitions there is neither.
pub proof fn law_search_and_copy_open_a_tab(s: SessionView)
    requires
        s.tabs.len() < usize::MAX,
    ensures
        s.main_list().trees.len() == 0 ==> search_opened(s) == s && copy_opened(s).0 == s,
        s.main_list().trees.len() > 0 ==> {
            &&& has_new_tab(s, search_opened(s), TabKind::Search)
            &&& search_opened(s).tabs.last().index == s.main_index
            &&& has_new_tab(s, copy_opened(s).0, TabKind::Copy)
            &&& copy_opened(s).0.tabs.last().root_paths == s.root_paths
            &&& copy_opened(s).0.tabs.last().infos == s.infos
            &&& s.main_index is Some ==> copy_opened(s).1 == EffectView::Rebuild(s.next_id)
            &&& s.main_index is None ==> copy_opened(s).1 == EffectView::Nothing
                && copy_opened(s).0.tabs.last().loading == Loading::WaitIndex
        },
{
    assert(search_opened(s).tabs.drop_last() =~= s.tabs || s.main_list().trees.len() == 0);
    assert(copy_opened(s).0.tabs.drop_last() =~= s.tabs || s.main_list().trees.len() == 0);
}

/// The search for duplicates opens a tab for what it is about, and asks for just these files to be
/// compared. Where there is such a tab already it becomes the active one, and nothing is asked.
pub proof fn law_duplicates_open_a_tab_once(s: SessionView, scope: Option<usize>)
    requires
        s.tabs.len() < usize::MAX,
    ensures
        ({
            let (t, e) = duplicates_opened(s, scope);
            let known = tab_for(s.tabs, TabKind::Duplicates, scope, 0);
            &&& known is Some ==> t.tabs == s.tabs && e == EffectView::Nothing
            &&& known is None && files_in_scope(s, scope) is Some ==> has_new_tab(
                s,
                t,
                TabKind::Duplicates,
            ) && t.tabs.last().scope == scope && e == EffectView::Compare(scope)
                && t.tabs.last().loading is Comparing
            &&& known is None && files_in_scope(s, scope) is None ==> t == s && e
                == EffectView::Nothing
        }),
{
    let t = duplicates_opened(s, scope).0;
    if tab_for(s.tabs, TabKind::Duplicates, scope, 0) is None && files_in_scope(s, scope) is Some {
        assert(t.tabs.drop_last() =~= s.tabs);
    }
}

proof fn lemma_tab_for(tabs: Seq<TabView>, kind: TabKind, scope: Option<usize>, k: int)
    requires
        0 <= k <= tabs.len(),
    ensures
        match tab_for(tabs, kind, scope, k) {
            Some(i) => k <= i < tabs.len() && tabs[i].kind == kind && tabs[i].scope == scope,
            None => forall|j: int|
                k <= j < tabs.len() ==> (#[trigger] tabs[j]).kind != kind || tabs[j].scope != scope,
        },
    decreases tabs.len() - k,
{
    if k < tabs.len() {
        lemma_tab_for(tabs, kind, scope, k + 1);
    }
}

/// What a comparison says reaches the tab it is for, and no other. When it is done the tab shows
/// the groups that were found, and waits no longer.
pub proof fn law_news_reach_their_tab(
    s: SessionView,
    scope: Option<usize>,
    root: NodeView,
    k: int,
)
    requires
        0 <= k < s.tabs.len(),
    ensures
        ({
            let t = compare_heard(s, scope, NewsView::Done(root));
            &&& t.tabs.len() == s.tabs.len()
            &&& s.tabs[k].kind != TabKind::Duplicates || s.tabs[k].scope != scope ==> t.tabs[k]
                == s.tabs[k]
            &&& (exists|j: int|
                0 <= j < s.tabs.len() && (#[trigger] s.tabs[j]).kind == TabKind::Duplicates
                    && s.tabs[j].scope == scope) ==> exists|j: int|
                0 <= j < s.tabs.len() && (#[trigger] t.tabs[j]).kind == TabKind::Duplicates
                    && t.tabs[j].scope == scope && t.tabs[j].loading == Loading::Ready && (
                t.tabs[j].pane is Group ==> t.tabs[j].pane->Group_0.root == root)
        }),
{
    lemma_tab_for(s.tabs, TabKind::Duplicates, scope, 0);
    let t = compare_heard(s, scope, NewsView::Done(root));
    match tab_for(s.tabs, TabKind::Duplicates, scope, 0) {
        Some(i) => {
            assert(t.tabs[i].kind == TabKind::Duplicates);
        },
        None => {},
    }
}

/// The files by extension open in a tab for what they are about, or the tab that shows them
/// becomes the active one; the partitions stay as they are.
pub proof fn law_extensions_open_a_tab_once(s: SessionView, scope: Option<usize>)
    requires
        s.tabs.len() < usize::MAX,
    ensures
        ({
            let t = extensions_opened(s, scope);
            let known = tab_for(s.tabs, TabKind::Extensions, scope, 0);
            &&& known is Some ==> t.tabs == s.tabs && t.active_tab == known->0 as usize
            &&& known is None && t != s ==> has_new_tab(s, t, TabKind::Extensions)
                && t.tabs.last().scope == scope
            &&& t.root_paths == s.root_paths
        }),
{
    let t = extensions_opened(s, scope);
    if tab_for(s.tabs, TabKind::Extensions, scope, 0) is None && t != s {
        assert(t.tabs.drop_last() =~= s.tabs);
    }
}

} // verus!
