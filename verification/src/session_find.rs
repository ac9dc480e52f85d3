//! The find box above the active tab.

use vstd::prelude::*;

use crate::file_ops::is_empty;
use crate::find::{
    collect_find_matches_index, collect_find_matches_main_shaped, collect_find_matches_view,
    find_key, match_at, match_total, matches_upto, next_cursor, prev_cursor, view_matches,
    what_is_due, DueView, FindDue, FindMatches, FindView, MatchesView,
};
use crate::list_search::query_hits;
use crate::model::NodePath;
use crate::pane::{revealing, Pane};
use crate::session::{lemma_pane_changed, lemma_pane_kept, Session, SessionView};
use crate::tabs::{pane_fits, TabKind, TabView};
use crate::ui::{auto_test, hits_of, is_auto, Matcher};

verus! {

/// What matches a query in an index.
pub open spec fn indexed_matches(v: crate::index_model::IndexView, query: Seq<char>) -> MatchesView {
    MatchesView::Entries { entries: query_hits(v, query), index: v }
}

/// No matches.
pub open spec fn no_matches() -> MatchesView {
    MatchesView::Paths(Seq::empty())
}

/// What matches a query in the active tab. It is looked up in an index of what the tab shows,
/// where there is one: for the list of partitions, only in one that is up to date.
pub open spec fn matches_in_tab(s: SessionView, query: Seq<char>) -> MatchesView {
    let tab = s.tabs[s.active_tab as int];
    if query.len() == 0 {
        no_matches()
    } else {
        match tab.kind {
            TabKind::Search | TabKind::Copy => match tab.index {
                Some(v) => indexed_matches(v, query),
                None => no_matches(),
            },
            TabKind::Extensions | TabKind::Duplicates => match tab.index {
                Some(v) => indexed_matches(v, query),
                None => {
                    let root = (tab.pane->Group_0).root;
                    MatchesView::Paths(
                        view_matches(root, root.children.len() as int, auto_test(query)),
                    )
                },
            },
            TabKind::Main => {
                let list = s.main_list();
                match s.main_index {
                    Some(v) if v.struct_version == list.struct_version => indexed_matches(
                        v,
                        query,
                    ),
                    _ => MatchesView::Paths(
                        matches_upto(list.trees, list.trees.len() as int, auto_test(query)),
                    ),
                }
            },
        }
    }
}

/// The state with another find box above the active tab.
pub open spec fn with_find(s: SessionView, find: FindView) -> SessionView {
    SessionView {
        tabs: s.tabs.update(
            s.active_tab as int,
            TabView { find, ..s.tabs[s.active_tab as int] },
        ),
        ..s
    }
}

/// The state once a match is shown, if there is one.
pub open spec fn target_shown(s: SessionView, target: Option<(Seq<usize>, Option<u32>)>) -> SessionView {
    let i = s.active_tab as int;
    match target {
        Some((path, entry)) => s.with_pane(i, revealing(s.tabs[i].pane, path, entry)),
        None => s,
    }
}

/// The state once the query has taken effect, where it is time for that: what matches it is
/// looked up, and the first match shown.
pub open spec fn searched(s: SessionView, elapsed_ms: u64) -> SessionView {
    let find = s.tabs[s.active_tab as int].find;
    match what_is_due(find, elapsed_ms, s.active_tab) {
        DueView::Wait(_) => s,
        DueView::Nothing => with_find(s, FindView { edited: false, ..find }),
        DueView::Search(query) => {
            let found = matches_in_tab(s, query);
            target_shown(
                with_find(
                    s,
                    FindView {
                        query: find.query,
                        found,
                        cursor: 0,
                        computed_for: Some(find_key(find.query, s.active_tab)),
                        edited: false,
                    },
                ),
                match_at(found, 0),
            )
        },
    }
}

/// The state once the next match, or the one before, is the current one and shown. Without
/// matches nothing happens.
pub open spec fn moved(s: SessionView, forward: bool) -> SessionView {
    let find = s.tabs[s.active_tab as int].find;
    let n = match_total(find.found);
    if n == 0 {
        s
    } else {
        let cursor = if forward {
            next_cursor(find.cursor, n)
        } else {
            prev_cursor(find.cursor, n)
        };
        target_shown(
            with_find(s, FindView { cursor, ..find }),
            match_at(find.found, cursor as int),
        )
    }
}

/// What the find box does in one frame: the query takes effect where it is time, then the user
/// goes on to the next match or back to the one before.
pub open spec fn found_in_frame(
    s: SessionView,
    elapsed_ms: u64,
    go_next: bool,
    go_prev: bool,
) -> SessionView {
    let a = searched(s, elapsed_ms);
    let b = if go_next {
        moved(a, true)
    } else {
        a
    };
    if go_prev {
        moved(b, false)
    } else {
        b
    }
}

/// Whether the find box stays open: the Escape key closes it, unless it is meant for a dialog in
/// front of it.
pub fn find_stays_open(window_open: bool, escape: bool, dialog_open: bool) -> (r: bool)
    ensures
        r == (window_open && (dialog_open || !escape)),
{
    window_open && (dialog_open || !escape)
}

proof fn lemma_auto(m: Matcher, query: Seq<char>, v: crate::index_model::IndexView)
    requires
        is_auto(m, query),
    ensures
        m.test() == auto_test(query),
        hits_of(m, v) == query_hits(v, query),
{
    assert(m.test() =~= auto_test(query));
}

/// Two sessions differ in the find box of one tab at most.
proof fn lemma_find_changed(a: Session, b: Session, i: int)
    requires
        a.wf(),
        0 <= i < a.tabs@.len(),
        b == (Session { tabs: b.tabs, ..a }),
        b.tabs@ == a.tabs@.update(i, b.tabs@[i]),
        b.tabs@[i] == (crate::tabs::Tab { find: b.tabs@[i].find, ..a.tabs@[i] }),
        b.tabs@[i].find.wf(),
    ensures
        b.wf(),
        b@ == (SessionView {
            tabs: a@.tabs.update(i, TabView { find: b.tabs@[i].find@, ..a@.tabs[i] }),
            ..a@
        }),
{
    assert forall|k: int| 0 <= k < b.tabs@.len() implies (#[trigger] b.tabs@[k]).wf() by {
        assert(a.tabs@[k].wf());
    }
    assert(b@.tabs =~= a@.tabs.update(i, TabView { find: b.tabs@[i].find@, ..a@.tabs[i] }));
    assert forall|k: int| 0 <= k < b@.tabs.len() implies pane_fits(
        (#[trigger] b@.tabs[k]).kind,
        b@.tabs[k].pane,
    ) && (k > 0 ==> b@.tabs[k].kind != TabKind::Main) by {
        assert(pane_fits(a@.tabs[k].kind, a@.tabs[k].pane));
    }
}

impl Session {
    /// What matches a query in the active tab.
    pub fn collect_find_matches(&self, query: &str) -> (r: FindMatches)
        requires
            self.wf(),
        ensures
            r.wf(),
            r@ == matches_in_tab(self@, query@),
    {
        let none: Vec<NodePath> = Vec::new();
        assert(crate::find::paths_view(none@) =~= Seq::<Seq<usize>>::empty());
        if is_empty(query) {
            return FindMatches::Paths(none);
        }
        let m = Matcher::build_auto(query);
        let tab = &self.tabs[self.active_tab];
        assert(self@.tabs[self.active_tab as int] == tab@);
        assert(self.tabs@[self.active_tab as int].wf());
        assert(pane_fits(tab@.kind, tab@.pane));
        let ghost any: crate::index_model::IndexView = arbitrary();
        proof {
            lemma_auto(m, query@, any);
        }
        match tab.kind {
            TabKind::Search | TabKind::Copy => match &tab.index {
                Some(idx) => {
                    proof {
                        lemma_auto(m, query@, idx@);
                    }
                    collect_find_matches_index(idx, &m)
                },
                None => FindMatches::Paths(none),
            },
            TabKind::Extensions | TabKind::Duplicates => match &tab.index {
                Some(idx) => {
                    proof {
                        lemma_auto(m, query@, idx@);
                    }
                    collect_find_matches_index(idx, &m)
                },
                None => match &tab.pane {
                    Pane::Group(g) => FindMatches::Paths(collect_find_matches_view(&g.root, &m)),
                    _ => vstd::pervasive::unreached(),
                },
            },
            TabKind::Main => {
                assert(self.active_tab == 0);
                match &tab.pane {
                    Pane::Tree(t) => {
                        if let Some(idx) = &self.main_index {
                            if idx.tree_version() == t.struct_version {
                                proof {
                                    lemma_auto(m, query@, idx@);
                                }
                                return collect_find_matches_index(idx, &m);
                            }
                        }
                        FindMatches::Paths(
                            collect_find_matches_main_shaped(t.trees.as_slice(), &m),
                        )
                    },
                    _ => vstd::pervasive::unreached(),
                }
            },
        }
    }

    /// Shows a match in the active tab.
    pub fn reveal_find_target(&mut self, path: NodePath, entry: Option<u32>)
        requires
            old(self).wf(),
        ensures
            final(self).wf(),
            final(self)@ == target_shown(old(self)@, Some((path@, entry))),
    {
        let ghost before = *self;
        let i: usize = self.active_tab;
        assert(before@.tabs[i as int].pane == before.tabs@[i as int].pane@);
        self.tabs[i].pane.show_row(path, entry);
        proof {
            lemma_pane_changed(before, *self, i as int);
            assert(self@ =~= before@.with_pane(i as int, self.tabs@[i as int].pane@));
            lemma_pane_kept(before@, i as int, self.tabs@[i as int].pane@);
        }
    }

    /// The find box above the active tab was edited.
    pub fn edit_find(&mut self, query: String)
        requires
            old(self).wf(),
        ensures
            final(self).wf(),
            final(self)@ == with_find(
                old(self)@,
                FindView {
                    query: query@,
                    edited: true,
                    ..old(self)@.tabs[old(self)@.active_tab as int].find
                },
            ),
    {
        let ghost before = *self;
        let i: usize = self.active_tab;
        assert(before.tabs@[i as int].wf());
        assert(before@.tabs[i as int] == before.tabs@[i as int]@);
        self.tabs[i].find.edit(query);
        proof {
            lemma_find_changed(before, *self, i as int);
        }
    }

    fn run_query(&mut self, elapsed_ms: u64) -> (wait: Option<u64>)
        requires
            old(self).wf(),
        ensures
            final(self).wf(),
            final(self)@ == searched(old(self)@, elapsed_ms),
            final(self)@.active_tab == old(self)@.active_tab,
            wait == match what_is_due(
                old(self)@.tabs[old(self)@.active_tab as int].find,
                elapsed_ms,
                old(self)@.active_tab,
            ) {
                DueView::Wait(t) => Some(t),
                _ => None,
            },
    {
        let ghost before = *self;
        let i: usize = self.active_tab;
        assert(before.tabs@[i as int].wf());
        assert(before@.tabs[i as int] == before.tabs@[i as int]@);
        let due = self.tabs[i].find.due(elapsed_ms, i);
        proof {
            lemma_find_changed(before, *self, i as int);
        }
        match due {
            FindDue::Wait(t) => {
                assert(self@.tabs =~= before@.tabs);
                Some(t)
            },
            FindDue::Nothing => None,
            FindDue::Search(query) => {
                let ghost mid = *self;
                assert(mid@.tabs[i as int].kind == before@.tabs[i as int].kind);
                assert(matches_in_tab(mid@, query@) == matches_in_tab(before@, query@)) by {
                    if i != 0 {
                        assert(mid@.tabs[0] == before@.tabs[0]);
                    }
                    assert(mid@.main_list() == before@.main_list());
                }
                let found = self.collect_find_matches(query.as_str());
                let ghost fv = found@;
                let target = self.tabs[i].find.set_matches(found, i);
                proof {
                    assert(mid.tabs@[i as int].wf());
                    lemma_find_changed(mid, *self, i as int);
                    assert(mid@.tabs[i as int] == mid.tabs@[i as int]@);
                    assert(self@ =~= with_find(
                        before@,
                        FindView {
                            query: before@.tabs[i as int].find.query,
                            found: fv,
                            cursor: 0,
                            computed_for: Some(find_key(before@.tabs[i as int].find.query, i)),
                            edited: false,
                        },
                    ));
                }
                if let Some((path, entry)) = target {
                    self.reveal_find_target(path, entry);
                }
                None
            },
        }
    }

    fn move_find(&mut self, forward: bool)
        requires
            old(self).wf(),
        ensures
            final(self).wf(),
            final(self)@ == moved(old(self)@, forward),
    {
        let ghost before = *self;
        let i: usize = self.active_tab;
        assert(before.tabs@[i as int].wf());
        assert(before@.tabs[i as int] == before.tabs@[i as int]@);
        if self.tabs[i].find.match_count() == 0 {
            return;
        }
        let target = if forward {
            self.tabs[i].find.next()
        } else {
            self.tabs[i].find.prev()
        };
        proof {
            lemma_find_changed(before, *self, i as int);
        }
        if let Some((path, entry)) = target {
            self.reveal_find_target(path, entry);
        }
    }

    /// What the find box does in one frame, `elapsed_ms` after it was last edited. Says how long
    /// to wait until the query takes effect, where it has not.
    pub fn find_frame(&mut self, elapsed_ms: u64, go_next: bool, go_prev: bool) -> (wait: Option<
        u64,
    >)
        requires
            old(self).wf(),
        ensures
            final(self).wf(),
            final(self)@ == found_in_frame(old(self)@, elapsed_ms, go_next, go_prev),
            wait == match what_is_due(
                old(self)@.tabs[old(self)@.active_tab as int].find,
                elapsed_ms,
                old(self)@.active_tab,
            ) {
                DueView::Wait(t) => Some(t),
                _ => None,
            },
    {
        let wait = self.run_query(elapsed_ms);
        if go_next {
            self.move_find(true);
        }
        if go_prev {
            self.move_find(false);
        }
        wait
    }
}

/// Finding changes nothing but the active tab: not which tab that is, not the other tabs, and
/// nothing of what is scanned, deleted or told.
pub proof fn law_finding_stays_in_the_tab(
    s: SessionView,
    elapsed_ms: u64,
    go_next: bool,
    go_prev: bool,
    k: int,
)
    requires
        s.ok(),
        0 <= k < s.tabs.len(),
    ensures
        ({
            let t = found_in_frame(s, elapsed_ms, go_next, go_prev);
            &&& t == (SessionView { tabs: t.tabs, ..s })
            &&& t.tabs.len() == s.tabs.len()
            &&& k != s.active_tab ==> t.tabs[k] == s.tabs[k]
            &&& t.tabs[k].kind == s.tabs[k].kind
        }),
{
}

} // verus!
