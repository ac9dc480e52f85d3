//! Finding names in what a tab shows: what matches, and which match is the current one.

use std::sync::Arc;

use vstd::prelude::*;
use vstd::string::*;

use crate::index_model::{entry_path, steps, IndexView};
use crate::list_search::{blank, is_blank, str_trim, trim};
use crate::model::{descend, forest_view, lemma_children, Node, NodePath, NodeView};
use crate::search_index::NameIndex;
use crate::text::{decimal, owned, push_decimal, str_eq, str_lowercase, to_lowercase};
use crate::tree_list::{all_children_fit, copy_path, extended};
use crate::ui::{hits_of, law_hits_are_entries, Matcher};

verus! {

/// What a list of paths holds.
pub open spec fn paths_view(v: Seq<NodePath>) -> Seq<Seq<usize>> {
    Seq::new(v.len(), |i: int| v[i]@)
}

/// The path of a node, where its name matches.
pub open spec fn own_match(n: NodeView, path: Seq<usize>, m: spec_fn(Seq<char>) -> bool) -> Seq<Seq<usize>> {
    if m(n.name) {
        seq![path]
    } else {
        Seq::empty()
    }
}

/// The paths of all matches below a node, from its `k`th child on, each node before what is
/// below it.
pub open spec fn matches_from(n: NodeView, k: int, path: Seq<usize>, m: spec_fn(Seq<char>) -> bool) -> Seq<Seq<usize>>
    decreases n, n.children.len() - k,
{
    if 0 <= k < n.children.len() {
        let c = n.children[k];
        let p = path.push(k as usize);
        own_match(c, p, m) + matches_from(c, 0, p, m) + matches_from(n, k + 1, path, m)
    } else {
        Seq::empty()
    }
}

/// The paths of all matches below the first `k` partitions. The partitions themselves are not
/// looked at.
pub open spec fn matches_upto(partitions: Seq<NodeView>, k: int, m: spec_fn(Seq<char>) -> bool) -> Seq<Seq<usize>>
    decreases k,
{
    if k <= 0 {
        Seq::empty()
    } else {
        matches_upto(partitions, k - 1, m) + matches_from(
            partitions[k - 1],
            0,
            seq![(k - 1) as usize],
            m,
        )
    }
}

/// A node whose children are looked at, from the `next` one on.
struct Looking<'a> {
    node: &'a Node,
    path: Vec<usize>,
    next: usize,
}

/// The paths of all matches that are still to be found, those of the last node first.
spec fn matches_left(todo: Seq<Looking<'_>>, m: spec_fn(Seq<char>) -> bool) -> Seq<Seq<usize>>
    decreases todo.len(),
{
    if todo.len() == 0 {
        Seq::empty()
    } else {
        let l = todo.last();
        matches_from(l.node@, l.next as int, l.path@, m) + matches_left(todo.drop_last(), m)
    }
}

/// How many steps it takes to look at everything below a node, from its `k`th child on.
spec fn steps_from(n: NodeView, k: int) -> nat
    decreases n, n.children.len() - k,
{
    if 0 <= k < n.children.len() {
        1 + steps_from(n.children[k], 0) + steps_from(n, k + 1)
    } else {
        1
    }
}

spec fn steps_left(todo: Seq<Looking<'_>>) -> nat
    decreases todo.len(),
{
    if todo.len() == 0 {
        0
    } else {
        steps_from(todo.last().node@, todo.last().next as int) + steps_left(todo.drop_last())
    }
}

fn collect_below(n: &Node, path: &Vec<usize>, matcher: &Matcher, out: &mut Vec<NodePath>)
    ensures
        paths_view(final(out)@) == paths_view(old(out)@) + matches_from(n@, 0, path@, matcher.test()),
{
    let ghost start = paths_view(out@);
    let ghost m = matcher.test();
    let ghost all = matches_from(n@, 0, path@, m);
    let mut todo: Vec<Looking<'_>> = Vec::new();
    todo.push(Looking { node: n, path: copy_path(path), next: 0 });
    proof {
        reveal_with_fuel(matches_left, 2);
        assert(todo@.drop_last() =~= Seq::empty());
        assert(matches_left(todo@, m) =~= all);
    }
    while todo.len() > 0
        invariant
            m == matcher.test(),
            paths_view(out@) + matches_left(todo@, m) == start + all,
        decreases steps_left(todo@),
    {
        let ghost before = todo@;
        let ghost found = paths_view(out@);
        let top = match todo.pop() {
            Some(t) => t,
            None => vstd::pervasive::unreached(),
        };
        let ghost rest = todo@;
        assert(rest =~= before.drop_last());
        proof {
            lemma_children(*top.node);
        }
        if top.next < top.node.children.len() {
            let k: usize = top.next;
            let c = &top.node.children[k];
            let p = extended(&top.path, k);
            assert(top.node@.children[k as int] == c@);
            if matcher.is_match(c.name.as_str()) {
                let ghost v = out@;
                out.push(copy_path(&p));
                assert(paths_view(out@) =~= paths_view(v).push(p@));
            }
            let ghost own = own_match(c@, p@, m);
            let ghost below = matches_from(c@, 0, p@, m);
            let ghost after = matches_from(top.node@, k + 1, top.path@, m);
            assert(paths_view(out@) =~= found + own);
            let again = Looking { node: top.node, path: top.path, next: k + 1 };
            let child = Looking { node: c, path: p, next: 0 };
            todo.push(again);
            todo.push(child);
            proof {
                reveal_with_fuel(matches_left, 3);
                reveal_with_fuel(steps_left, 3);
                let mid = rest.push(again);
                assert(mid.drop_last() =~= rest);
                assert(todo@.drop_last() =~= mid);
                assert(matches_left(todo@, m) == below + (after + matches_left(rest, m)));
                assert(found + ((own + below + after) + matches_left(rest, m)) =~= (found + own) + (
                below + (after + matches_left(rest, m))));
            }
        } else {
            assert(matches_left(before, m) =~= matches_left(rest, m));
        }
    }
    assert(paths_view(out@) + Seq::<Seq<usize>>::empty() =~= paths_view(out@));
}

/// The paths of all matches in a list of partitions, in the order of the trees.
pub fn collect_find_matches_main_shaped(partitions: &[Node], matcher: &Matcher) -> (r: Vec<NodePath>)
    ensures
        paths_view(r@) == matches_upto(
            forest_view(partitions@),
            partitions@.len() as int,
            matcher.test(),
        ),
{
    let mut out: Vec<NodePath> = Vec::new();
    let ghost ps = forest_view(partitions@);
    let mut pi: usize = 0;
    assert(paths_view(out@) =~= matches_upto(ps, 0, matcher.test()));
    while pi < partitions.len()
        invariant
            pi <= partitions.len(),
            ps == forest_view(partitions@),
            paths_view(out@) == matches_upto(ps, pi as int, matcher.test()),
        decreases partitions.len() - pi,
    {
        let mut path: Vec<usize> = Vec::new();
        path.push(pi);
        assert(path@ =~= seq![pi]);
        assert(ps[pi as int] == partitions@[pi as int]@);
        collect_below(&partitions[pi], &path, matcher, &mut out);
        pi += 1;
    }
    out
}

/// Whether a path leads below a node to one whose name matches.
pub open spec fn leads_to_match(n: NodeView, path: Seq<usize>, p: Seq<usize>, m: spec_fn(Seq<char>) -> bool) -> bool {
    &&& p.len() > path.len()
    &&& p.take(path.len() as int) == path
    &&& match descend(n, p.skip(path.len() as int)) {
        Some(x) => m(x.name),
        None => false,
    }
}

proof fn lemma_match_is_found(n: NodeView, k: int, path: Seq<usize>, m: spec_fn(Seq<char>) -> bool, s: Seq<usize>)
    requires
        s.len() > 0,
        0 <= k <= s[0],
        descend(n, s) is Some,
        m((descend(n, s)->0).name),
    ensures
        matches_from(n, k, path, m).contains(path + s),
    decreases n, n.children.len() - k,
{
    let c = n.children[k];
    let p = path.push(k as usize);
    let own = own_match(c, p, m);
    let below = matches_from(c, 0, p, m);
    let rest = matches_from(n, k + 1, path, m);
    let all = matches_from(n, k, path, m);
    assert(all == own + below + rest);
    if s[0] > k {
        lemma_match_is_found(n, k + 1, path, m, s);
        let j = choose|j: int| 0 <= j < rest.len() && rest[j] == path + s;
        assert(all[own.len() + below.len() + j] == path + s);
    } else if s.len() == 1 {
        assert(s.skip(1).len() == 0);
        reveal_with_fuel(descend, 2);
        assert(descend(n, s) == Some(c));
        assert(path + s =~= p);
        assert(own == seq![p]);
        assert(all[0] == path + s);
    } else {
        lemma_match_is_found(c, 0, p, m, s.skip(1));
        assert(p + s.skip(1) =~= path + s);
        let j = choose|j: int| 0 <= j < below.len() && below[j] == path + s;
        assert(all[own.len() + j] == path + s);
    }
}

proof fn lemma_found_is_match(n: NodeView, k: int, path: Seq<usize>, m: spec_fn(Seq<char>) -> bool, j: int)
    requires
        all_children_fit(n),
        0 <= k,
        0 <= j < matches_from(n, k, path, m).len(),
    ensures
        leads_to_match(n, path, matches_from(n, k, path, m)[j], m),
    decreases n, n.children.len() - k,
{
    let c = n.children[k];
    let p = path.push(k as usize);
    let own = own_match(c, p, m);
    let below = matches_from(c, 0, p, m);
    let rest = matches_from(n, k + 1, path, m);
    let x = matches_from(n, k, path, m)[j];
    if j < own.len() {
        assert(x == p);
        assert(p.take(path.len() as int) =~= path);
        assert(p.skip(path.len() as int) =~= seq![k as usize]);
        assert(seq![k as usize].skip(1).len() == 0);
        reveal_with_fuel(descend, 2);
    } else if j < own.len() + below.len() {
        assert(x == below[j - own.len()]);
        lemma_found_is_match(c, 0, p, m, j - own.len());
        assert(x.take(path.len() as int) =~= x.take(p.len() as int).take(path.len() as int));
        assert(p.take(path.len() as int) =~= path);
        let s = x.skip(path.len() as int);
        assert(s[0] == x.take(p.len() as int)[path.len() as int]);
        assert(s.skip(1) =~= x.skip(p.len() as int));
    } else {
        lemma_found_is_match(n, k + 1, path, m, j - own.len() - below.len());
    }
}

/// What is found below a partition is exactly what matches: every path that was found leads to
/// a matching node, and every matching node below the partition was found.
pub proof fn law_every_match_is_found(partition: NodeView, pi: usize, m: spec_fn(Seq<char>) -> bool, p: Seq<usize>)
    requires
        all_children_fit(partition),
    ensures
        matches_from(partition, 0, seq![pi], m).contains(p) <==> leads_to_match(
            partition,
            seq![pi],
            p,
            m,
        ),
{
    let all = matches_from(partition, 0, seq![pi], m);
    if all.contains(p) {
        let j = choose|j: int| 0 <= j < all.len() && all[j] == p;
        lemma_found_is_match(partition, 0, seq![pi], m, j);
    }
    if leads_to_match(partition, seq![pi], p, m) {
        lemma_match_is_found(partition, 0, seq![pi], m, p.skip(1));
        assert(seq![pi] + p.skip(1) =~= p) by {
            assert(p.take(1) == seq![pi]);
            assert(p[0] == p.take(1)[0]);
        }
    }
}

/// The paths of the matches in one group: the group itself, then its files.
pub open spec fn group_matches(root: NodeView, gi: int, m: spec_fn(Seq<char>) -> bool) -> Seq<Seq<usize>> {
    let g = root.children[gi];
    own_match(g, seq![0usize, gi as usize], m) + file_matches(g, gi, g.children.len() as int, m)
}

/// The paths of the matches among the first `k` files of a group.
pub open spec fn file_matches(g: NodeView, gi: int, k: int, m: spec_fn(Seq<char>) -> bool) -> Seq<Seq<usize>>
    decreases k,
{
    if k <= 0 {
        Seq::empty()
    } else {
        file_matches(g, gi, k - 1, m) + own_match(
            g.children[k - 1],
            seq![0usize, gi as usize, (k - 1) as usize],
            m,
        )
    }
}

/// The paths of the matches in the first `k` groups.
pub open spec fn view_matches(root: NodeView, k: int, m: spec_fn(Seq<char>) -> bool) -> Seq<Seq<usize>>
    decreases k,
{
    if k <= 0 {
        Seq::empty()
    } else {
        view_matches(root, k - 1, m) + group_matches(root, k - 1, m)
    }
}

fn note_match(n: &Node, path: Vec<usize>, matcher: &Matcher, out: &mut Vec<NodePath>)
    ensures
        paths_view(final(out)@) == paths_view(old(out)@) + own_match(n@, path@, matcher.test()),
{
    let ghost before = out@;
    if matcher.is_match(n.name.as_str()) {
        let ghost p = path@;
        out.push(path);
        assert(paths_view(out@) =~= paths_view(before).push(p));
    }
    assert(paths_view(out@) =~= paths_view(before) + own_match(n@, path@, matcher.test()));
}

/// The paths of all matches in a list of groups.
pub fn collect_find_matches_view(root: &Node, matcher: &Matcher) -> (r: Vec<NodePath>)
    ensures
        paths_view(r@) == view_matches(root@, root@.children.len() as int, matcher.test()),
{
    let mut out: Vec<NodePath> = Vec::new();
    proof {
        lemma_children(*root);
    }
    let mut gi: usize = 0;
    assert(paths_view(out@) =~= view_matches(root@, 0, matcher.test()));
    while gi < root.children.len()
        invariant
            gi <= root.children.len(),
            root@.children == forest_view(root.children@),
            paths_view(out@) == view_matches(root@, gi as int, matcher.test()),
        decreases root.children.len() - gi,
    {
        let g = &root.children[gi];
        assert(root@.children[gi as int] == g@);
        proof {
            lemma_children(*g);
        }
        let ghost before = paths_view(out@);
        let mut path: Vec<usize> = Vec::new();
        path.push(0);
        path.push(gi);
        assert(path@ =~= seq![0usize, gi]);
        note_match(g, path, matcher, &mut out);
        let ghost mid = paths_view(out@);
        let mut ci: usize = 0;
        assert(mid + file_matches(g@, gi as int, 0, matcher.test()) =~= mid);
        while ci < g.children.len()
            invariant
                ci <= g.children.len(),
                g@.children == forest_view(g.children@),
                paths_view(out@) == mid + file_matches(g@, gi as int, ci as int, matcher.test()),
            decreases g.children.len() - ci,
        {
            let c = &g.children[ci];
            assert(g@.children[ci as int] == c@);
            let mut path: Vec<usize> = Vec::new();
            path.push(0);
            path.push(gi);
            path.push(ci);
            assert(path@ =~= seq![0usize, gi, ci]);
            note_match(c, path, matcher, &mut out);
            ci += 1;
            assert(paths_view(out@) =~= mid + file_matches(g@, gi as int, ci as int, matcher.test()));
        }
        assert(paths_view(out@) =~= before + group_matches(root@, gi as int, matcher.test()));
        gi += 1;
    }
    out
}

/// What was found: entries of an index, or paths.
pub enum FindMatches {
    Entries { entries: Vec<u32>, index: Arc<NameIndex> },
    Paths(Vec<NodePath>),
}

/// What a [`FindMatches`] holds.
#[verifier::ext_equal]
pub enum MatchesView {
    Entries { entries: Seq<u32>, index: IndexView },
    Paths(Seq<Seq<usize>>),
}

impl View for FindMatches {
    type V = MatchesView;

    open spec fn view(&self) -> MatchesView {
        match self {
            FindMatches::Entries { entries, index } => MatchesView::Entries {
                entries: entries@,
                index: index@,
            },
            FindMatches::Paths(p) => MatchesView::Paths(paths_view(p@)),
        }
    }
}

impl FindMatches {
    /// The entries are those of the index.
    pub open spec fn wf(&self) -> bool {
        match self {
            FindMatches::Entries { entries, index } => index.wf() && entries_in(entries@, index@),
            FindMatches::Paths(_) => true,
        }
    }
}

/// Every number is that of an entry.
pub open spec fn entries_in(entries: Seq<u32>, v: IndexView) -> bool {
    forall|k: int| 0 <= k < entries.len() ==> #[trigger] entries[k] < v.entries.len()
}

/// What is found in an index.
pub fn collect_find_matches_index(idx: &Arc<NameIndex>, matcher: &Matcher) -> (r: FindMatches)
    requires
        idx.wf(),
    ensures
        r.wf(),
        r@ == (MatchesView::Entries { entries: hits_of(*matcher, idx@), index: idx@ }),
{
    let entries = matcher.find_in_index(idx);
    proof {
        idx.lemma_shape();
        law_hits_are_entries(*matcher, idx@);
    }
    FindMatches::Entries { entries, index: Arc::clone(idx) }
}

/// What the user looks for in a tab, and what was found.
pub struct FindState {
    query: String,
    found: FindMatches,
    cursor: usize,
    computed_for: Option<(String, usize)>,
    edited: bool,
}

/// What a [`FindState`] holds.
#[verifier::ext_equal]
pub struct FindView {
    /// What stands in the box.
    pub query: Seq<char>,
    pub found: MatchesView,
    /// Which match is the current one.
    pub cursor: nat,
    /// The query, in lower case and without white space around it, and the tab that the matches
    /// were looked for with.
    pub computed_for: Option<(Seq<char>, usize)>,
    /// Whether the box was edited since the query last took effect.
    pub edited: bool,
}

/// A query and a tab.
pub open spec fn key_view(k: Option<(String, usize)>) -> Option<(Seq<char>, usize)> {
    match k {
        Some((s, t)) => Some((s@, t)),
        None => None,
    }
}

impl View for FindState {
    type V = FindView;

    closed spec fn view(&self) -> FindView {
        FindView {
            query: self.query@,
            found: self.found@,
            cursor: self.cursor as nat,
            computed_for: key_view(self.computed_for),
            edited: self.edited,
        }
    }
}

/// How many matches there are.
pub open spec fn match_total(v: MatchesView) -> nat {
    match v {
        MatchesView::Entries { entries, .. } => entries.len(),
        MatchesView::Paths(p) => p.len(),
    }
}

/// Where a match is: its path, and its entry where it was found in an index.
pub open spec fn match_at(v: MatchesView, i: int) -> Option<(Seq<usize>, Option<u32>)> {
    if 0 <= i < match_total(v) {
        match v {
            MatchesView::Entries { entries, index } => Some(
                (steps(entry_path(index.entries, entries[i] as int)), Some(entries[i])),
            ),
            MatchesView::Paths(p) => Some((p[i], None)),
        }
    } else {
        None
    }
}

/// How long the query must stand still before it takes effect, in milliseconds.
pub const FIND_DEBOUNCE_MS: u64 = 180;

/// What there is to do for the box.
pub enum FindDue {
    /// Nothing: what was found is up to date.
    Nothing,
    /// The query has not stood still for long enough: look again after so many milliseconds.
    Wait(u64),
    /// Look for this.
    Search(String),
}

/// What a [`FindDue`] says.
#[verifier::ext_equal]
pub enum DueView {
    Nothing,
    Wait(u64),
    Search(Seq<char>),
}

impl View for FindDue {
    type V = DueView;

    open spec fn view(&self) -> DueView {
        match self {
            FindDue::Nothing => DueView::Nothing,
            FindDue::Wait(t) => DueView::Wait(*t),
            FindDue::Search(q) => DueView::Search(q@),
        }
    }
}

/// What matches are looked for with: the query in lower case, without white space around it,
/// and the tab.
pub open spec fn find_key(query: Seq<char>, tab: usize) -> (Seq<char>, usize) {
    (str_lowercase(str_trim(query)), tab)
}

/// What there is to do for the box `elapsed_ms` after the last edit.
pub open spec fn what_is_due(v: FindView, elapsed_ms: u64, tab: usize) -> DueView {
    if v.edited && elapsed_ms < FIND_DEBOUNCE_MS {
        DueView::Wait((FIND_DEBOUNCE_MS - elapsed_ms) as u64)
    } else if v.computed_for == Some(find_key(v.query, tab)) {
        DueView::Nothing
    } else {
        DueView::Search(str_trim(v.query))
    }
}

/// The line below the box.
pub open spec fn find_line(v: FindView) -> Seq<char> {
    if is_blank(v.query) {
        "输入内容开始查找"@
    } else if match_total(v.found) == 0 {
        "没有匹配项"@
    } else {
        "第 "@ + decimal(v.cursor + 1) + " / "@ + decimal(match_total(v.found)) + " 项"@
    }
}

/// What an optional match holds.
pub open spec fn target_view(t: Option<(NodePath, Option<u32>)>) -> Option<
    (Seq<usize>, Option<u32>),
> {
    match t {
        Some((p, e)) => Some((p@, e)),
        None => None,
    }
}

impl FindState {
    /// The matches are right, and one of them is the current one, if there are any.
    pub closed spec fn wf(&self) -> bool {
        &&& self.found.wf()
        &&& match_total(self.found@) == 0 ==> self.cursor == 0
        &&& match_total(self.found@) > 0 ==> self.cursor < match_total(self.found@)
    }

    /// An empty box.
    pub fn new() -> (r: Self)
        ensures
            r.wf(),
            r@ == (FindView {
                query: Seq::empty(),
                found: MatchesView::Paths(Seq::empty()),
                cursor: 0,
                computed_for: None,
                edited: false,
            }),
    {
        let none: Vec<NodePath> = Vec::new();
        assert(paths_view(none@) =~= Seq::<Seq<usize>>::empty());
        FindState {
            query: String::new(),
            found: FindMatches::Paths(none),
            cursor: 0,
            computed_for: None,
            edited: false,
        }
    }

    /// The current match is one of the matches.
    pub proof fn law_cursor_is_a_match(&self)
        requires
            self.wf(),
        ensures
            match_total(self@.found) > 0 ==> self@.cursor < match_total(self@.found),
            match_total(self@.found) > 0 ==> match_at(self@.found, self@.cursor as int) is Some,
    {
    }

    /// What stands in the box.
    pub fn query(&self) -> (r: &str)
        ensures
            r@ == self@.query,
    {
        self.query.as_str()
    }

    /// The box was edited.
    pub fn edit(&mut self, query: String)
        requires
            old(self).wf(),
        ensures
            final(self).wf(),
            final(self)@ == (FindView { query: query@, edited: true, ..old(self)@ }),
    {
        self.query = query;
        self.edited = true;
    }

    /// How many matches there are.
    pub fn match_count(&self) -> (n: usize)
        ensures
            n == match_total(self@.found),
    {
        match &self.found {
            FindMatches::Entries { entries, .. } => entries.len(),
            FindMatches::Paths(p) => p.len(),
        }
    }

    /// Where a match is.
    pub fn path_of(&self, i: usize) -> (r: Option<(NodePath, Option<u32>)>)
        requires
            self.wf(),
        ensures
            target_view(r) == match_at(self@.found, i as int),
    {
        match &self.found {
            FindMatches::Entries { entries, index } => if i < entries.len() {
                Some((index.abs_path_of(entries[i]), Some(entries[i])))
            } else {
                None
            },
            FindMatches::Paths(p) => if i < p.len() {
                Some((copy_path(&p[i]), None))
            } else {
                None
            },
        }
    }

    /// What there is to do for the box, `elapsed_ms` after the last edit, where it is shown
    /// above the tab `tab`.
    pub fn due(&mut self, elapsed_ms: u64, tab: usize) -> (r: FindDue)
        requires
            old(self).wf(),
        ensures
            final(self).wf(),
            r@ == what_is_due(old(self)@, elapsed_ms, tab),
            final(self)@ == if r@ is Wait {
                old(self)@
            } else {
                FindView { edited: false, ..old(self)@ }
            },
    {
        if self.edited && elapsed_ms < FIND_DEBOUNCE_MS {
            return FindDue::Wait(FIND_DEBOUNCE_MS - elapsed_ms);
        }
        self.edited = false;
        let query = owned(trim(self.query.as_str()));
        let low = to_lowercase(query.as_str());
        let same = match &self.computed_for {
            Some((q, t)) => str_eq(q.as_str(), low.as_str()) && *t == tab,
            None => false,
        };
        if same {
            FindDue::Nothing
        } else {
            FindDue::Search(query)
        }
    }

    /// Takes what was found for the query, and goes to the first match, if there is any.
    pub fn set_matches(&mut self, found: FindMatches, tab: usize) -> (r: Option<
        (NodePath, Option<u32>),
    >)
        requires
            old(self).wf(),
            found.wf(),
        ensures
            final(self).wf(),
            final(self)@ == (FindView {
                found: found@,
                cursor: 0,
                computed_for: Some(find_key(old(self)@.query, tab)),
                ..old(self)@
            }),
            target_view(r) == match_at(found@, 0),
    {
        let low = to_lowercase(trim(self.query.as_str()));
        self.found = found;
        self.cursor = 0;
        self.computed_for = Some((low, tab));
        self.path_of(0)
    }

    /// Goes to the next match; after the last one comes the first.
    pub fn next(&mut self) -> (r: Option<(NodePath, Option<u32>)>)
        requires
            old(self).wf(),
        ensures
            final(self).wf(),
            final(self)@ == (FindView {
                cursor: next_cursor(old(self)@.cursor, match_total(old(self)@.found)),
                ..old(self)@
            }),
            target_view(r) == match_at(final(self)@.found, final(self)@.cursor as int),
    {
        let n: usize = self.match_count();
        proof {
            if n > 0 {
                lemma_cursors(self.cursor as nat, n as nat);
            }
        }
        if n > 0 {
            if self.cursor + 1 == n {
                self.cursor = 0;
            } else {
                self.cursor = self.cursor + 1;
            }
        }
        self.path_of(self.cursor)
    }

    /// Goes to the match before; before the first one comes the last.
    pub fn prev(&mut self) -> (r: Option<(NodePath, Option<u32>)>)
        requires
            old(self).wf(),
        ensures
            final(self).wf(),
            final(self)@ == (FindView {
                cursor: prev_cursor(old(self)@.cursor, match_total(old(self)@.found)),
                ..old(self)@
            }),
            target_view(r) == match_at(final(self)@.found, final(self)@.cursor as int),
    {
        let n: usize = self.match_count();
        proof {
            if n > 0 {
                lemma_cursors(self.cursor as nat, n as nat);
            }
        }
        if n > 0 {
            if self.cursor == 0 {
                self.cursor = n - 1;
            } else {
                self.cursor = self.cursor - 1;
            }
        }
        self.path_of(self.cursor)
    }

    /// The line below the box.
    pub fn line(&self) -> (r: String)
        requires
            self.wf(),
        ensures
            r@ == find_line(self@),
    {
        if blank(self.query.as_str()) {
            return owned("输入内容开始查找");
        }
        let n: usize = self.match_count();
        if n == 0 {
            return owned("没有匹配项");
        }
        let mut s = owned("第 ");
        push_decimal(&mut s, self.cursor as u64 + 1);
        s.append(" / ");
        push_decimal(&mut s, n as u64);
        s.append(" 项");
        s
    }
}

/// The match after one of `n`.
pub open spec fn next_cursor(i: nat, n: nat) -> nat {
    if n == 0 {
        i
    } else {
        (i + 1) % n
    }
}

/// The match before one of `n`.
pub open spec fn prev_cursor(i: nat, n: nat) -> nat {
    if n == 0 {
        i
    } else {
        ((i + n - 1) % (n as int)) as nat
    }
}

/// Going on and back again leads to the same match.
pub proof fn law_next_and_prev_cancel(i: nat, n: nat)
    requires
        i < n,
    ensures
        prev_cursor(next_cursor(i, n), n) == i,
        next_cursor(prev_cursor(i, n), n) == i,
{
    lemma_cursors(i, n);
    lemma_cursors(next_cursor(i, n), n);
    lemma_cursors(prev_cursor(i, n), n);
}

pub proof fn lemma_cursors(i: nat, n: nat)
    requires
        i < n,
    ensures
        next_cursor(i, n) == if i + 1 == n {
            0
        } else {
            i + 1
        },
        prev_cursor(i, n) == if i == 0 {
            n - 1
        } else {
            i - 1
        },
{
    if i + 1 == n {
        vstd::arithmetic::div_mod::lemma_mod_self_0(n as int);
    } else {
        vstd::arithmetic::div_mod::lemma_small_mod((i + 1) as nat, n);
    }
    if i == 0 {
        vstd::arithmetic::div_mod::lemma_small_mod((n - 1) as nat, n);
    } else {
        vstd::arithmetic::div_mod::lemma_mod_add_multiples_vanish((i - 1) as int, n as int);
        vstd::arithmetic::div_mod::lemma_small_mod((i - 1) as nat, n);
    }
}

} // verus!
