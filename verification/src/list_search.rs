//! The flat list of search results: when the query takes effect, what it finds and in what
//! order that is shown.

use std::collections::HashSet;

use vstd::prelude::*;

use crate::index_model::{entry_path, file_numbers, steps, IndexView};
use crate::index_queries::{plain_hits, regex_hits};
use crate::matcher::{glob_pattern, has_wildcard, regex_of};
use crate::model::SortState;
use crate::search_index::NameIndex;
use crate::text::{owned, str_eq, str_lowercase};
use crate::ui::{folded_letters, ActionView, Matcher, TreeAction};

verus! {

broadcast use vstd::std_specs::hash::group_hash_axioms;

/// What `str::trim` makes of a text.
pub uninterp spec fn str_trim(s: Seq<char>) -> Seq<char>;

/// `str::trim`: a text without white space at its ends, by Unicode's rules, which depend on the
/// text alone. What counts as white space is left to the standard library.
#[verifier::external_body]
pub(crate) fn trim(s: &str) -> (r: &str)
    ensures
        r@ == str_trim(s@),
{
    s.trim()
}

/// Whether a query holds nothing but white space.
pub open spec fn is_blank(query: Seq<char>) -> bool {
    str_trim(query).len() == 0
}

/// Whether a query holds nothing but white space.
pub fn blank(query: &str) -> (r: bool)
    ensures
        r == is_blank(query@),
{
    crate::file_ops::is_empty(trim(query))
}

/// What a query that is not blank finds.
pub open spec fn query_hits(v: IndexView, query: Seq<char>) -> Seq<u32> {
    match (has_wildcard(query), regex_of(glob_pattern(query))) {
        (true, Some(re)) => regex_hits(v.entries, re, 0, v.entries.len() as int),
        _ => {
            let low = str_lowercase(folded_letters(query));
            if low.len() == 0 {
                Seq::empty()
            } else {
                plain_hits(
                    v.entries,
                    vstd::utf8::encode_utf8(low),
                    0,
                    v.entries.len() as int,
                )
            }
        },
    }
}

/// What a query finds: all files where it is blank.
pub open spec fn found(v: IndexView, query: Seq<char>) -> Seq<u32> {
    if is_blank(query) {
        file_numbers(v.entries, v.entries.len() as int)
    } else {
        query_hits(v, query)
    }
}

/// The entries of a list that were not removed.
pub open spec fn kept(s: Seq<u32>, removed: Set<u32>) -> Seq<u32>
    decreases s.len(),
{
    if s.len() == 0 {
        Seq::empty()
    } else if removed.contains(s.last()) {
        kept(s.drop_last(), removed)
    } else {
        kept(s.drop_last(), removed).push(s.last())
    }
}

/// The results of one query.
struct SearchView {
    for_query: String,
    for_index: u64,
    for_removed: usize,
    base: Vec<u32>,
    order: Vec<u32>,
    sorted_for: Option<SortState>,
}

/// What the results of one query hold.
#[verifier::ext_equal]
pub struct ResultsView {
    /// The query, the index and the number of removed entries that they were made for.
    pub for_query: Seq<char>,
    pub for_index: u64,
    pub for_removed: nat,
    /// What was found.
    pub base: Seq<u32>,
    /// The order in which it is shown.
    pub order: Seq<u32>,
    /// What it is sorted by, once it is.
    pub sorted_for: Option<SortState>,
}

/// The state of a list of search results.
pub struct ListSearch {
    query: String,
    applied: String,
    edited: bool,
    results: Option<SearchView>,
    sorting: Option<SortState>,
    removed: HashSet<u32>,
}

/// What a [`ListSearch`] holds.
#[verifier::ext_equal]
pub struct SearchStateView {
    /// What stands in the search box.
    pub query: Seq<char>,
    /// What took effect of it.
    pub applied: Seq<char>,
    /// Whether it was edited since.
    pub edited: bool,
    pub results: Option<ResultsView>,
    /// The order that is being made.
    pub sorting: Option<SortState>,
    pub removed: Set<u32>,
}

spec fn results_view(r: Option<SearchView>) -> Option<ResultsView> {
    match r {
        Some(v) => Some(
            ResultsView {
                for_query: v.for_query@,
                for_index: v.for_index,
                for_removed: v.for_removed as nat,
                base: v.base@,
                order: v.order@,
                sorted_for: v.sorted_for,
            },
        ),
        None => None,
    }
}

impl View for ListSearch {
    type V = SearchStateView;

    closed spec fn view(&self) -> SearchStateView {
        SearchStateView {
            query: self.query@,
            applied: self.applied@,
            edited: self.edited,
            results: results_view(self.results),
            sorting: self.sorting,
            removed: self.removed@,
        }
    }
}

/// How long the query must stand still before it takes effect, in milliseconds.
pub const SEARCH_DEBOUNCE_MS: u64 = 180;

/// The state after some time without an edit.
pub open spec fn after_pause(s: SearchStateView, elapsed_ms: u64) -> SearchStateView {
    if s.edited && elapsed_ms >= SEARCH_DEBOUNCE_MS {
        SearchStateView { applied: s.query, edited: false, ..s }
    } else {
        s
    }
}

/// Whether the results are not those of the query, the index and the removed entries.
pub open spec fn outdated(s: SearchStateView, index_id: u64) -> bool {
    match s.results {
        Some(v) => v.for_query != s.applied || v.for_index != index_id || v.for_removed
            != s.removed.len(),
        None => true,
    }
}

/// The state with results that are up to date.
pub open spec fn refreshed(s: SearchStateView, v: IndexView, index_id: u64) -> SearchStateView {
    if outdated(s, index_id) {
        let base = kept(found(v, s.applied), s.removed);
        SearchStateView {
            results: Some(
                ResultsView {
                    for_query: s.applied,
                    for_index: index_id,
                    for_removed: s.removed.len(),
                    base,
                    order: base,
                    sorted_for: None,
                },
            ),
            sorting: None,
            ..s
        }
    } else {
        s
    }
}

/// Whether to start sorting: the results are not in the wanted order, and it is not being made.
pub open spec fn wants_sort(s: SearchStateView, sort: SortState) -> bool {
    s.results is Some && s.results->0.sorted_for != Some(sort) && s.sorting != Some(sort)
}

/// The state with an order that was made.
pub open spec fn with_order(s: SearchStateView, order: Seq<u32>) -> SearchStateView {
    SearchStateView {
        results: match (s.results, s.sorting) {
            (Some(v), Some(sort)) => Some(
                ResultsView { order, sorted_for: Some(sort), ..v },
            ),
            _ => s.results,
        },
        sorting: None,
        ..s
    }
}

fn copy_numbers(v: &Vec<u32>) -> (r: Vec<u32>)
    ensures
        r@ == v@,
{
    let mut r: Vec<u32> = Vec::new();
    let mut i: usize = 0;
    while i < v.len()
        invariant
            i <= v.len(),
            r@ == v@.take(i as int),
        decreases v.len() - i,
    {
        r.push(v[i]);
        i += 1;
        assert(v@.take(i as int) =~= v@.take(i - 1).push(v@[i - 1]));
    }
    assert(v@.take(i as int) =~= v@);
    r
}

fn without_removed(v: &Vec<u32>, removed: &HashSet<u32>) -> (r: Vec<u32>)
    ensures
        r@ == kept(v@, removed@),
{
    let mut r: Vec<u32> = Vec::new();
    let mut i: usize = 0;
    assert(r@ =~= kept(v@.take(0), removed@));
    while i < v.len()
        invariant
            i <= v.len(),
            r@ == kept(v@.take(i as int), removed@),
        decreases v.len() - i,
    {
        assert(v@.take(i + 1).drop_last() =~= v@.take(i as int));
        if !removed.contains(&v[i]) {
            r.push(v[i]);
        }
        i += 1;
    }
    assert(v@.take(i as int) =~= v@);
    r
}

fn search_index(index: &NameIndex, query: &str) -> (r: Vec<u32>)
    requires
        index.wf(),
    ensures
        r@ == found(index@, query@),
{
    if blank(query) {
        index.all_file_entries()
    } else {
        let m = Matcher::build_auto(query);
        m.find_in_index(index)
    }
}

impl ListSearch {
    /// An empty search box.
    pub fn new() -> (r: Self)
        ensures
            r@ == (SearchStateView {
                query: Seq::empty(),
                applied: Seq::empty(),
                edited: false,
                results: None,
                sorting: None,
                removed: Set::empty(),
            }),
    {
        let r = ListSearch {
            query: String::new(),
            applied: String::new(),
            edited: false,
            results: None,
            sorting: None,
            removed: HashSet::new(),
        };
        assert(r@.removed =~= Set::<u32>::empty());
        r
    }

    /// What stands in the search box.
    pub fn query(&self) -> (r: &str)
        ensures
            r@ == self@.query,
    {
        self.query.as_str()
    }

    /// The search box was edited.
    pub fn edit(&mut self, query: String)
        ensures
            final(self)@ == (SearchStateView { query: query@, edited: true, ..old(self)@ }),
    {
        self.query = query;
        self.edited = true;
    }

    /// Some time has passed since the last edit. Gives how long to wait until the query takes
    /// effect, where it has not.
    pub fn pause(&mut self, elapsed_ms: u64) -> (wait_ms: Option<u64>)
        ensures
            final(self)@ == after_pause(old(self)@, elapsed_ms),
            wait_ms == if old(self)@.edited && elapsed_ms < SEARCH_DEBOUNCE_MS {
                Some((SEARCH_DEBOUNCE_MS - elapsed_ms) as u64)
            } else {
                None
            },
    {
        if !self.edited {
            return None;
        }
        if elapsed_ms >= SEARCH_DEBOUNCE_MS {
            self.applied = owned(self.query.as_str());
            self.edited = false;
            None
        } else {
            Some(SEARCH_DEBOUNCE_MS - elapsed_ms)
        }
    }

    /// Brings the results up to date, where they are not. `index_id` tells one index from
    /// another.
    pub fn refresh(&mut self, index: &NameIndex, index_id: u64)
        requires
            index.wf(),
        ensures
            final(self)@ == refreshed(old(self)@, index@, index_id),
    {
        let n: usize = self.removed.len();
        let stale = match &self.results {
            Some(v) => !str_eq(v.for_query.as_str(), self.applied.as_str()) || v.for_index
                != index_id || v.for_removed != n,
            None => true,
        };
        if stale {
            let all = search_index(index, self.applied.as_str());
            let base = without_removed(&all, &self.removed);
            let order = copy_numbers(&base);
            self.results = Some(
                SearchView {
                    for_query: owned(self.applied.as_str()),
                    for_index: index_id,
                    for_removed: n,
                    base,
                    order,
                    sorted_for: None,
                },
            );
            self.sorting = None;
        }
    }

    /// Starts sorting, where the results are not in the wanted order: what is to be sorted.
    pub fn start_sort(&mut self, sort: SortState) -> (r: Option<Vec<u32>>)
        ensures
            match r {
                Some(v) => wants_sort(old(self)@, sort) && v@ == old(self)@.results->0.base,
                None => !wants_sort(old(self)@, sort),
            },
            final(self)@ == if wants_sort(old(self)@, sort) {
                SearchStateView { sorting: Some(sort), ..old(self)@ }
            } else {
                old(self)@
            },
    {
        let base = match &self.results {
            Some(v) => {
                if v.sorted_for == Some(sort) || self.sorting == Some(sort) {
                    return None;
                }
                copy_numbers(&v.base)
            },
            None => return None,
        };
        self.sorting = Some(sort);
        Some(base)
    }

    /// Takes an order that was made; nothing where the sorting came to nothing.
    pub fn end_sort(&mut self, order: Option<Vec<u32>>)
        ensures
            final(self)@ == match order {
                Some(o) => with_order(old(self)@, o@),
                None => SearchStateView { sorting: None, ..old(self)@ },
            },
    {
        let sorting = self.sorting;
        self.sorting = None;
        if let Some(o) = order {
            if let Some(sort) = sorting {
                let old_results = take_results(&mut self.results);
                if let Some(v) = old_results {
                    self.results = Some(
                        SearchView {
                            for_query: v.for_query,
                            for_index: v.for_index,
                            for_removed: v.for_removed,
                            base: v.base,
                            order: o,
                            sorted_for: Some(sort),
                        },
                    );
                }
            }
        }
    }

    /// Takes an entry out of the list, now and in all results to come.
    pub fn mark_search_row_removed(&mut self, entry: u32)
        ensures
            final(self)@ == (SearchStateView {
                removed: old(self)@.removed.insert(entry),
                results: None,
                ..old(self)@
            }),
    {
        self.removed.insert(entry);
        self.results = None;
    }

    /// How many rows there are.
    pub fn row_count(&self) -> (n: usize)
        ensures
            n == match self@.results {
                Some(v) => v.order.len(),
                None => 0,
            },
    {
        match &self.results {
            Some(v) => v.order.len(),
            None => 0,
        }
    }

    /// The entry of a row.
    pub fn row(&self, i: usize) -> (e: Option<u32>)
        ensures
            e == match self@.results {
                Some(v) => if i < v.order.len() {
                    Some(v.order[i as int])
                } else {
                    None
                },
                None => None,
            },
    {
        match &self.results {
            Some(v) => if i < v.order.len() {
                Some(v.order[i])
            } else {
                None
            },
            None => None,
        }
    }

    /// The first row of an entry, or of the entry that a path leads to: where to scroll to.
    pub fn find_row(&self, index: &NameIndex, entry: Option<u32>, target: &[usize]) -> (r: Option<
        usize,
    >)
        requires
            index.wf(),
        ensures
            match self@.results {
                Some(v) => first_row(r, v.order, index@, entry, target@),
                None => r is None,
            },
    {
        let v = match &self.results {
            Some(v) => v,
            None => return None,
        };
        let mut i: usize = 0;
        while i < v.order.len()
            invariant
                i <= v.order@.len(),
                index.wf(),
                self@.results is Some,
                self@.results->0.order == v.order@,
                forall|k: int|
                    0 <= k < i ==> !wanted_row(#[trigger] v.order@[k], index@, entry, target@),
            decreases v.order@.len() - i,
        {
            let e: u32 = v.order[i];
            let hit = match entry {
                Some(x) => e == x,
                None => (e as usize) < index.len() && index.abs_path_eq(e, target),
            };
            if hit {
                assert(wanted_row(v.order@[i as int], index@, entry, target@));
                return Some(i);
            }
            i += 1;
        }
        None
    }
}

fn take_results(r: &mut Option<SearchView>) -> (old_value: Option<SearchView>)
    ensures
        old_value == *old(r),
        *final(r) == None::<SearchView>,
{
    let mut none: Option<SearchView> = None;
    std::mem::swap(r, &mut none);
    none
}

/// Whether a row is the one that is looked for.
pub open spec fn wanted_row(
    e: u32,
    v: IndexView,
    entry: Option<u32>,
    target: Seq<usize>,
) -> bool {
    match entry {
        Some(x) => e == x,
        None => e < v.entries.len() && steps(entry_path(v.entries, e as int)) == target,
    }
}

/// `r` is the first row that is looked for.
pub open spec fn first_row(
    r: Option<usize>,
    order: Seq<u32>,
    v: IndexView,
    entry: Option<u32>,
    target: Seq<usize>,
) -> bool {
    match r {
        Some(i) => {
            &&& i < order.len()
            &&& wanted_row(order[i as int], v, entry, target)
            &&& forall|k: int| 0 <= k < i ==> !wanted_row(#[trigger] order[k], v, entry, target)
        },
        None => forall|k: int|
            0 <= k < order.len() ==> !wanted_row(#[trigger] order[k], v, entry, target),
    }
}

/// The entry that a click means: that of the row of a left click, or else of a right click.
pub open spec fn clicked_entry(
    v: IndexView,
    left: Option<u32>,
    right: Option<u32>,
) -> Option<u32> {
    match left {
        Some(e) if e < v.entries.len() => Some(e),
        _ => match right {
            Some(e) if e < v.entries.len() => Some(e),
            _ => None,
        },
    }
}

/// What the clicks of one frame ask for: a click selects what the row stands for. What was
/// chosen in a menu comes first.
pub fn search_click(
    index: &NameIndex,
    left: Option<u32>,
    right: Option<u32>,
    request: Option<TreeAction>,
) -> (r: TreeAction)
    requires
        index.wf(),
    ensures
        r@ == match request {
            Some(a) => a@,
            None => match clicked_entry(index@, left, right) {
                Some(e) => ActionView::Select(
                    steps(entry_path(index@.entries, e as int)),
                ),
                None => ActionView::Nothing,
            },
        },
{
    if let Some(a) = request {
        return a;
    }
    let n: usize = index.len();
    if let Some(e) = left {
        if (e as usize) < n {
            return TreeAction::Select(index.abs_path_of(e));
        }
    }
    if let Some(e) = right {
        if (e as usize) < n {
            return TreeAction::Select(index.abs_path_of(e));
        }
    }
    TreeAction::Nothing
}

/// Refreshing twice is the same as once.
pub proof fn law_refreshing_settles(s: SearchStateView, v: IndexView, index_id: u64)
    ensures
        refreshed(refreshed(s, v, index_id), v, index_id) == refreshed(s, v, index_id),
{
}

/// No entry that was removed is shown in fresh results, and every other one that was found is.
pub proof fn law_removed_entries_are_not_shown(
    s: SearchStateView,
    v: IndexView,
    index_id: u64,
    e: u32,
)
    requires
        outdated(s, index_id),
    ensures
        refreshed(s, v, index_id).results->0.order.contains(e) <==> !s.removed.contains(e)
            && found(v, s.applied).contains(e),
{
    lemma_kept(found(v, s.applied), s.removed, e);
}

proof fn lemma_kept(s: Seq<u32>, removed: Set<u32>, e: u32)
    ensures
        kept(s, removed).contains(e) <==> !removed.contains(e) && s.contains(e),
    decreases s.len(),
{
    if s.len() > 0 {
        lemma_kept(s.drop_last(), removed, e);
        let rest = kept(s.drop_last(), removed);
        let all = kept(s, removed);
        assert(s.contains(e) <==> s.drop_last().contains(e) || s.last() == e) by {
            if s.contains(e) {
                let k = choose|k: int| 0 <= k < s.len() && s[k] == e;
                if k < s.len() - 1 {
                    assert(s.drop_last()[k] == e);
                }
            }
            if s.drop_last().contains(e) {
                let k = choose|k: int| 0 <= k < s.drop_last().len() && s.drop_last()[k] == e;
                assert(s[k] == e);
            }
            if s.last() == e {
                assert(s[s.len() - 1] == e);
            }
        }
        if !removed.contains(s.last()) {
            assert(all.contains(e) <==> rest.contains(e) || s.last() == e) by {
                if all.contains(e) {
                    let k = choose|k: int| 0 <= k < all.len() && all[k] == e;
                    if k < rest.len() {
                        assert(rest[k] == e);
                    }
                }
                if rest.contains(e) {
                    let k = choose|k: int| 0 <= k < rest.len() && rest[k] == e;
                    assert(all[k] == e);
                }
                if s.last() == e {
                    assert(all[rest.len() as int] == e);
                }
            }
        }
    }
}

} // verus!
