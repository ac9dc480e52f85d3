//! That a search finds all that matches, in every list, and goes from match to match.

use vstd::prelude::*;

use crate::find::{
    file_matches, group_matches, law_every_match_is_found, leads_to_match, matches_from,
    matches_upto, next_cursor, own_match, prev_cursor, view_matches, what_is_due, DueView, FindView,
};
use crate::index_model::{file_numbers, EntryView};
use crate::list_search::{after_pause, SearchStateView};
use crate::model::NodeView;
use crate::tree_list::all_children_fit;

verus! {

/// Going on from a match leads to the one behind it, and from the last to the first; going back
/// leads to the one before it, and from the first to the last.
pub proof fn law_matches_follow_one_another(i: nat, n: nat)
    requires
        i < n,
    ensures
        i + 1 < n ==> next_cursor(i, n) == i + 1,
        i + 1 == n ==> next_cursor(i, n) == 0,
        i > 0 ==> prev_cursor(i, n) == i - 1,
        i == 0 ==> prev_cursor(i, n) == n - 1,
{
    if i + 1 < n {
        vstd::arithmetic::div_mod::lemma_small_mod(i + 1, n);
    } else {
        vstd::arithmetic::div_mod::lemma_mod_self_0(n as int);
    }
    crate::find::lemma_cursors(i, n);
}

/// What is found in the list of partitions is what matches below any of them, and nothing else.
pub proof fn law_matches_of_all_partitions_are_found(
    partitions: Seq<NodeView>,
    k: int,
    m: spec_fn(Seq<char>) -> bool,
    p: Seq<usize>,
)
    requires
        0 <= k <= partitions.len() <= usize::MAX,
        forall|i: int| 0 <= i < partitions.len() ==> all_children_fit(#[trigger] partitions[i]),
    ensures
        matches_upto(partitions, k, m).contains(p) <==> p.len() > 1 && p[0] < k && leads_to_match(
            partitions[p[0] as int],
            seq![p[0]],
            p,
            m,
        ),
    decreases k,
{
    if k > 0 {
        law_matches_of_all_partitions_are_found(partitions, k - 1, m, p);
        let pi = (k - 1) as usize;
        law_every_match_is_found(partitions[k - 1], pi, m, p);
        let before = matches_upto(partitions, k - 1, m);
        let own = matches_from(partitions[k - 1], 0, seq![pi], m);
        let all = matches_upto(partitions, k, m);
        if all.contains(p) {
            let j = choose|j: int| 0 <= j < all.len() && all[j] == p;
            if j < before.len() {
                assert(before[j] == p);
                assert(before.contains(p));
            } else {
                assert(own[j - before.len()] == p);
                assert(own.contains(p));
                assert(p.take(1)[0] == p[0]);
                assert(seq![pi][0] == pi);
            }
        }
        if p.len() > 1 && p[0] < k && leads_to_match(partitions[p[0] as int], seq![p[0]], p, m) {
            if p[0] == pi {
                assert(own.contains(p));
                let j = choose|j: int| 0 <= j < own.len() && own[j] == p;
                assert(all[before.len() + j] == p);
            } else {
                assert(before.contains(p));
                let j = choose|j: int| 0 <= j < before.len() && before[j] == p;
                assert(all[j] == p);
            }
        }
    }
}

proof fn lemma_file_matches(
    g: NodeView,
    gi: int,
    k: int,
    m: spec_fn(Seq<char>) -> bool,
    p: Seq<usize>,
)
    requires
        0 <= k <= g.children.len() <= usize::MAX,
    ensures
        file_matches(g, gi, k, m).contains(p) <==> p.len() == 3 && p[0] == 0 && p[1] == gi as usize
            && p[2] < k && m(g.children[p[2] as int].name),
    decreases k,
{
    if k > 0 {
        lemma_file_matches(g, gi, k - 1, m, p);
        let before = file_matches(g, gi, k - 1, m);
        let at = seq![0usize, gi as usize, (k - 1) as usize];
        let own = own_match(g.children[k - 1], at, m);
        let all = file_matches(g, gi, k, m);
        if all.contains(p) {
            let j = choose|j: int| 0 <= j < all.len() && all[j] == p;
            if j < before.len() {
                assert(before[j] == p);
                assert(before.contains(p));
            } else {
                assert(own[j - before.len()] == p);
                assert(p == at);
            }
        }
        if before.contains(p) {
            let j = choose|j: int| 0 <= j < before.len() && before[j] == p;
            assert(all[j] == p);
        }
        if p.len() == 3 && p[0] == 0 && p[1] == gi as usize && p[2] == k - 1 && m(
            g.children[k - 1].name,
        ) {
            assert(p =~= at);
            assert(own[0] == p);
            assert(all[before.len() as int] == p);
        }
    }
}

/// What is found in a list of groups is every group and every file in a group whose name matches,
/// and nothing else.
pub proof fn law_matches_of_all_groups_are_found(
    root: NodeView,
    k: int,
    m: spec_fn(Seq<char>) -> bool,
    p: Seq<usize>,
)
    requires
        0 <= k <= root.children.len(),
        all_children_fit(root),
    ensures
        view_matches(root, k, m).contains(p) <==> p.len() >= 2 && p[0] == 0 && p[1] < k && (p.len()
            == 2 && m(root.children[p[1] as int].name) || p.len() == 3 && p[2]
            < root.children[p[1] as int].children.len() && m(
            root.children[p[1] as int].children[p[2] as int].name,
        )),
    decreases k,
{
    if k > 0 {
        law_matches_of_all_groups_are_found(root, k - 1, m, p);
        let gi = k - 1;
        let g = root.children[gi];
        assert(all_children_fit(g));
        lemma_file_matches(g, gi, g.children.len() as int, m, p);
        let before = view_matches(root, k - 1, m);
        let at = seq![0usize, gi as usize];
        let name = own_match(g, at, m);
        let files = file_matches(g, gi, g.children.len() as int, m);
        let own = group_matches(root, gi, m);
        let all = view_matches(root, k, m);
        if all.contains(p) {
            let j = choose|j: int| 0 <= j < all.len() && all[j] == p;
            if j < before.len() {
                assert(before[j] == p);
                assert(before.contains(p));
            } else if j - before.len() < name.len() {
                assert(own[j - before.len()] == p);
                assert(name[j - before.len()] == p);
                assert(p == at);
            } else {
                assert(own[j - before.len()] == p);
                assert(files[j - before.len() - name.len()] == p);
                assert(files.contains(p));
            }
        }
        if before.contains(p) {
            let j = choose|j: int| 0 <= j < before.len() && before[j] == p;
            assert(all[j] == p);
        }
        if p.len() == 2 && p[0] == 0 && p[1] == gi && m(g.name) {
            assert(p =~= at);
            assert(name[0] == p);
            assert(own[0] == p);
            assert(all[before.len() as int] == p);
        }
        if files.contains(p) {
            let j = choose|j: int| 0 <= j < files.len() && files[j] == p;
            assert(own[name.len() + j] == p);
            assert(all[before.len() + name.len() + j] == p);
        }
    }
}

/// A query takes effect once it has stood still for 180 milliseconds, and not before.
pub proof fn law_query_takes_effect_after_a_pause(s: SearchStateView, elapsed_ms: u64)
    ensures
        s.edited && elapsed_ms >= 180 ==> after_pause(s, elapsed_ms).applied == s.query
            && !after_pause(s, elapsed_ms).edited,
        !s.edited || elapsed_ms < 180 ==> after_pause(s, elapsed_ms) == s,
        after_pause(s, elapsed_ms).query == s.query,
        after_pause(s, elapsed_ms).results == s.results,
        after_pause(s, elapsed_ms).removed == s.removed,
{
}

/// The box waits for a pause of 180 milliseconds, and searches just where the query or the tab is
/// not the one that was searched for.
pub proof fn law_box_searches_after_a_pause(v: FindView, elapsed_ms: u64, tab: usize)
    ensures
        v.edited && elapsed_ms < 180 ==> what_is_due(v, elapsed_ms, tab) == DueView::Wait(
            (180 - elapsed_ms) as u64,
        ),
        !v.edited || elapsed_ms >= 180 ==> !(what_is_due(v, elapsed_ms, tab) is Wait),
        (!v.edited || elapsed_ms >= 180) && v.computed_for is None ==> what_is_due(
            v,
            elapsed_ms,
            tab,
        ) is Search,
        (!v.edited || elapsed_ms >= 180) && v.computed_for is Some && (v.computed_for->0).1 != tab
            ==> what_is_due(v, elapsed_ms, tab) is Search,
{
}

/// The files of an index are all its entries that are files, in the order of the index.
pub proof fn law_all_files_are_listed(entries: Seq<EntryView>, k: int, e: u32)
    requires
        0 <= k <= entries.len() <= u32::MAX,
    ensures
        file_numbers(entries, k).contains(e) <==> e < k && entries[e as int].is_file,
        forall|i: int, j: int|
            0 <= i < j < file_numbers(entries, k).len() ==> #[trigger] file_numbers(entries, k)[i]
                < #[trigger] file_numbers(entries, k)[j],
        forall|i: int|
            0 <= i < file_numbers(entries, k).len() ==> #[trigger] file_numbers(entries, k)[i] < k,
    decreases k,
{
    if k > 0 {
        law_all_files_are_listed(entries, k - 1, e);
        let before = file_numbers(entries, k - 1);
        let all = file_numbers(entries, k);
        if all.contains(e) {
            let j = choose|j: int| 0 <= j < all.len() && all[j] == e;
            if j < before.len() {
                assert(before[j] == e);
                assert(before.contains(e));
            }
        }
        if before.contains(e) {
            let j = choose|j: int| 0 <= j < before.len() && before[j] == e;
            assert(all[j] == e);
        }
        if e == k - 1 && entries[k - 1].is_file {
            assert(all[before.len() as int] == e);
        }
        assert forall|i: int| 0 <= i < all.len() implies #[trigger] all[i] < k by {
            if i < before.len() {
                assert(all[i] == before[i]);
            }
        }
        assert forall|i: int, j: int| 0 <= i < j < all.len() implies #[trigger] all[i]
            < #[trigger] all[j] by {
            assert(all[i] == before[i]);
            if j < before.len() {
                assert(all[j] == before[j]);
            }
        }
    }
}

} // verus!
