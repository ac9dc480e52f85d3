//! How groups of equal files are shown and linked, and in which order drives are scanned.

use vstd::prelude::*;

use crate::dedup::{
    all_jobs, duplicates_of, files_in, group_jobs, groups_of_size, header_groups, header_keys,
    headers_of, pair_before, ClusterView, DuplicateView,
};
use crate::dedup_laws::lemma_shared_one;
use crate::dup_tree::{
    duplicate_folder, duplicate_title, duplicate_tree, duplicates_fit, law_most_wasteful_first,
    waste_order, wasted,
};
use crate::file_groups::picked;
use crate::grouping::{groups, in_group, is_connected, law_groups_go_by_key};
use crate::model::NodeView;
use crate::model_laws::law_folder_is_made_of_its_children;
use crate::session::{node_removed, SessionView};
use crate::session_jobs::{
    alphanumeric, group_step, letter_less, link_ended, safe_name, scan_paths, single_linked,
    successes, GroupStepView, LinkOutcome, LinkRequest,
};
use crate::sorting::{is_order, law_sort_permutes, law_sort_sorts, stable_sort};
use crate::theme::GROUP_COLOR;

verus! {

/// A group of equal files wastes the space of all its files but one.
pub proof fn law_one_file_of_a_group_is_kept(d: DuplicateView)
    ensures
        wasted(d) + d.size == d.size * d.file_indices.len(),
        d.file_indices.len() == 1 ==> wasted(d) == 0,
{
    let n = d.file_indices.len() as int;
    let s = d.size as int;
    assert(s * (n - 1) + s == s * n) by (nonlinear_arith);
    if n == 1 {
        assert(s * 0 == 0) by (nonlinear_arith);
    }
}

/// Every group of equal files has a folder among the duplicates that holds just its files.
pub proof fn law_group_has_a_folder(files: Seq<NodeView>, gs: Seq<DuplicateView>, g: int)
    requires
        gs.len() <= usize::MAX,
        0 <= g < gs.len(),
        duplicates_fit(files, gs),
    ensures
        duplicate_tree(files, gs).children.len() == gs.len(),
        exists|k: int|
            0 <= k < gs.len() && (#[trigger] duplicate_tree(files, gs).children[k]).is_folder()
                && duplicate_tree(files, gs).children[k].children.to_multiset() == picked(
                files,
                gs[g].file_indices,
            ).to_multiset() && duplicate_tree(files, gs).children[k].name == duplicate_title(gs[g]),
{
    law_most_wasteful_first(files, gs, g, g);
    let k = choose|k: int| 0 <= k < waste_order(gs).len() && #[trigger] waste_order(gs)[k] == g;
    let d = gs[g];
    assert(wasted(gs[g]) <= u64::MAX);
    law_folder_is_made_of_its_children(
        duplicate_title(d),
        GROUP_COLOR,
        picked(files, d.file_indices),
        0,
        0,
        0,
        0x10,
        0,
        false,
        Seq::empty(),
    );
    assert(duplicate_tree(files, gs).children[k] == duplicate_folder(files, d));
}

proof fn lemma_successes(rest: Seq<bool>, k: int)
    requires
        0 <= k <= rest.len(),
    ensures
        successes(rest, k) == rest.take(k).filter(|b: bool| b).len(),
    decreases k,
{
    reveal(Seq::filter);
    if k > 0 {
        lemma_successes(rest, k - 1);
        assert(rest.take(k).drop_last() =~= rest.take(k - 1));
        assert(rest.take(k).last() == rest[k - 1]);
    } else {
        assert(rest.take(0) =~= Seq::<bool>::empty());
    }
}

/// The files of a group are linked in their order: the first is migrated, each of the others is
/// replaced by a link to where the first one went, one after the other and whatever came of
/// those before it. At the end it is told how many of all are now the one file. Where the first
/// one could not be migrated nothing is replaced.
pub proof fn law_group_is_linked_in_order(
    members: Seq<Seq<char>>,
    first: Option<Result<Seq<char>, Seq<char>>>,
    rest: Seq<bool>,
)
    requires
        members.len() > 0,
        rest.len() < members.len(),
    ensures
        first is None ==> group_step(members, first, rest) == GroupStepView::Migrate(members[0]),
        first is Some && first->0 is Err ==> group_step(members, first, rest)
            == GroupStepView::Fail(first->0->Err_0),
        first is Some && first->0 is Ok && rest.len() < members.len() - 1 ==> group_step(
            members,
            first,
            rest,
        ) == (GroupStepView::Replace {
            path: members.skip(1)[rest.len() as int],
            target: first->0->Ok_0,
        }),
        first is Some && first->0 is Ok && rest.len() == members.len() - 1 ==> group_step(
            members,
            first,
            rest,
        ) == (GroupStepView::Done {
            target: first->0->Ok_0,
            member_count: 1 + rest.filter(|b: bool| b).len(),
            total_count: members.len(),
        }),
{
    lemma_successes(rest, rest.len() as int);
    assert(rest.take(rest.len() as int) =~= rest);
}

/// Linking that failed leaves all lists as they were; linking one file changes them as a link in
/// its place does; and a group that was linked leaves its list.
pub proof fn law_linking_ends_in_the_lists(
    s: SessionView,
    request: LinkRequest,
    outcome: Result<LinkOutcome, String>,
    size: u64,
)
    ensures
        outcome is Err ==> link_ended(s, request, outcome, size).tabs == s.tabs,
        outcome is Ok && outcome->Ok_0 is Single ==> link_ended(s, request, outcome, size).tabs
            == single_linked(s, request, size).tabs,
        outcome is Ok && outcome->Ok_0 is Group ==> link_ended(s, request, outcome, size).tabs
            == node_removed(s, request.source, request.abs_path@, None).tabs,
        link_ended(s, request, outcome, size).status is Some,
        link_ended(s, request, outcome, size).status->0.is_error <==> outcome is Err,
        link_ended(s, request, outcome, size).root_paths == s.root_paths,
{
}

/// The drives are scanned before the folders and in the order of their letters, every one of
/// them, and the folders in the order in which they were chosen.
pub proof fn law_drives_are_scanned_first(drives: Seq<char>, folders: Seq<Seq<char>>, c: char)
    ensures
        ({
            let p = scan_paths(drives, folders);
            let n = drives.len() as int;
            &&& p.len() == n + folders.len()
            &&& p.skip(n) == folders
            &&& forall|i: int|
                0 <= i < n ==> (#[trigger] p[i]).len() == 3 && p[i][1] == ':' && p[i][2] == '\\'
            &&& forall|i: int, j: int|
                0 <= i < j < n ==> (#[trigger] p[i])[0] <= (#[trigger] p[j])[0]
            &&& drives.contains(c) <==> exists|i: int| 0 <= i < n && (#[trigger] p[i])[0] == c
        }),
{
    broadcast use vstd::seq_lib::group_to_multiset_ensures;

    reveal_strlit(":\\");
    let lt = letter_less();
    assert(is_order(lt));
    law_sort_permutes(drives, lt);
    law_sort_sorts(drives, lt);
    let sorted = stable_sort(drives, lt);
    let p = scan_paths(drives, folders);
    let n = drives.len() as int;
    assert(p.skip(n) =~= folders);
    assert forall|i: int| 0 <= i < n implies (#[trigger] p[i]).len() == 3 && p[i][1] == ':'
        && p[i][2] == '\\' && p[i][0] == sorted[i] by {}
    assert forall|i: int, j: int| 0 <= i < j < n implies (#[trigger] p[i])[0] <= (
    #[trigger] p[j])[0] by {
        assert(!lt(sorted[j], sorted[i]));
        assert(p[i][0] == sorted[i] && p[j][0] == sorted[j]);
    }
    if drives.contains(c) {
        assert(drives.to_multiset().contains(c));
        assert(sorted.to_multiset().contains(c));
        assert(sorted.contains(c));
        let i = choose|i: int| 0 <= i < sorted.len() && sorted[i] == c;
        assert(p[i][0] == c);
    }
    if exists|i: int| 0 <= i < n && (#[trigger] p[i])[0] == c {
        let i = choose|i: int| 0 <= i < n && (#[trigger] p[i])[0] == c;
        assert(sorted[i] == c);
        assert(sorted.contains(c));
        assert(sorted.to_multiset().contains(c));
        assert(drives.to_multiset().contains(c));
    }
}

/// A name for a file keeps its letters and numbers where they stand, and has an underscore for
/// everything else.
pub proof fn law_safe_name_keeps_letters(name: Seq<char>, i: int)
    requires
        0 <= i < name.len(),
    ensures
        safe_name(name).len() == name.len(),
        alphanumeric(name[i]) ==> safe_name(name)[i] == name[i],
        !alphanumeric(name[i]) ==> safe_name(name)[i] == '_',
{
}

/// Every file that shares its size with another is read, with that size, and no other file is.
pub proof fn law_every_candidate_is_read(gs: Seq<(u64, Seq<usize>)>, i: usize, size: u64)
    ensures
        all_jobs(gs).contains((i, size)) <==> exists|g: int|
            0 <= g < gs.len() && (#[trigger] gs[g]).0 == size && gs[g].1.contains(i),
        all_jobs(gs).len() == files_in(gs),
    decreases gs.len(),
{
    if gs.len() > 0 {
        let front = gs.drop_last();
        let last = gs.last();
        law_every_candidate_is_read(front, i, size);
        let jobs = all_jobs(gs);
        let before = all_jobs(front);
        let own = group_jobs(last);
        if jobs.contains((i, size)) {
            let k = choose|k: int| 0 <= k < jobs.len() && jobs[k] == (i, size);
            if k < before.len() {
                assert(before[k] == (i, size));
                assert(before.contains((i, size)));
                let g = choose|g: int|
                    0 <= g < front.len() && (#[trigger] front[g]).0 == size && front[g].1.contains(
                        i,
                    );
                assert(gs[g] == front[g]);
            } else {
                assert(own[k - before.len()] == (i, size));
                assert(last.1[k - before.len()] == i);
                assert(gs[gs.len() - 1].0 == size && gs[gs.len() - 1].1.contains(i));
            }
        }
        if exists|g: int|
            0 <= g < gs.len() && (#[trigger] gs[g]).0 == size && gs[g].1.contains(i) {
            let g = choose|g: int|
                0 <= g < gs.len() && (#[trigger] gs[g]).0 == size && gs[g].1.contains(i);
            if g < front.len() {
                assert(front[g] == gs[g]);
                assert(before.contains((i, size)));
                let k = choose|k: int| 0 <= k < before.len() && before[k] == (i, size);
                assert(jobs[k] == (i, size));
            } else {
                let k = choose|k: int| 0 <= k < last.1.len() && last.1[k] == i;
                assert(own[k] == (i, size));
                assert(jobs[before.len() + k] == (i, size));
            }
        }
    }
}

proof fn lemma_header(jobs: Seq<(usize, u64)>, hashes: Seq<Option<u64>>, k: int)
    requires
        0 <= k < headers_of(jobs, hashes).len(),
    ensures
        exists|j: int|
            0 <= j < jobs.len() && j < hashes.len() && (#[trigger] jobs[j]) == (
                headers_of(jobs, hashes)[k].0,
                headers_of(jobs, hashes)[k].1,
            ) && hashes[j] == Some(headers_of(jobs, hashes)[k].2),
    decreases jobs.len(),
{
    let front = jobs.drop_last();
    let rest = headers_of(front, hashes);
    if k < rest.len() {
        lemma_header(front, hashes, k);
        let j = choose|j: int|
            0 <= j < front.len() && j < hashes.len() && (#[trigger] front[j]) == (
                rest[k].0,
                rest[k].1,
            ) && hashes[j] == Some(rest[k].2);
        assert(jobs[j] == front[j]);
    } else {
        let j = jobs.len() - 1;
        assert(jobs[j] == (headers_of(jobs, hashes)[k].0, headers_of(jobs, hashes)[k].1));
    }
}

/// The files that are looked at closely together are files that were asked about, of the size
/// that is noted for them, and two or more.
pub proof fn law_group_has_the_size_of_its_files(
    jobs: Seq<(usize, u64)>,
    hashes: Seq<Option<u64>>,
    g: int,
    x: int,
)
    requires
        jobs.len() <= usize::MAX,
        0 <= g < header_groups(headers_of(jobs, hashes)).len(),
        0 <= x < header_groups(headers_of(jobs, hashes))[g].1.len(),
    ensures
        jobs.contains(
            (
                header_groups(headers_of(jobs, hashes))[g].1[x],
                header_groups(headers_of(jobs, hashes))[g].0,
            ),
        ),
        header_groups(headers_of(jobs, hashes))[g].1.len() >= 2,
{
    let hs = headers_of(jobs, hashes);
    let keys = header_keys(hs);
    let lt = |a: (u64, u64), b: (u64, u64)| pair_before(a, b);
    lemma_fewer_headers(jobs, hashes);
    assert(is_order(lt));
    assert(is_connected(lt));
    law_groups_go_by_key(keys, lt);
    let gs = groups(keys, lt);
    let p = lemma_shared_one(gs, g);
    let members = gs[p];
    assert(in_group(gs, p, members[x]));
    assert(in_group(gs, p, members[0]));
    assert(keys[members[x] as int] == keys[members[0] as int]);
    lemma_header(jobs, hashes, members[x] as int);
}

proof fn lemma_fewer_headers(jobs: Seq<(usize, u64)>, hashes: Seq<Option<u64>>)
    ensures
        headers_of(jobs, hashes).len() <= jobs.len(),
    decreases jobs.len(),
{
    if jobs.len() > 0 {
        lemma_fewer_headers(jobs.drop_last(), hashes);
    }
}

/// Every group that is reported is one of the clusters that were found among the files of one
/// size, with two files or more, under that size and with the fingerprint of the cluster.
pub proof fn law_reported_groups_are_clusters(
    gs: Seq<(u64, Seq<usize>)>,
    answers: Seq<Seq<ClusterView>>,
    r: int,
)
    requires
        answers.len() >= gs.len(),
        0 <= r < duplicates_of(gs, answers).len(),
    ensures
        duplicates_of(gs, answers)[r].file_indices.len() >= 2,
        exists|k: int, c: int|
            0 <= k < gs.len() && 0 <= c < answers[k].len() && duplicates_of(gs, answers)[r].size
                == gs[k].0 && duplicates_of(gs, answers)[r].file_indices == (
            #[trigger] answers[k][c]).0 && duplicates_of(gs, answers)[r].hash_hex
                == answers[k][c].1,
    decreases gs.len(),
{
    let k = gs.len() - 1;
    let front = duplicates_of(gs.drop_last(), answers);
    if r < front.len() {
        let g = gs.drop_last();
        law_reported_groups_are_clusters(g, answers, r);
        let (j, c) = choose|j: int, c: int|
            0 <= j < g.len() && 0 <= c < answers[j].len() && front[r].size == g[j].0
                && front[r].file_indices == (#[trigger] answers[j][c]).0 && front[r].hash_hex
                == answers[j][c].1;
        assert(gs[j] == g[j]);
        assert(duplicates_of(gs, answers)[r].file_indices == answers[j][c].0);
    } else {
        let c = lemma_cluster(gs[k].0, answers[k], r - front.len());
        assert(duplicates_of(gs, answers)[r].file_indices == answers[k][c].0);
    }
}

proof fn lemma_cluster(size: u64, cs: Seq<ClusterView>, r: int) -> (c: int)
    requires
        0 <= r < groups_of_size(size, cs).len(),
    ensures
        0 <= c < cs.len(),
        groups_of_size(size, cs)[r].size == size,
        groups_of_size(size, cs)[r].file_indices == cs[c].0,
        groups_of_size(size, cs)[r].hash_hex == cs[c].1,
        cs[c].0.len() >= 2,
    decreases cs.len(),
{
    let rest = groups_of_size(size, cs.drop_last());
    if r < rest.len() {
        lemma_cluster(size, cs.drop_last(), r)
    } else {
        cs.len() - 1
    }
}

} // verus!
