//! That a search for duplicates finds just the files with the same content.

use vstd::prelude::*;

use crate::dedup::{
    duplicates_of, groups_of_size, hash_clusters, hash_keys, header_groups, header_keys,
    headers_of, lemma_lex_order, pair_before, verified, ClusterView, DuplicateView,
};
use crate::file_groups::shared;
use crate::grouping::{groups, in_group, is_connected, is_grouped, law_groups_go_by_key};
use crate::sorting::is_order;
use crate::text::lex_less;

verus! {

/// Lists of files that are the classes of those with the same key: a list holds two files or
/// more, all from among the given ones and with one key; two files with the same key are in a
/// list together; and no file is in two lists.
pub open spec fn are_classes<V>(
    files: Seq<usize>,
    key: spec_fn(usize) -> V,
    lists: Seq<Seq<usize>>,
) -> bool {
    &&& forall|g: int| 0 <= g < lists.len() ==> (#[trigger] lists[g]).len() >= 2
    &&& forall|g: int, f: usize| #[trigger]
        in_group(lists, g, f) ==> files.contains(f) && key(f) == key(lists[g][0])
    &&& forall|f: usize, h: usize| #[trigger]
        files.contains(f) && #[trigger] files.contains(h) && f != h && key(f) == key(h)
            ==> are_together(lists, f, h)
    &&& forall|g: int, h: int, f: usize| #[trigger]
        in_group(lists, g, f) && #[trigger] in_group(lists, h, f) ==> g == h
}

/// Two files are in a list together.
pub open spec fn are_together(lists: Seq<Seq<usize>>, f: usize, h: usize) -> bool {
    exists|g: int| #[trigger] in_group(lists, g, f) && in_group(lists, g, h)
}

/// No file is listed twice.
pub open spec fn all_distinct(files: Seq<usize>) -> bool {
    forall|i: int, j: int|
        0 <= i < j < files.len() ==> #[trigger] files[i] != #[trigger] files[j]
}

proof fn lemma_shared_pair(ls: Seq<Seq<usize>>, k: int, l: int) -> (r: (int, int))
    requires
        0 <= k < l < shared(ls).len(),
    ensures
        0 <= r.0 < r.1 < ls.len(),
        shared(ls)[k] == ls[r.0],
        shared(ls)[l] == ls[r.1],
    decreases ls.len(),
{
    let rest = shared(ls.drop_last());
    if ls.last().len() >= 2 && l == rest.len() {
        (lemma_shared_one(ls.drop_last(), k), ls.len() - 1)
    } else {
        lemma_shared_pair(ls.drop_last(), k, l)
    }
}

pub proof fn lemma_shared_one(ls: Seq<Seq<usize>>, k: int) -> (p: int)
    requires
        0 <= k < shared(ls).len(),
    ensures
        0 <= p < ls.len(),
        shared(ls)[k] == ls[p],
        ls[p].len() >= 2,
    decreases ls.len(),
{
    let rest = shared(ls.drop_last());
    if ls.last().len() >= 2 && k == rest.len() {
        ls.len() - 1
    } else {
        lemma_shared_one(ls.drop_last(), k)
    }
}

proof fn lemma_shared_reached(ls: Seq<Seq<usize>>, p: int) -> (k: int)
    requires
        0 <= p < ls.len(),
        ls[p].len() >= 2,
    ensures
        0 <= k < shared(ls).len(),
        shared(ls)[k] == ls[p],
    decreases ls.len(),
{
    if p == ls.len() - 1 {
        shared(ls).len() - 1
    } else {
        lemma_shared_reached(ls.drop_last(), p)
    }
}

/// Grouping files by their key gives the classes.
pub proof fn lemma_groups_are_classes<V>(
    files: Seq<usize>,
    keys: Seq<V>,
    lt: spec_fn(V, V) -> bool,
    key: spec_fn(usize) -> V,
    lists: Seq<Seq<usize>>,
)
    requires
        files.len() == keys.len(),
        files.len() <= usize::MAX,
        all_distinct(files),
        is_order(lt),
        is_connected(lt),
        forall|p: int| 0 <= p < files.len() ==> keys[p] == key(#[trigger] files[p]),
        lists.len() == shared(groups(keys, lt)).len(),
        forall|g: int|
            0 <= g < lists.len() ==> (#[trigger] lists[g]).len() == shared(
                groups(keys, lt),
            )[g].len(),
        forall|g: int, x: int|
            0 <= g < lists.len() && 0 <= x < lists[g].len() ==> #[trigger] lists[g][x]
                == files[shared(groups(keys, lt))[g][x] as int],
    ensures
        are_classes(files, key, lists),
{
    let gs = groups(keys, lt);
    let sh = shared(gs);
    law_groups_go_by_key(keys, lt);
    assert forall|g: int| 0 <= g < lists.len() implies (#[trigger] lists[g]).len() >= 2 by {
        let p = lemma_shared_one(gs, g);
    }
    assert forall|g: int, f: usize| #[trigger] in_group(lists, g, f) implies files.contains(f)
        && key(f) == key(lists[g][0]) by {
        let x = choose|x: int| 0 <= x < lists[g].len() && lists[g][x] == f;
        let p = lemma_shared_one(gs, g);
        let i = gs[p][x];
        assert(in_group(gs, p, i));
        assert(in_group(gs, p, gs[p][0]));
        assert(files[i as int] == f);
        assert(keys[gs[p][x] as int] == keys[gs[p][0] as int]);
        assert(lists[g][0] == files[gs[p][0] as int]);
        assert(keys[i as int] == key(files[i as int]));
        assert(keys[gs[p][0] as int] == key(files[gs[p][0] as int]));
    }
    assert forall|f: usize, h: usize| #[trigger]
        files.contains(f) && #[trigger] files.contains(h) && f != h && key(f) == key(h) implies
        are_together(lists, f, h) by {
        let i = choose|i: int| 0 <= i < files.len() && files[i] == f;
        let j = choose|j: int| 0 <= j < files.len() && files[j] == h;
        let (iu, ju) = (i as usize, j as usize);
        assert(is_grouped(gs, iu));
        assert(is_grouped(gs, ju));
        let p = choose|p: int| in_group(gs, p, iu);
        let q = choose|q: int| in_group(gs, q, ju);
        assert(keys[i] == key(files[i]) && keys[j] == key(files[j]));
        assert(p == q);
        let a = choose|a: int| 0 <= a < gs[p].len() && gs[p][a] == iu;
        let b = choose|b: int| 0 <= b < gs[p].len() && gs[p][b] == ju;
        assert(a != b);
        let g = lemma_shared_reached(gs, p);
        assert(lists[g][a] == f);
        assert(lists[g][b] == h);
        assert(in_group(lists, g, f));
        assert(in_group(lists, g, h));
    }
    assert forall|g: int, h: int, f: usize| #[trigger]
        in_group(lists, g, f) && #[trigger] in_group(lists, h, f) implies g == h by {
        if g < h {
            lemma_lists_apart(files, keys, lt, lists, g, h, f);
        } else if h < g {
            lemma_lists_apart(files, keys, lt, lists, h, g, f);
        }
    }
}

proof fn lemma_lists_apart<V>(
    files: Seq<usize>,
    keys: Seq<V>,
    lt: spec_fn(V, V) -> bool,
    lists: Seq<Seq<usize>>,
    g: int,
    h: int,
    f: usize,
)
    requires
        files.len() == keys.len(),
        files.len() <= usize::MAX,
        all_distinct(files),
        is_order(lt),
        is_connected(lt),
        lists.len() == shared(groups(keys, lt)).len(),
        forall|g: int|
            0 <= g < lists.len() ==> (#[trigger] lists[g]).len() == shared(
                groups(keys, lt),
            )[g].len(),
        forall|g: int, x: int|
            0 <= g < lists.len() && 0 <= x < lists[g].len() ==> #[trigger] lists[g][x]
                == files[shared(groups(keys, lt))[g][x] as int],
        0 <= g < h < lists.len(),
        in_group(lists, g, f),
    ensures
        !in_group(lists, h, f),
{
    if in_group(lists, h, f) {
        let gs = groups(keys, lt);
        law_groups_go_by_key(keys, lt);
        let (p, q) = lemma_shared_pair(gs, g, h);
        let x = choose|x: int| 0 <= x < lists[g].len() && lists[g][x] == f;
        let y = choose|y: int| 0 <= y < lists[h].len() && lists[h][y] == f;
        let i = gs[p][x];
        let j = gs[q][y];
        assert(in_group(gs, p, i));
        assert(in_group(gs, q, j));
        assert(files[i as int] == f && files[j as int] == f);
        assert(i == j) by {
            if i < j {
                assert(files[i as int] != files[j as int]);
            } else if j < i {
                assert(files[j as int] != files[i as int]);
            }
        }
    }
}

/// The files of some groups, group by group.
pub open spec fn group_lists(gs: Seq<(u64, Seq<usize>)>) -> Seq<Seq<usize>> {
    Seq::new(gs.len(), |g: int| gs[g].1)
}

/// The files of some clusters, cluster by cluster.
pub open spec fn cluster_lists(cs: Seq<ClusterView>) -> Seq<Seq<usize>> {
    Seq::new(cs.len(), |c: int| cs[c].0)
}

/// The files of some duplicates, group by group.
pub open spec fn duplicate_lists(ds: Seq<DuplicateView>) -> Seq<Seq<usize>> {
    Seq::new(ds.len(), |d: int| ds[d].file_indices)
}

/// The files of a list of jobs.
pub open spec fn job_files(jobs: Seq<(usize, u64)>) -> Seq<usize> {
    Seq::new(jobs.len(), |k: int| jobs[k].0)
}

/// What was read of the starts is what stands there: each job has the size of its file, and
/// what was found for it depends on the content alone.
pub open spec fn honest_starts(
    jobs: Seq<(usize, u64)>,
    hashes: Seq<Option<u64>>,
    content: spec_fn(usize) -> Seq<u8>,
    start: spec_fn(Seq<u8>) -> u64,
) -> bool {
    &&& hashes.len() == jobs.len()
    &&& forall|k: int|
        0 <= k < jobs.len() ==> (#[trigger] jobs[k]).1 == content(jobs[k].0).len() && hashes[k]
            == Some(start(content(jobs[k].0)))
}

proof fn lemma_honest_headers(
    jobs: Seq<(usize, u64)>,
    hashes: Seq<Option<u64>>,
    content: spec_fn(usize) -> Seq<u8>,
    start: spec_fn(Seq<u8>) -> u64,
    n: int,
)
    requires
        honest_starts(jobs, hashes, content, start),
        0 <= n <= jobs.len(),
    ensures
        headers_of(jobs.take(n), hashes) == Seq::new(
            n as nat,
            |k: int| (jobs[k].0, jobs[k].1, start(content(jobs[k].0))),
        ),
    decreases n,
{
    let all = Seq::new(n as nat, |k: int| (jobs[k].0, jobs[k].1, start(content(jobs[k].0))));
    if n == 0 {
        assert(headers_of(jobs.take(n), hashes) =~= all);
    } else {
        lemma_honest_headers(jobs, hashes, content, start, n - 1);
        assert(jobs.take(n).drop_last() =~= jobs.take(n - 1));
        assert(jobs.take(n)[n - 1] == jobs[n - 1]);
        assert(hashes[n - 1] == Some(start(content(jobs[n - 1].0))));
        assert(headers_of(jobs.take(n), hashes) =~= all);
    }
}

/// What goes together by size and start is what may have the same content.
proof fn lemma_starts_are_classes(
    jobs: Seq<(usize, u64)>,
    hashes: Seq<Option<u64>>,
    content: spec_fn(usize) -> Seq<u8>,
    start: spec_fn(Seq<u8>) -> u64,
)
    requires
        honest_starts(jobs, hashes, content, start),
        jobs.len() <= usize::MAX,
        all_distinct(job_files(jobs)),
    ensures
        are_classes(
            job_files(jobs),
            |f: usize| (content(f).len() as u64, start(content(f))),
            group_lists(header_groups(headers_of(jobs, hashes))),
        ),
{
    let n = jobs.len() as int;
    lemma_honest_headers(jobs, hashes, content, start, n);
    assert(jobs.take(n) =~= jobs);
    let hs = headers_of(jobs, hashes);
    let keys = header_keys(hs);
    let lt = |a: (u64, u64), b: (u64, u64)| pair_before(a, b);
    let key = |f: usize| (content(f).len() as u64, start(content(f)));
    let files = job_files(jobs);
    let lists = group_lists(header_groups(hs));
    assert(is_order(lt));
    assert(is_connected(lt)) by {
        assert forall|a: (u64, u64), b: (u64, u64)|
            #![trigger lt(a, b)]
            !lt(a, b) && !lt(b, a) implies a == b by {}
    }
    assert forall|p: int| 0 <= p < files.len() implies keys[p] == key(#[trigger] files[p]) by {
        assert(jobs[p].1 == content(jobs[p].0).len());
    }
    let sh = shared(groups(keys, lt));
    assert forall|g: int, x: int| 0 <= g < lists.len() && 0 <= x < lists[g].len() implies
        #[trigger] lists[g][x] == files[sh[g][x] as int] by {
        law_groups_go_by_key(keys, lt);
        let p = lemma_shared_one(groups(keys, lt), g);
        assert(in_group(groups(keys, lt), p, sh[g][x]));
    }
    lemma_groups_are_classes(files, keys, lt, key, lists);
}

proof fn lemma_size_one(size: u64, cs: Seq<ClusterView>, r: int) -> (c: int)
    requires
        0 <= r < groups_of_size(size, cs).len(),
    ensures
        0 <= c < cs.len(),
        groups_of_size(size, cs)[r].file_indices == cs[c].0,
    decreases cs.len(),
{
    let rest = groups_of_size(size, cs.drop_last());
    if cs.last().0.len() >= 2 && r == rest.len() {
        cs.len() - 1
    } else {
        lemma_size_one(size, cs.drop_last(), r)
    }
}

proof fn lemma_size_pair(size: u64, cs: Seq<ClusterView>, r: int, s: int) -> (p: (int, int))
    requires
        0 <= r < s < groups_of_size(size, cs).len(),
    ensures
        0 <= p.0 < p.1 < cs.len(),
        groups_of_size(size, cs)[r].file_indices == cs[p.0].0,
        groups_of_size(size, cs)[s].file_indices == cs[p.1].0,
    decreases cs.len(),
{
    let rest = groups_of_size(size, cs.drop_last());
    if cs.last().0.len() >= 2 && s == rest.len() {
        (lemma_size_one(size, cs.drop_last(), r), cs.len() - 1)
    } else {
        lemma_size_pair(size, cs.drop_last(), r, s)
    }
}

proof fn lemma_size_reached(size: u64, cs: Seq<ClusterView>, c: int) -> (r: int)
    requires
        0 <= c < cs.len(),
        cs[c].0.len() >= 2,
    ensures
        0 <= r < groups_of_size(size, cs).len(),
        groups_of_size(size, cs)[r].file_indices == cs[c].0,
    decreases cs.len(),
{
    if c == cs.len() - 1 {
        groups_of_size(size, cs).len() - 1
    } else {
        lemma_size_reached(size, cs.drop_last(), c)
    }
}

proof fn lemma_origin(
    gs: Seq<(u64, Seq<usize>)>,
    answers: Seq<Seq<ClusterView>>,
    r: int,
) -> (o: (int, int))
    requires
        answers.len() >= gs.len(),
        0 <= r < duplicates_of(gs, answers).len(),
    ensures
        0 <= o.0 < gs.len(),
        0 <= o.1 < answers[o.0].len(),
        duplicates_of(gs, answers)[r].file_indices == answers[o.0][o.1].0,
    decreases gs.len(),
{
    let k = gs.len() - 1;
    let front = duplicates_of(gs.drop_last(), answers);
    if r < front.len() {
        lemma_origin(gs.drop_last(), answers, r)
    } else {
        (k, lemma_size_one(gs[k].0, answers[k], r - front.len()))
    }
}

proof fn lemma_origins(
    gs: Seq<(u64, Seq<usize>)>,
    answers: Seq<Seq<ClusterView>>,
    r: int,
    s: int,
) -> (o: (int, int, int, int))
    requires
        answers.len() >= gs.len(),
        0 <= r < s < duplicates_of(gs, answers).len(),
    ensures
        0 <= o.0 < gs.len(),
        0 <= o.1 < answers[o.0].len(),
        0 <= o.2 < gs.len(),
        0 <= o.3 < answers[o.2].len(),
        duplicates_of(gs, answers)[r].file_indices == answers[o.0][o.1].0,
        duplicates_of(gs, answers)[s].file_indices == answers[o.2][o.3].0,
        o.0 != o.2 || o.1 != o.3,
    decreases gs.len(),
{
    let k = gs.len() - 1;
    let front = duplicates_of(gs.drop_last(), answers);
    let n = front.len() as int;
    if s < n {
        lemma_origins(gs.drop_last(), answers, r, s)
    } else if r < n {
        let o = lemma_origin(gs.drop_last(), answers, r);
        (o.0, o.1, k, lemma_size_one(gs[k].0, answers[k], s - n))
    } else {
        let p = lemma_size_pair(gs[k].0, answers[k], r - n, s - n);
        (k, p.0, k, p.1)
    }
}

proof fn lemma_reached(
    gs: Seq<(u64, Seq<usize>)>,
    answers: Seq<Seq<ClusterView>>,
    k: int,
    c: int,
) -> (r: int)
    requires
        answers.len() >= gs.len(),
        0 <= k < gs.len(),
        0 <= c < answers[k].len(),
        answers[k][c].0.len() >= 2,
    ensures
        0 <= r < duplicates_of(gs, answers).len(),
        duplicates_of(gs, answers)[r].file_indices == answers[k][c].0,
    decreases gs.len(),
{
    let last = gs.len() - 1;
    let front = duplicates_of(gs.drop_last(), answers);
    if k == last {
        let r = lemma_size_reached(gs[k].0, answers[k], c);
        front.len() + r
    } else {
        lemma_reached(gs.drop_last(), answers, k, c)
    }
}

/// What looking closely gave for a group of files: just the classes of those with the same
/// content.
pub open spec fn honest_answers(
    gs: Seq<(u64, Seq<usize>)>,
    answers: Seq<Seq<ClusterView>>,
    content: spec_fn(usize) -> Seq<u8>,
) -> bool {
    &&& answers.len() == gs.len()
    &&& forall|k: int|
        0 <= k < gs.len() ==> are_classes(
            (#[trigger] gs[k]).1,
            content,
            cluster_lists(answers[k]),
        )
}

/// Where reading the starts and looking closely are honest, a search reports just the classes of
/// the files with the same content: every file that has a copy is in one group, with all of its
/// copies and nothing else.
pub proof fn law_duplicates_are_the_classes(
    jobs: Seq<(usize, u64)>,
    hashes: Seq<Option<u64>>,
    answers: Seq<Seq<ClusterView>>,
    content: spec_fn(usize) -> Seq<u8>,
    start: spec_fn(Seq<u8>) -> u64,
)
    requires
        jobs.len() <= usize::MAX,
        all_distinct(job_files(jobs)),
        honest_starts(jobs, hashes, content, start),
        honest_answers(header_groups(headers_of(jobs, hashes)), answers, content),
    ensures
        are_classes(
            job_files(jobs),
            content,
            duplicate_lists(
                duplicates_of(header_groups(headers_of(jobs, hashes)), answers),
            ),
        ),
{
    let gs = header_groups(headers_of(jobs, hashes));
    let files = job_files(jobs);
    let coarse = |f: usize| (content(f).len() as u64, start(content(f)));
    let groups = group_lists(gs);
    let ds = duplicates_of(gs, answers);
    let lists = duplicate_lists(ds);
    lemma_starts_are_classes(jobs, hashes, content, start);
    assert forall|r: int| 0 <= r < lists.len() implies (#[trigger] lists[r]).len() >= 2 by {
        let (k, c) = lemma_origin(gs, answers, r);
        assert(are_classes(gs[k].1, content, cluster_lists(answers[k])));
        assert(cluster_lists(answers[k])[c].len() >= 2);
    }
    assert forall|r: int, f: usize| #[trigger] in_group(lists, r, f) implies files.contains(f)
        && content(f) == content(lists[r][0]) by {
        let (k, c) = lemma_origin(gs, answers, r);
        assert(are_classes(gs[k].1, content, cluster_lists(answers[k])));
        assert(in_group(cluster_lists(answers[k]), c, f));
        assert(in_group(groups, k, f));
    }
    assert forall|f: usize, h: usize| #[trigger]
        files.contains(f) && #[trigger] files.contains(h) && f != h && content(f) == content(
        h,
    ) implies are_together(lists, f, h) by {
        assert(coarse(f) == coarse(h));
        assert(are_together(groups, f, h));
        let k = choose|k: int| #[trigger] in_group(groups, k, f) && in_group(groups, k, h);
        assert(are_classes(gs[k].1, content, cluster_lists(answers[k])));
        assert(gs[k].1.contains(f) && gs[k].1.contains(h));
        let cl = cluster_lists(answers[k]);
        assert(are_together(cl, f, h));
        let c = choose|c: int| #[trigger] in_group(cl, c, f) && in_group(cl, c, h);
        assert(cl[c].len() >= 2);
        let r = lemma_reached(gs, answers, k, c);
        assert(lists[r] == cl[c]);
        assert(in_group(lists, r, f) && in_group(lists, r, h));
    }
    assert forall|r: int, s: int, f: usize| #[trigger]
        in_group(lists, r, f) && #[trigger] in_group(lists, s, f) implies r == s by {
        if r < s {
            lemma_duplicates_apart(gs, answers, files, coarse, content, r, s, f);
        } else if s < r {
            lemma_duplicates_apart(gs, answers, files, coarse, content, s, r, f);
        }
    }
}

proof fn lemma_duplicates_apart(
    gs: Seq<(u64, Seq<usize>)>,
    answers: Seq<Seq<ClusterView>>,
    files: Seq<usize>,
    coarse: spec_fn(usize) -> (u64, u64),
    content: spec_fn(usize) -> Seq<u8>,
    r: int,
    s: int,
    f: usize,
)
    requires
        honest_answers(gs, answers, content),
        are_classes(files, coarse, group_lists(gs)),
        0 <= r < s < duplicates_of(gs, answers).len(),
        in_group(duplicate_lists(duplicates_of(gs, answers)), r, f),
    ensures
        !in_group(duplicate_lists(duplicates_of(gs, answers)), s, f),
{
    if in_group(duplicate_lists(duplicates_of(gs, answers)), s, f) {
        let (k, c, l, d) = lemma_origins(gs, answers, r, s);
        assert(are_classes(gs[k].1, content, cluster_lists(answers[k])));
        assert(are_classes(gs[l].1, content, cluster_lists(answers[l])));
        assert(in_group(cluster_lists(answers[k]), c, f));
        assert(in_group(cluster_lists(answers[l]), d, f));
        assert(in_group(group_lists(gs), k, f));
        assert(in_group(group_lists(gs), l, f));
        assert(k == l);
    }
}

/// The files of a list of fingerprinted files.
pub open spec fn hashed_files(hs: Seq<(usize, Seq<u8>)>) -> Seq<usize> {
    Seq::new(hs.len(), |i: int| hs[i].0)
}

/// Clusters whose verdict is that all files have the content of the first.
pub open spec fn honest_verdicts(
    cs: Seq<ClusterView>,
    verdicts: Seq<bool>,
    content: spec_fn(usize) -> Seq<u8>,
) -> bool {
    &&& verdicts.len() == cs.len()
    &&& forall|k: int|
        0 <= k < cs.len() ==> (#[trigger] verdicts[k] <==> forall|f: usize| #[trigger]
            cs[k].0.contains(f) ==> content(f) == content(cs[k].0[0]))
}

proof fn lemma_all_verified(cs: Seq<ClusterView>, verdicts: Seq<bool>, n: int)
    requires
        0 <= n <= cs.len(),
        verdicts.len() == cs.len(),
        forall|k: int| 0 <= k < cs.len() ==> #[trigger] verdicts[k],
    ensures
        verified(cs.take(n), verdicts) == cs.take(n),
    decreases n,
{
    if n > 0 {
        lemma_all_verified(cs, verdicts, n - 1);
        assert(cs.take(n).drop_last() =~= cs.take(n - 1));
        assert(verdicts[n - 1]);
        assert(cs.take(n - 1).push(cs[n - 1]) =~= cs.take(n));
    }
}

/// Fingerprints and an honest comparison tell just the classes of the files with the same
/// content, where no two of the files share a fingerprint without being the same.
pub proof fn law_fingerprints_tell_the_classes(
    hs: Seq<(usize, Seq<u8>)>,
    verdicts: Seq<bool>,
    content: spec_fn(usize) -> Seq<u8>,
    fingerprint: spec_fn(Seq<u8>) -> Seq<u8>,
)
    requires
        hs.len() <= usize::MAX,
        all_distinct(hashed_files(hs)),
        forall|i: int| 0 <= i < hs.len() ==> (#[trigger] hs[i]).1 == fingerprint(content(hs[i].0)),
        forall|f: usize, h: usize| #[trigger]
            hashed_files(hs).contains(f) && #[trigger] hashed_files(hs).contains(h) && fingerprint(
                content(f),
            ) == fingerprint(content(h)) ==> content(f) == content(h),
        honest_verdicts(hash_clusters(hs), verdicts, content),
    ensures
        are_classes(
            hashed_files(hs),
            content,
            cluster_lists(verified(hash_clusters(hs), verdicts)),
        ),
{
    let keys = hash_keys(hs);
    let lt = |a: Seq<u8>, b: Seq<u8>| lex_less(a, b);
    let key = |f: usize| fingerprint(content(f));
    let files = hashed_files(hs);
    let cs = hash_clusters(hs);
    let lists = cluster_lists(cs);
    lemma_lex_order();
    let sh = shared(groups(keys, lt));
    assert forall|g: int, x: int| 0 <= g < lists.len() && 0 <= x < lists[g].len() implies
        #[trigger] lists[g][x] == files[sh[g][x] as int] by {
        law_groups_go_by_key(keys, lt);
        let p = lemma_shared_one(groups(keys, lt), g);
        assert(in_group(groups(keys, lt), p, sh[g][x]));
    }
    assert forall|p: int| 0 <= p < files.len() implies keys[p] == key(#[trigger] files[p]) by {
        assert(hs[p].1 == fingerprint(content(hs[p].0)));
    }
    lemma_groups_are_classes(files, keys, lt, key, lists);
    assert forall|g: int, f: usize| #[trigger] in_group(lists, g, f) implies files.contains(f)
        && content(f) == content(lists[g][0]) by {
        assert(lists[g].len() >= 2);
        assert(in_group(lists, g, lists[g][0]));
        assert(key(f) == key(lists[g][0]));
        assert(files.contains(f) && files.contains(lists[g][0]));
    }
    assert forall|k: int| 0 <= k < cs.len() implies #[trigger] verdicts[k] by {
        assert forall|f: usize| #[trigger] cs[k].0.contains(f) implies content(f) == content(
            cs[k].0[0],
        ) by {
            assert(in_group(lists, k, f));
        }
    }
    lemma_all_verified(cs, verdicts, cs.len() as int);
    assert(cs.take(cs.len() as int) =~= cs);
    assert forall|f: usize, h: usize| #[trigger]
        files.contains(f) && #[trigger] files.contains(h) && f != h && content(f) == content(
        h,
    ) implies are_together(lists, f, h) by {
        assert(key(f) == key(h));
    }
}

} // verus!
