//! Finding files with the same content: first by the start of each file, then by the whole of
//! it, and in the end byte by byte.

use vstd::prelude::*;
use vstd::slice::slice_subrange;

use crate::digest::{hash_less, hex_text, to_hex};
use crate::file_groups::{shared, size_groups_view, SizeGroup};
use crate::grouping::{
    by_key, group_by, groups, in_group, is_connected, law_groups_go_by_key, lists_view, positions,
    runs,
};
use crate::model::text_option;
use crate::sorting::{is_order, law_sort_permutes, stable_sort};
use crate::text::{
    bytes_eq, lemma_lex_asymmetric, lemma_lex_connected, lemma_lex_transitive, lex_less,
};

verus! {

/// The two rounds of the search.
#[derive(Clone, Copy, Debug, PartialEq, Eq, Structural)]
pub enum HashPhase {
    Prefilter,
    Confirm,
}

/// Files with the same content.
pub struct DuplicateGroup {
    pub size: u64,
    /// The fingerprint of their content.
    pub hash_hex: Option<String>,
    /// Where they stand in the list of files.
    pub file_indices: Vec<usize>,
}

/// What a [`DuplicateGroup`] holds.
#[verifier::ext_equal]
pub struct DuplicateView {
    pub size: u64,
    pub hash_hex: Option<Seq<char>>,
    pub file_indices: Seq<usize>,
}

impl View for DuplicateGroup {
    type V = DuplicateView;

    open spec fn view(&self) -> DuplicateView {
        DuplicateView {
            size: self.size,
            hash_hex: text_option(self.hash_hex),
            file_indices: self.file_indices@,
        }
    }
}

/// What a list of groups holds.
pub open spec fn duplicates_view(v: Seq<DuplicateGroup>) -> Seq<DuplicateView> {
    Seq::new(v.len(), |i: int| v[i]@)
}

/// A file whose start is to be read.
pub struct HeaderJob {
    pub index: usize,
    pub size: u64,
}

/// What a list of jobs holds: file and size.
pub open spec fn jobs_view(v: Seq<HeaderJob>) -> Seq<(usize, u64)> {
    Seq::new(v.len(), |i: int| (v[i].index, v[i].size))
}

/// The files of one group, each with the size of the group.
pub open spec fn group_jobs(g: (u64, Seq<usize>)) -> Seq<(usize, u64)> {
    Seq::new(g.1.len(), |i: int| (g.1[i], g.0))
}

/// The files of all groups, group by group.
pub open spec fn all_jobs(gs: Seq<(u64, Seq<usize>)>) -> Seq<(usize, u64)>
    decreases gs.len(),
{
    if gs.len() == 0 {
        Seq::empty()
    } else {
        all_jobs(gs.drop_last()) + group_jobs(gs.last())
    }
}

/// The files whose start is to be read: those of all groups, group by group.
pub fn header_jobs(size_groups: &Vec<SizeGroup>) -> (r: Vec<HeaderJob>)
    ensures
        jobs_view(r@) == all_jobs(size_groups_view(size_groups@)),
{
    let ghost gs = size_groups_view(size_groups@);
    let mut r: Vec<HeaderJob> = Vec::new();
    let mut g: usize = 0;
    assert(jobs_view(r@) =~= all_jobs(gs.take(0)));
    while g < size_groups.len()
        invariant
            g <= size_groups.len(),
            gs == size_groups_view(size_groups@),
            jobs_view(r@) == all_jobs(gs.take(g as int)),
        decreases size_groups.len() - g,
    {
        let ghost done = jobs_view(r@);
        let group = &size_groups[g];
        let ghost mine = group_jobs(gs[g as int]);
        let mut i: usize = 0;
        assert(done + mine.take(0) =~= done);
        while i < group.members.len()
            invariant
                i <= group.members.len(),
                mine == group_jobs((group.size, group.members@)),
                jobs_view(r@) == done + mine.take(i as int),
            decreases group.members.len() - i,
        {
            let ghost before = r@;
            r.push(HeaderJob { index: group.members[i], size: group.size });
            proof {
                assert(jobs_view(r@) =~= jobs_view(before).push(mine[i as int]));
                assert(done + mine.take(i + 1) =~= (done + mine.take(i as int)).push(
                    mine[i as int],
                ));
            }
            i += 1;
        }
        assert(mine.take(i as int) =~= mine);
        assert(gs.take(g + 1).drop_last() =~= gs.take(g as int));
        g += 1;
    }
    assert(gs.take(g as int) =~= gs);
    r
}

/// A file whose start was read: the file, its size and what stands for the start.
pub type Header = (usize, u64, u64);

/// The files whose start could be read.
pub open spec fn headers_of(jobs: Seq<(usize, u64)>, hashes: Seq<Option<u64>>) -> Seq<Header>
    decreases jobs.len(),
{
    if jobs.len() == 0 {
        Seq::empty()
    } else {
        let rest = headers_of(jobs.drop_last(), hashes);
        let k = jobs.len() - 1;
        match if k < hashes.len() {
            hashes[k]
        } else {
            None
        } {
            Some(h) => rest.push((jobs[k].0, jobs[k].1, h)),
            None => rest,
        }
    }
}

/// Files go together by size and by what stands for their start.
pub open spec fn header_keys(hs: Seq<Header>) -> Seq<(u64, u64)> {
    Seq::new(hs.len(), |i: int| (hs[i].1, hs[i].2))
}

/// The order of such pairs: by the first, then by the second.
pub open spec fn pair_before(a: (u64, u64), b: (u64, u64)) -> bool {
    a.0 < b.0 || (a.0 == b.0 && a.1 < b.1)
}

/// The files at the given positions, with their size.
pub open spec fn header_group(hs: Seq<Header>, members: Seq<usize>) -> (u64, Seq<usize>) {
    (hs[members[0] as int].1, Seq::new(members.len(), |i: int| hs[members[i] as int].0))
}

/// Files of the same size with the same start, at least two of each.
pub open spec fn header_groups(hs: Seq<Header>) -> Seq<(u64, Seq<usize>)> {
    let gs = shared(groups(header_keys(hs), |a: (u64, u64), b: (u64, u64)| pair_before(a, b)));
    Seq::new(gs.len(), |g: int| header_group(hs, gs[g]))
}

fn read_headers(jobs: &Vec<HeaderJob>, hashes: &Vec<Option<u64>>) -> (r: Vec<Header>)
    ensures
        r@ == headers_of(jobs_view(jobs@), hashes@),
{
    let ghost js = jobs_view(jobs@);
    let mut r: Vec<Header> = Vec::new();
    let mut k: usize = 0;
    assert(r@ =~= headers_of(js.take(0), hashes@));
    while k < jobs.len()
        invariant
            k <= jobs.len(),
            js == jobs_view(jobs@),
            r@ == headers_of(js.take(k as int), hashes@),
        decreases jobs.len() - k,
    {
        assert(js.take(k + 1).drop_last() =~= js.take(k as int));
        assert(js.take(k + 1)[k as int] == js[k as int]);
        if k < hashes.len() {
            if let Some(h) = hashes[k] {
                r.push((jobs[k].index, jobs[k].size, h));
            }
        }
        k += 1;
    }
    assert(js.take(k as int) =~= js);
    r
}

fn group_headers(hs: &Vec<Header>) -> (r: Vec<Vec<usize>>)
    ensures
        lists_view(r@) == groups(
            header_keys(hs@),
            |a: (u64, u64), b: (u64, u64)| pair_before(a, b),
        ),
        forall|g: int| 0 <= g < r@.len() ==> (#[trigger] r@[g])@.len() > 0,
        forall|g: int, i: int|
            0 <= g < r@.len() && 0 <= i < r@[g]@.len() ==> #[trigger] r@[g]@[i] < hs@.len(),
{
    let less = |a: &usize, b: &usize| -> (o: bool)
        requires
            *a < hs@.len() && *b < hs@.len(),
        ensures
            o == pair_before(header_keys(hs@)[*a as int], header_keys(hs@)[*b as int]),
        {
            let x = hs[*a];
            let y = hs[*b];
            x.1 < y.1 || (x.1 == y.1 && x.2 < y.2)
        };
    let same = |a: usize, b: usize| -> (o: bool)
        requires
            a < hs@.len() && b < hs@.len(),
        ensures
            o == (header_keys(hs@)[a as int] == header_keys(hs@)[b as int]),
        {
            let x = hs[a];
            let y = hs[b];
            x.1 == y.1 && x.2 == y.2
        };
    let ghost keys = header_keys(hs@);
    let ghost lt = |a: (u64, u64), b: (u64, u64)| pair_before(a, b);
    proof {
        assert(is_order(lt));
        assert(is_connected(lt)) by {
            assert forall|a: (u64, u64), b: (u64, u64)|
                #![trigger lt(a, b)]
                !lt(a, b) && !lt(b, a) implies a == b by {}
        }
        assert(hs@.len() == hs.len());
        law_groups_go_by_key(keys, lt);
    }
    let r = group_by::<Header, (u64, u64), _, _>(hs, &less, &same, Ghost(keys), Ghost(lt));
    proof {
        let gs = groups(keys, lt);
        assert forall|g: int| 0 <= g < r@.len() implies (#[trigger] r@[g])@.len() > 0 by {
            assert(gs[g] == lists_view(r@)[g]);
        }
        assert forall|g: int, i: int| 0 <= g < r@.len() && 0 <= i < r@[g]@.len() implies
            #[trigger] r@[g]@[i] < hs@.len() by {
            assert(gs[g] == lists_view(r@)[g]);
            assert(gs[g][i] == r@[g]@[i]);
            assert(in_group(gs, g, gs[g][i]));
        }
    }
    r
}

fn header_group_of(hs: &Vec<Header>, members: &Vec<usize>) -> (r: SizeGroup)
    requires
        members@.len() > 0,
        forall|i: int| 0 <= i < members@.len() ==> #[trigger] members@[i] < hs@.len(),
    ensures
        (r.size, r.members@) == header_group(hs@, members@),
{
    let mut out: Vec<usize> = Vec::new();
    let mut i: usize = 0;
    while i < members.len()
        invariant
            i <= members.len(),
            out@.len() == i,
            forall|i: int| 0 <= i < members@.len() ==> #[trigger] members@[i] < hs@.len(),
            forall|k: int| 0 <= k < i ==> #[trigger] out@[k] == hs@[members@[k] as int].0,
        decreases members.len() - i,
    {
        out.push(hs[members[i]].0);
        i += 1;
    }
    assert(members@[0] < hs@.len());
    let size: u64 = hs[members[0]].1;
    assert(out@ =~= header_group(hs@, members@).1);
    SizeGroup { size, members: out }
}

/// Which files to look at closely: those of the same size with the same start, where there are
/// at least two. `hashes` says what was found for each job.
pub fn confirm_groups(jobs: &Vec<HeaderJob>, hashes: &Vec<Option<u64>>) -> (r: Vec<SizeGroup>)
    ensures
        size_groups_view(r@) == header_groups(headers_of(jobs_view(jobs@), hashes@)),
{
    let hs = read_headers(jobs, hashes);
    let gs = group_headers(&hs);
    let ghost all = lists_view(gs@);
    let mut r: Vec<SizeGroup> = Vec::new();
    let mut g: usize = 0;
    while g < gs.len()
        invariant
            g <= gs.len(),
            all == lists_view(gs@),
            forall|g: int| 0 <= g < gs@.len() ==> (#[trigger] gs@[g])@.len() > 0,
            forall|g: int, i: int|
                0 <= g < gs@.len() && 0 <= i < gs@[g]@.len() ==> #[trigger] gs@[g]@[i] < hs@.len(),
            r@.len() == shared(all.take(g as int)).len(),
            forall|k: int|
                0 <= k < r@.len() ==> (#[trigger] r@[k].size, r@[k].members@) == header_group(
                    hs@,
                    shared(all.take(g as int))[k],
                ),
        decreases gs.len() - g,
    {
        assert(all.take(g + 1).drop_last() =~= all.take(g as int));
        assert(all.take(g + 1).last() == gs@[g as int]@);
        if gs[g].len() >= 2 {
            let ghost before = r@;
            assert forall|i: int| 0 <= i < gs@[g as int]@.len() implies #[trigger] gs@[g as int]@[i]
                < hs@.len() by {
                assert(gs@[g as int]@[i] < hs@.len());
            }
            let group = header_group_of(&hs, &gs[g]);
            r.push(group);
            assert forall|k: int| 0 <= k < r@.len() implies (#[trigger] r@[k].size, r@[k].members@)
                == header_group(hs@, shared(all.take(g + 1))[k]) by {
                if k < before.len() {
                    assert(r@[k] == before[k]);
                    assert((before[k].size, before[k].members@) == header_group(
                        hs@,
                        shared(all.take(g as int))[k],
                    ));
                }
            }
        }
        g += 1;
    }
    assert(all.take(g as int) =~= all);
    assert(size_groups_view(r@) =~= header_groups(hs@));
    r
}

/// A file and the fingerprint of its content, if it could be read.
pub struct HashedFile {
    pub index: usize,
    pub hash: Option<[u8; 32]>,
}

/// The files that could be read, each with its fingerprint.
pub open spec fn readable(files: Seq<HashedFile>) -> Seq<(usize, Seq<u8>)>
    decreases files.len(),
{
    if files.len() == 0 {
        Seq::empty()
    } else {
        let rest = readable(files.drop_last());
        match files.last().hash {
            Some(h) => rest.push((files.last().index, h@)),
            None => rest,
        }
    }
}

/// The fingerprints of a list of files.
pub open spec fn hash_keys(hs: Seq<(usize, Seq<u8>)>) -> Seq<Seq<u8>> {
    Seq::new(hs.len(), |i: int| hs[i].1)
}

/// Files that seem to have the same content.
pub struct Cluster {
    pub file_indices: Vec<usize>,
    pub hash_hex: Option<String>,
}

/// What a [`Cluster`] holds.
pub type ClusterView = (Seq<usize>, Option<Seq<char>>);

impl View for Cluster {
    type V = ClusterView;

    open spec fn view(&self) -> ClusterView {
        (self.file_indices@, text_option(self.hash_hex))
    }
}

/// What a list of clusters holds.
pub open spec fn clusters_view(v: Seq<Cluster>) -> Seq<ClusterView> {
    Seq::new(v.len(), |i: int| v[i]@)
}

/// The files at the given positions, with their fingerprint in hexadecimal.
pub open spec fn cluster_at(hs: Seq<(usize, Seq<u8>)>, members: Seq<usize>) -> ClusterView {
    (
        Seq::new(members.len(), |i: int| hs[members[i] as int].0),
        Some(hex_text(hs[members[0] as int].1)),
    )
}

/// Files with the same fingerprint, at least two of each, in the order of the fingerprints.
pub open spec fn hash_clusters(hs: Seq<(usize, Seq<u8>)>) -> Seq<ClusterView> {
    let gs = shared(groups(hash_keys(hs), |a: Seq<u8>, b: Seq<u8>| lex_less(a, b)));
    Seq::new(gs.len(), |g: int| cluster_at(hs, gs[g]))
}

pub proof fn lemma_lex_order()
    ensures
        is_order(|a: Seq<u8>, b: Seq<u8>| lex_less(a, b)),
        is_connected(|a: Seq<u8>, b: Seq<u8>| lex_less(a, b)),
{
    let lt = |a: Seq<u8>, b: Seq<u8>| lex_less(a, b);
    assert forall|a: Seq<u8>, b: Seq<u8>| #[trigger] lt(a, b) implies !lt(b, a) by {
        lemma_lex_asymmetric(a, b);
    }
    assert forall|a: Seq<u8>, b: Seq<u8>, c: Seq<u8>|
        #![trigger lt(a, b), lt(b, c)]
        !lt(a, b) && !lt(b, c) implies !lt(a, c) by {
        lemma_lex_transitive(a, b, c);
    }
    assert forall|a: Seq<u8>, b: Seq<u8>|
        #![trigger lt(a, b)]
        !lt(a, b) && !lt(b, a) implies a == b by {
        lemma_lex_connected(a, b);
    }
}

/// What a list of fingerprinted files holds.
spec fn hashed_view(v: Seq<(usize, [u8; 32])>) -> Seq<(usize, Seq<u8>)> {
    Seq::new(v.len(), |i: int| (v[i].0, v[i].1@))
}

fn read_hashes(files: &Vec<HashedFile>) -> (r: Vec<(usize, [u8; 32])>)
    ensures
        hashed_view(r@) == readable(files@),
{
    let mut r: Vec<(usize, [u8; 32])> = Vec::new();
    let mut i: usize = 0;
    assert(hashed_view(r@) =~= readable(files@.take(0)));
    while i < files.len()
        invariant
            i <= files.len(),
            hashed_view(r@) == readable(files@.take(i as int)),
        decreases files.len() - i,
    {
        assert(files@.take(i + 1).drop_last() =~= files@.take(i as int));
        if let Some(h) = files[i].hash {
            let ghost before = r@;
            r.push((files[i].index, h));
            assert(hashed_view(r@) =~= hashed_view(before).push((files@[i as int].index, h@)));
        }
        i += 1;
    }
    assert(files@.take(i as int) =~= files@);
    r
}

fn group_hashes(hs: &Vec<(usize, [u8; 32])>) -> (r: Vec<Vec<usize>>)
    ensures
        lists_view(r@) == groups(
            hash_keys(hashed_view(hs@)),
            |a: Seq<u8>, b: Seq<u8>| lex_less(a, b),
        ),
        forall|g: int| 0 <= g < r@.len() ==> (#[trigger] r@[g])@.len() > 0,
        forall|g: int, i: int|
            0 <= g < r@.len() && 0 <= i < r@[g]@.len() ==> #[trigger] r@[g]@[i] < hs@.len(),
{
    let less = |a: &usize, b: &usize| -> (o: bool)
        requires
            *a < hs@.len() && *b < hs@.len(),
        ensures
            o == lex_less(
                hash_keys(hashed_view(hs@))[*a as int],
                hash_keys(hashed_view(hs@))[*b as int],
            ),
        { hash_less(&hs[*a].1, &hs[*b].1) };
    let same = |a: usize, b: usize| -> (o: bool)
        requires
            a < hs@.len() && b < hs@.len(),
        ensures
            o == (hash_keys(hashed_view(hs@))[a as int] == hash_keys(
                hashed_view(hs@),
            )[b as int]),
        { bytes_eq(&hs[a].1, &hs[b].1) };
    let ghost keys = hash_keys(hashed_view(hs@));
    let ghost lt = |a: Seq<u8>, b: Seq<u8>| lex_less(a, b);
    proof {
        lemma_lex_order();
        assert(hs@.len() == hs.len());
        law_groups_go_by_key(keys, lt);
    }
    let r = group_by::<(usize, [u8; 32]), Seq<u8>, _, _>(
        hs,
        &less,
        &same,
        Ghost(keys),
        Ghost(lt),
    );
    proof {
        let gs = groups(keys, lt);
        assert forall|g: int| 0 <= g < r@.len() implies (#[trigger] r@[g])@.len() > 0 by {
            assert(gs[g] == lists_view(r@)[g]);
        }
        assert forall|g: int, i: int| 0 <= g < r@.len() && 0 <= i < r@[g]@.len() implies
            #[trigger] r@[g]@[i] < hs@.len() by {
            assert(gs[g] == lists_view(r@)[g]);
            assert(gs[g][i] == r@[g]@[i]);
            assert(in_group(gs, g, gs[g][i]));
        }
    }
    r
}

fn cluster_of(hs: &Vec<(usize, [u8; 32])>, members: &Vec<usize>) -> (r: Cluster)
    requires
        members@.len() > 0,
        forall|i: int| 0 <= i < members@.len() ==> #[trigger] members@[i] < hs@.len(),
    ensures
        r@ == cluster_at(hashed_view(hs@), members@),
{
    let mut out: Vec<usize> = Vec::new();
    let mut i: usize = 0;
    while i < members.len()
        invariant
            i <= members.len(),
            out@.len() == i,
            forall|i: int| 0 <= i < members@.len() ==> #[trigger] members@[i] < hs@.len(),
            forall|k: int| 0 <= k < i ==> #[trigger] out@[k] == hs@[members@[k] as int].0,
        decreases members.len() - i,
    {
        out.push(hs[members[i]].0);
        i += 1;
    }
    assert(members@[0] < hs@.len());
    let hex = to_hex(&hs[members[0]].1);
    assert(out@ =~= cluster_at(hashed_view(hs@), members@).0);
    Cluster { file_indices: out, hash_hex: Some(hex) }
}

/// Files with the same fingerprint together, at least two of each. Files that could not be read
/// are left out.
pub fn cluster_by_hash(files: &Vec<HashedFile>) -> (r: Vec<Cluster>)
    ensures
        clusters_view(r@) == hash_clusters(readable(files@)),
{
    let hs = read_hashes(files);
    let ghost hv = hashed_view(hs@);
    let gs = group_hashes(&hs);
    let ghost all = lists_view(gs@);
    let mut r: Vec<Cluster> = Vec::new();
    let mut g: usize = 0;
    while g < gs.len()
        invariant
            g <= gs.len(),
            all == lists_view(gs@),
            hv == hashed_view(hs@),
            forall|g: int| 0 <= g < gs@.len() ==> (#[trigger] gs@[g])@.len() > 0,
            forall|g: int, i: int|
                0 <= g < gs@.len() && 0 <= i < gs@[g]@.len() ==> #[trigger] gs@[g]@[i] < hs@.len(),
            r@.len() == shared(all.take(g as int)).len(),
            forall|k: int|
                0 <= k < r@.len() ==> (#[trigger] r@[k])@ == cluster_at(
                    hv,
                    shared(all.take(g as int))[k],
                ),
        decreases gs.len() - g,
    {
        assert(all.take(g + 1).drop_last() =~= all.take(g as int));
        assert(all.take(g + 1).last() == gs@[g as int]@);
        if gs[g].len() >= 2 {
            let ghost before = r@;
            assert forall|i: int| 0 <= i < gs@[g as int]@.len() implies #[trigger] gs@[g as int]@[i]
                < hs@.len() by {
                assert(gs@[g as int]@[i] < hs@.len());
            }
            let c = cluster_of(&hs, &gs[g]);
            r.push(c);
            assert forall|k: int| 0 <= k < r@.len() implies (#[trigger] r@[k])@ == cluster_at(
                hv,
                shared(all.take(g + 1))[k],
            ) by {
                if k < before.len() {
                    assert(r@[k] == before[k]);
                }
            }
        }
        g += 1;
    }
    assert(all.take(g as int) =~= all);
    assert(clusters_view(r@) =~= hash_clusters(hv));
    r
}

/// Whether comparing the files of a cluster with its first one may come out as `verdict`: all
/// are equal to it, or some file is not.
pub open spec fn may_verify<F: Fn(usize, usize) -> bool>(
    equal: F,
    files: Seq<usize>,
    verdict: bool,
) -> bool {
    if verdict {
        files.len() >= 2 && forall|j: int|
            1 <= j < files.len() ==> call_ensures(equal, (#[trigger] files[j], files[0]), true)
    } else {
        files.len() < 2 || exists|j: int|
            1 <= j < files.len() && call_ensures(equal, (#[trigger] files[j], files[0]), false)
    }
}

/// Whether all files of a cluster are equal to its first one, up to the first that is not.
/// `equal` compares the contents of two files.
pub fn byte_verify_cluster<F: Fn(usize, usize) -> bool>(files: &Vec<usize>, equal: &F) -> (r: bool)
    requires
        forall|a: usize, b: usize| call_requires(*equal, (a, b)),
    ensures
        may_verify(*equal, files@, r),
{
    if files.len() < 2 {
        return false;
    }
    let mut j: usize = 1;
    while j < files.len()
        invariant
            1 <= j <= files.len(),
            forall|a: usize, b: usize| call_requires(*equal, (a, b)),
            forall|k: int|
                1 <= k < j ==> call_ensures(*equal, (#[trigger] files@[k], files@[0]), true),
        decreases files.len() - j,
    {
        if !equal(files[j], files[0]) {
            assert(call_ensures(*equal, (files@[j as int], files@[0]), false));
            return false;
        }
        j += 1;
    }
    true
}

/// Those of a list of clusters whose verdict is true.
pub open spec fn verified(cs: Seq<ClusterView>, verdicts: Seq<bool>) -> Seq<ClusterView>
    decreases cs.len(),
{
    if cs.len() == 0 {
        Seq::empty()
    } else {
        let k = cs.len() - 1;
        if verdicts[k] {
            verified(cs.drop_last(), verdicts).push(cs.last())
        } else {
            verified(cs.drop_last(), verdicts)
        }
    }
}

/// Verdicts that comparing may give, cluster by cluster.
pub open spec fn may_verify_all<F: Fn(usize, usize) -> bool>(
    equal: F,
    cs: Seq<ClusterView>,
    verdicts: Seq<bool>,
) -> bool {
    &&& verdicts.len() == cs.len()
    &&& forall|k: int|
        0 <= k < cs.len() ==> may_verify(equal, (#[trigger] cs[k]).0, verdicts[k])
}

proof fn lemma_verified_prefix(cs: Seq<ClusterView>, v: Seq<bool>, b: bool, k: int)
    requires
        0 <= k <= v.len(),
        k <= cs.len(),
    ensures
        verified(cs.take(k), v.push(b)) == verified(cs.take(k), v),
    decreases k,
{
    if k > 0 {
        assert(cs.take(k).drop_last() =~= cs.take(k - 1));
        lemma_verified_prefix(cs, v, b, k - 1);
    }
}

/// Which of the given files have the same content: they have the same fingerprint, and byte by
/// byte none differs from the first of them.
pub fn verify_identical<F: Fn(usize, usize) -> bool>(
    files: &Vec<HashedFile>,
    equal: &F,
) -> (r: Vec<Cluster>)
    requires
        forall|a: usize, b: usize| call_requires(*equal, (a, b)),
    ensures
        exists|verdicts: Seq<bool>| #[trigger]
            may_verify_all(*equal, hash_clusters(readable(files@)), verdicts) && clusters_view(r@)
                == verified(hash_clusters(readable(files@)), verdicts),
{
    let mut back = cluster_by_hash(files);
    let ghost cs = clusters_view(back@);
    let mut all: Vec<Cluster> = Vec::new();
    // Turned round, so that the clusters can be taken off the end in their order.
    while back.len() > 0
        invariant
            all@.len() + back@.len() == cs.len(),
            forall|k: int| 0 <= k < back@.len() ==> (#[trigger] back@[k])@ == cs[k],
            forall|k: int| 0 <= k < all@.len() ==> (#[trigger] all@[k])@ == cs[cs.len() - 1 - k],
        decreases back@.len(),
    {
        match back.pop() {
            Some(c) => all.push(c),
            None => {},
        }
    }
    let mut r: Vec<Cluster> = Vec::new();
    let ghost mut verdicts: Seq<bool> = Seq::empty();
    let ghost mut done: int = 0;
    assert(clusters_view(r@) =~= verified(cs.take(0), verdicts));
    while all.len() > 0
        invariant
            done + all@.len() == cs.len(),
            0 <= done <= cs.len(),
            verdicts.len() == done,
            forall|a: usize, b: usize| call_requires(*equal, (a, b)),
            forall|k: int| 0 <= k < all@.len() ==> (#[trigger] all@[k])@ == cs[cs.len() - 1 - k],
            forall|k: int|
                0 <= k < done ==> may_verify(*equal, (#[trigger] cs[k]).0, verdicts[k]),
            clusters_view(r@) == verified(cs.take(done), verdicts),
        decreases all@.len(),
    {
        let ghost before = r@;
        match all.pop() {
            Some(c) => {
                assert(c@ == cs[done]);
                let ok = byte_verify_cluster(&c.file_indices, equal);
                proof {
                    lemma_verified_prefix(cs, verdicts, ok, done);
                    assert(cs.take(done + 1).drop_last() =~= cs.take(done));
                    assert(cs.take(done + 1).last() == cs[done]);
                    verdicts = verdicts.push(ok);
                    done = done + 1;
                }
                if ok {
                    r.push(c);
                    assert(clusters_view(r@) =~= clusters_view(before).push(c@));
                }
            },
            None => {},
        }
    }
    proof {
        assert(cs.take(done) =~= cs);
        assert(may_verify_all(*equal, cs, verdicts));
    }
    r
}

/// The groups that the clusters of one size make: those with two files or more.
pub open spec fn groups_of_size(size: u64, cs: Seq<ClusterView>) -> Seq<DuplicateView>
    decreases cs.len(),
{
    if cs.len() == 0 {
        Seq::empty()
    } else {
        let rest = groups_of_size(size, cs.drop_last());
        if cs.last().0.len() >= 2 {
            rest.push(
                DuplicateView { size, hash_hex: cs.last().1, file_indices: cs.last().0 },
            )
        } else {
            rest
        }
    }
}

/// The groups that the answers for all groups of candidates make.
pub open spec fn duplicates_of(
    gs: Seq<(u64, Seq<usize>)>,
    answers: Seq<Seq<ClusterView>>,
) -> Seq<DuplicateView>
    decreases gs.len(),
{
    if gs.len() == 0 {
        Seq::empty()
    } else {
        let k = gs.len() - 1;
        duplicates_of(gs.drop_last(), answers) + groups_of_size(
            gs[k].0,
            if k < answers.len() {
                answers[k]
            } else {
                Seq::empty()
            },
        )
    }
}

/// What a list of answers holds.
pub open spec fn answers_view(v: Seq<Vec<Cluster>>) -> Seq<Seq<ClusterView>> {
    Seq::new(v.len(), |i: int| clusters_view(v[i]@))
}

fn copy_cluster(size: u64, c: &Cluster) -> (r: DuplicateGroup)
    ensures
        r@ == (DuplicateView { size, hash_hex: c@.1, file_indices: c@.0 }),
{
    let file_indices = c.file_indices.clone();
    assert(file_indices@ == c.file_indices@);
    let hash_hex = match &c.hash_hex {
        Some(h) => Some(h.clone()),
        None => None,
    };
    DuplicateGroup { size, hash_hex, file_indices }
}

/// The groups that the answers for all groups of candidates make: those with two files or more.
pub fn collect_duplicates(gs: &Vec<SizeGroup>, answers: &Vec<Vec<Cluster>>) -> (r: Vec<
    DuplicateGroup,
>)
    ensures
        duplicates_view(r@) == duplicates_of(size_groups_view(gs@), answers_view(answers@)),
{
    let ghost gv = size_groups_view(gs@);
    let ghost av = answers_view(answers@);
    let mut r: Vec<DuplicateGroup> = Vec::new();
    let mut g: usize = 0;
    assert(duplicates_view(r@) =~= duplicates_of(gv.take(0), av));
    while g < gs.len()
        invariant
            g <= gs.len(),
            gv == size_groups_view(gs@),
            av == answers_view(answers@),
            duplicates_view(r@) == duplicates_of(gv.take(g as int), av),
        decreases gs.len() - g,
    {
        let ghost done = duplicates_view(r@);
        let size: u64 = gs[g].size;
        assert(gv.take(g + 1).drop_last() =~= gv.take(g as int));
        assert(gv.take(g + 1)[g as int] == gv[g as int]);
        if g < answers.len() {
            let cs = &answers[g];
            let ghost cv = clusters_view(cs@);
            let mut i: usize = 0;
            assert(done + groups_of_size(size, cv.take(0)) =~= done);
            while i < cs.len()
                invariant
                    i <= cs.len(),
                    cv == clusters_view(cs@),
                    duplicates_view(r@) == done + groups_of_size(size, cv.take(i as int)),
                decreases cs.len() - i,
            {
                assert(cv.take(i + 1).drop_last() =~= cv.take(i as int));
                assert(cv.take(i + 1).last() == cs@[i as int]@);
                if cs[i].file_indices.len() >= 2 {
                    let ghost before = r@;
                    let d = copy_cluster(size, &cs[i]);
                    r.push(d);
                    assert(duplicates_view(r@) =~= duplicates_view(before).push(d@));
                    assert(duplicates_view(r@) =~= done + groups_of_size(size, cv.take(i + 1)));
                }
                i += 1;
            }
            assert(cv.take(i as int) =~= cv);
        } else {
            assert(done + groups_of_size(size, Seq::<ClusterView>::empty()) =~= done);
        }
        g += 1;
    }
    assert(gv.take(g as int) =~= gv);
    r
}

/// A course that the search may take: what reading the starts gave, and what looking closely
/// gave for the groups that are left, none where there are none.
pub open spec fn may_find<P: Fn(&Vec<HeaderJob>) -> Vec<Option<u64>>, C: Fn(
    &Vec<SizeGroup>,
) -> Vec<Vec<Cluster>>>(
    jobs: Seq<(usize, u64)>,
    prefilter: P,
    confirm: C,
    hashes: Seq<Option<u64>>,
    answers: Seq<Seq<ClusterView>>,
) -> bool {
    &&& exists|j: Vec<HeaderJob>, h: Vec<Option<u64>>|
        jobs_view(j@) == jobs && h@ == hashes && #[trigger] call_ensures(prefilter, (&j,), h)
    &&& header_groups(headers_of(jobs, hashes)).len() > 0 ==> exists|
        g: Vec<SizeGroup>,
        a: Vec<Vec<Cluster>>,
    |
        size_groups_view(g@) == header_groups(headers_of(jobs, hashes)) && answers_view(a@)
            == answers && #[trigger] call_ensures(confirm, (&g,), a)
}

/// Finds files with the same content among files of the same size. `prefilter` reads the start
/// of each file, `confirm` tells for each group that is left which files are the same.
pub fn find_duplicates<P: Fn(&Vec<HeaderJob>) -> Vec<Option<u64>>, C: Fn(
    &Vec<SizeGroup>,
) -> Vec<Vec<Cluster>>>(size_groups: &Vec<SizeGroup>, prefilter: &P, confirm: &C) -> (r: Vec<
    DuplicateGroup,
>)
    requires
        forall|j: &Vec<HeaderJob>| call_requires(*prefilter, (j,)),
        forall|g: &Vec<SizeGroup>| call_requires(*confirm, (g,)),
    ensures
        ({
            let jobs = all_jobs(size_groups_view(size_groups@));
            if jobs.len() == 0 {
                r@.len() == 0
            } else {
                exists|hashes: Seq<Option<u64>>, answers: Seq<Seq<ClusterView>>| #[trigger]
                    may_find(jobs, *prefilter, *confirm, hashes, answers) && duplicates_view(r@)
                        == duplicates_of(header_groups(headers_of(jobs, hashes)), answers)
            }
        }),
{
    let jobs = header_jobs(size_groups);
    let ghost jv = jobs_view(jobs@);
    assert(jv.len() == jobs@.len());
    if jobs.len() == 0 {
        return Vec::new();
    }
    let hashes = prefilter(&jobs);
    let gs = confirm_groups(&jobs, &hashes);
    if gs.len() == 0 {
        let r: Vec<DuplicateGroup> = Vec::new();
        proof {
            assert(size_groups_view(gs@).len() == 0);
            assert(may_find(jv, *prefilter, *confirm, hashes@, Seq::empty()));
            assert(duplicates_view(r@) =~= duplicates_of(size_groups_view(gs@), Seq::empty()));
        }
        return r;
    }
    let answers = confirm(&gs);
    let r = collect_duplicates(&gs, &answers);
    proof {
        assert(may_find(jv, *prefilter, *confirm, hashes@, answers_view(answers@)));
    }
    r
}

/// How many files some groups hold.
pub open spec fn files_in(gs: Seq<(u64, Seq<usize>)>) -> nat
    decreases gs.len(),
{
    if gs.len() == 0 {
        0
    } else {
        files_in(gs.drop_last()) + gs.last().1.len()
    }
}

/// How many files some groups hold, if the number fits.
pub fn count_files(gs: &Vec<SizeGroup>) -> (r: Option<u64>)
    ensures
        r == if files_in(size_groups_view(gs@)) <= u64::MAX {
            Some(files_in(size_groups_view(gs@)) as u64)
        } else {
            None::<u64>
        },
{
    let ghost gv = size_groups_view(gs@);
    let mut n: u64 = 0;
    let mut i: usize = 0;
    while i < gs.len()
        invariant
            i <= gs.len(),
            gv == size_groups_view(gs@),
            n == files_in(gv.take(i as int)),
        decreases gs.len() - i,
    {
        proof {
            assert(gv.take(i + 1).drop_last() =~= gv.take(i as int));
            assert(gv.take(i + 1).last() == gv[i as int]);
            lemma_files_grow(gv, i + 1);
        }
        let more: u64 = gs[i].members.len() as u64;
        if more > u64::MAX - n {
            return None;
        }
        n = n + more;
        i += 1;
    }
    assert(gv.take(i as int) =~= gv);
    Some(n)
}

proof fn lemma_files_grow(gs: Seq<(u64, Seq<usize>)>, k: int)
    requires
        0 <= k <= gs.len(),
    ensures
        files_in(gs.take(k)) <= files_in(gs),
    decreases gs.len() - k,
{
    if k < gs.len() {
        lemma_files_grow(gs, k + 1);
        assert(gs.take(k + 1).drop_last() =~= gs.take(k));
    } else {
        assert(gs.take(k) =~= gs);
    }
}

/// How many positions some lists hold.
spec fn positions_in(ls: Seq<Seq<usize>>) -> nat
    decreases ls.len(),
{
    if ls.len() == 0 {
        0
    } else {
        positions_in(ls.drop_last()) + ls.last().len()
    }
}

proof fn lemma_runs_hold<V>(keys: Seq<V>, order: Seq<usize>)
    ensures
        positions_in(runs(keys, order)) == order.len(),
    decreases order.len(),
{
    if order.len() > 0 {
        lemma_runs_hold(keys, order.drop_last());
        let r = runs(keys, order.drop_last());
        let i = order.last();
        if r.len() > 0 && keys[r.last().last() as int] == keys[i as int] {
            assert(r.drop_last().push(r.last().push(i)).drop_last() =~= r.drop_last());
        } else {
            assert(r.push(seq![i]).drop_last() =~= r);
        }
    }
}

proof fn lemma_shared_hold(ls: Seq<Seq<usize>>)
    ensures
        positions_in(shared(ls)) <= positions_in(ls),
    decreases ls.len(),
{
    if ls.len() > 0 {
        lemma_shared_hold(ls.drop_last());
        if ls.last().len() >= 2 {
            assert(shared(ls).drop_last() =~= shared(ls.drop_last()));
        }
    }
}

proof fn lemma_headers_fewer(jobs: Seq<(usize, u64)>, hashes: Seq<Option<u64>>)
    ensures
        headers_of(jobs, hashes).len() <= jobs.len(),
    decreases jobs.len(),
{
    if jobs.len() > 0 {
        lemma_headers_fewer(jobs.drop_last(), hashes);
    }
}

proof fn lemma_groups_hold(hs: Seq<Header>, ls: Seq<Seq<usize>>, gs: Seq<(u64, Seq<usize>)>)
    requires
        gs == Seq::new(ls.len(), |g: int| header_group(hs, ls[g])),
    ensures
        files_in(gs) == positions_in(ls),
    decreases ls.len(),
{
    if ls.len() > 0 {
        assert(gs.drop_last() =~= Seq::new(
            ls.drop_last().len(),
            |g: int| header_group(hs, ls.drop_last()[g]),
        ));
        lemma_groups_hold(hs, ls.drop_last(), gs.drop_last());
    }
}

/// No more files are looked at closely than had their start read.
pub proof fn law_second_phase_is_no_larger(jobs: Seq<(usize, u64)>, hashes: Seq<Option<u64>>)
    ensures
        files_in(header_groups(headers_of(jobs, hashes))) <= jobs.len(),
{
    let hs = headers_of(jobs, hashes);
    let lt = |a: (u64, u64), b: (u64, u64)| pair_before(a, b);
    let ls = groups(header_keys(hs), lt);
    let order = stable_sort(positions(hs.len()), by_key(header_keys(hs), lt));
    lemma_headers_fewer(jobs, hashes);
    lemma_runs_hold(header_keys(hs), order);
    lemma_shared_hold(ls);
    lemma_groups_hold(hs, shared(ls), header_groups(hs));
    law_sort_permutes(positions(hs.len()), by_key(header_keys(hs), lt));
    positions(hs.len()).to_multiset_ensures();
    order.to_multiset_ensures();
    assert(order.len() == positions(hs.len()).len());
}

/// Whether two files are known to have the same length.
pub fn lengths_match(a: Option<u64>, b: Option<u64>) -> (r: bool)
    ensures
        r == (a is Some && b is Some && a == b),
{
    match (a, b) {
        (Some(x), Some(y)) => x == y,
        _ => false,
    }
}

/// Whether two files are known to have different lengths.
pub fn lengths_differ(a: Option<u64>, b: Option<u64>) -> (r: bool)
    ensures
        r == (a is Some && b is Some && a != b),
{
    match (a, b) {
        (Some(x), Some(y)) => x != y,
        _ => false,
    }
}

/// How a comparison stands after a piece.
#[derive(Clone, Copy, Debug, PartialEq, Eq, Structural)]
pub enum Verdict {
    Same,
    Different,
    /// Everything read so far agrees; more is to come.
    More,
}

/// A comparison of a file, read piece by piece, with content that is in memory.
pub struct ContentCheck {
    pos: usize,
    seen: Ghost<Seq<u8>>,
}

impl View for ContentCheck {
    type V = Seq<u8>;

    /// What was read of the file so far.
    closed spec fn view(&self) -> Seq<u8> {
        self.seen@
    }
}

impl ContentCheck {
    /// What was read so far agrees with the content.
    pub closed spec fn agrees(&self, content: Seq<u8>) -> bool {
        self.pos <= content.len() && self.seen@ == content.take(self.pos as int)
    }

    /// Nothing read yet.
    pub fn new() -> (r: Self)
        ensures
            r@ == Seq::<u8>::empty(),
            forall|content: Seq<u8>| r.agrees(content),
    {
        let r = ContentCheck { pos: 0, seen: Ghost(Seq::empty()) };
        assert forall|content: Seq<u8>| r.agrees(content) by {
            assert(r.seen@ =~= content.take(0));
        }
        r
    }

    /// Takes the next piece; an empty one is the end of the file.
    pub fn feed(&mut self, content: &[u8], piece: &[u8]) -> (v: Verdict)
        requires
            old(self).agrees(content@),
        ensures
            piece@.len() == 0 ==> final(self)@ == old(self)@ && v == if old(self)@ == content@ {
                Verdict::Same
            } else {
                Verdict::Different
            },
            piece@.len() > 0 && (old(self)@ + piece@).is_prefix_of(content@) ==> v == Verdict::More
                && final(self)@ == old(self)@ + piece@,
            piece@.len() > 0 && !(old(self)@ + piece@).is_prefix_of(content@) ==> v
                == Verdict::Different && final(self)@ == old(self)@,
            final(self).agrees(content@),
    {
        let n: usize = piece.len();
        let len: usize = content.len();
        let ghost seen = self.seen@;
        assert(seen.len() == self.pos);
        if n == 0 {
            proof {
                if self.pos == len {
                    assert(seen =~= content@);
                }
            }
            return if self.pos == len {
                Verdict::Same
            } else {
                Verdict::Different
            };
        }
        if n > len - self.pos {
            return Verdict::Different;
        }
        let window = slice_subrange(content, self.pos, self.pos + n);
        if !bytes_eq(window, piece) {
            proof {
                if (seen + piece@).is_prefix_of(content@) {
                    assert((seen + piece@).subrange(self.pos as int, self.pos + n) =~= piece@);
                    assert(window@ =~= piece@) by {
                        assert forall|k: int| 0 <= k < n implies window@[k] == piece@[k] by {
                            assert((seen + piece@)[self.pos + k] == content@[self.pos + k]);
                        }
                    }
                }
            }
            return Verdict::Different;
        }
        self.pos = self.pos + n;
        self.seen = Ghost(seen + piece@);
        proof {
            assert(self.seen@ =~= content@.take(self.pos as int));
            assert((seen + piece@).is_prefix_of(content@));
        }
        Verdict::More
    }
}

/// A file that stopped agreeing with some content is not equal to it, whatever else it holds.
pub proof fn law_difference_is_final(content: Seq<u8>, read: Seq<u8>, rest: Seq<u8>)
    requires
        !read.is_prefix_of(content),
    ensures
        read + rest != content,
{
    if read + rest == content {
        assert(read =~= content.subrange(0, read.len() as int));
    }
}

/// Compares the next pieces of two files that are read side by side, each filled up as far as
/// its file goes; an empty piece is the end.
pub fn compare_pieces(a: &[u8], b: &[u8]) -> (v: Verdict)
    ensures
        v == if a@ != b@ {
            Verdict::Different
        } else if a@.len() == 0 {
            Verdict::Same
        } else {
            Verdict::More
        },
{
    if !bytes_eq(a, b) {
        Verdict::Different
    } else if a.len() == 0 {
        Verdict::Same
    } else {
        Verdict::More
    }
}

/// The largest file that is kept in memory for comparing.
pub const MAX_CACHE_BYTES: u64 = 67_108_864;

/// How much is kept in memory for comparing in all.
pub const TOTAL_CACHE_BUDGET_BYTES: u64 = 268_435_456;

/// How much of a file is read at a time.
pub const IO_BUF_BYTES: usize = 262_144;

/// Whether to keep a file in memory for comparing: it is not too large, and there is not too
/// much in memory already.
pub fn may_cache(len: u64, cached: u64) -> (r: bool)
    ensures
        r == (len <= MAX_CACHE_BYTES && cached < TOTAL_CACHE_BUDGET_BYTES),
{
    len <= MAX_CACHE_BYTES && cached < TOTAL_CACHE_BUDGET_BYTES
}

/// How many threads to use: two for each processor, four processors where the number is not
/// known, and never less than two.
pub fn worker_thread_count(processors: Option<usize>) -> (r: usize)
    ensures
        r == ({
            let n = match processors {
                Some(n) => n as int,
                None => 4,
            };
            if n == 0 {
                2
            } else if 2 * n > usize::MAX {
                usize::MAX as int
            } else {
                2 * n
            }
        }),
{
    let n: usize = match processors {
        Some(n) => n,
        None => 4,
    };
    if n == 0 {
        2
    } else if n > usize::MAX / 2 {
        usize::MAX
    } else {
        2 * n
    }
}

/// Whether to report progress: at the end, and else every 50 ms.
pub fn report_due(received: u64, total: u64, since_last_ms: u64) -> (r: bool)
    ensures
        r == (received == total || since_last_ms >= 50),
{
    received == total || since_last_ms >= 50
}

proof fn lemma_groups_of_size_share(size: u64, cs: Seq<ClusterView>)
    ensures
        forall|g: int|
            0 <= g < groups_of_size(size, cs).len() ==> (#[trigger] groups_of_size(
                size,
                cs,
            )[g]).file_indices.len() >= 2 && groups_of_size(size, cs)[g].size == size,
    decreases cs.len(),
{
    if cs.len() > 0 {
        lemma_groups_of_size_share(size, cs.drop_last());
    }
}

/// Nothing is reported that has no copy: every group has two files or more.
pub proof fn law_groups_have_two_files(
    gs: Seq<(u64, Seq<usize>)>,
    answers: Seq<Seq<ClusterView>>,
)
    ensures
        forall|g: int|
            0 <= g < duplicates_of(gs, answers).len() ==> (#[trigger] duplicates_of(
                gs,
                answers,
            )[g]).file_indices.len() >= 2,
    decreases gs.len(),
{
    if gs.len() > 0 {
        law_groups_have_two_files(gs.drop_last(), answers);
        let k = gs.len() - 1;
        lemma_groups_of_size_share(
            gs[k].0,
            if k < answers.len() {
                answers[k]
            } else {
                Seq::empty()
            },
        );
    }
}

/// What is kept of the clusters was compared byte by byte: every file of it with the first.
pub proof fn law_kept_clusters_were_compared<F: Fn(usize, usize) -> bool>(
    equal: F,
    cs: Seq<ClusterView>,
    verdicts: Seq<bool>,
)
    requires
        may_verify_all(equal, cs, verdicts),
    ensures
        forall|k: int|
            0 <= k < verified(cs, verdicts).len() ==> may_verify(
                equal,
                (#[trigger] verified(cs, verdicts)[k]).0,
                true,
            ),
{
    lemma_kept_were_compared(equal, cs, verdicts, cs.len() as int);
    assert(cs.take(cs.len() as int) =~= cs);
}

proof fn lemma_kept_were_compared<F: Fn(usize, usize) -> bool>(
    equal: F,
    cs: Seq<ClusterView>,
    verdicts: Seq<bool>,
    n: int,
)
    requires
        may_verify_all(equal, cs, verdicts),
        0 <= n <= cs.len(),
    ensures
        forall|k: int|
            0 <= k < verified(cs.take(n), verdicts).len() ==> may_verify(
                equal,
                (#[trigger] verified(cs.take(n), verdicts)[k]).0,
                true,
            ),
    decreases n,
{
    if n > 0 {
        lemma_kept_were_compared(equal, cs, verdicts, n - 1);
        assert(cs.take(n).drop_last() =~= cs.take(n - 1));
        assert(cs.take(n).last() == cs[n - 1]);
        let kept = verified(cs.take(n), verdicts);
        let before = verified(cs.take(n - 1), verdicts);
        assert forall|k: int| 0 <= k < kept.len() implies may_verify(
            equal,
            (#[trigger] kept[k]).0,
            true,
        ) by {
            if k < before.len() {
                assert(kept[k] == before[k]);
            } else {
                assert(kept[k] == cs[n - 1]);
                assert(verdicts[n - 1]);
            }
        }
    }
}

} // verus!
