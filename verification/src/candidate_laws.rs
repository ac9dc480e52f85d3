//! That every file of a tree is gathered, once and under its own path, whichever folder it lies
//! in.

use vstd::prelude::*;

use crate::dedup_laws::{are_together, lemma_groups_are_classes, lemma_shared_one};
use crate::file_groups::{
    files_below, files_of, files_of_children, shared_groups, sizes_of, sub_path,
    DuplicateCandidates, RootAt,
};
use crate::grouping::{groups, in_group, is_connected, law_groups_go_by_key, positions};
use crate::model::{forest_view, NodeKind, NodeView};
use crate::sorting::is_order;
use crate::text::trim_end;
use crate::text_laws::{is_bare, law_trim_end_takes_the_end};

verus! {

/// What is reached from a node by going from folder to child, the numbers of the children given.
pub open spec fn reached(n: NodeView, steps: Seq<int>) -> Option<NodeView>
    decreases steps.len(),
{
    if steps.len() == 0 {
        Some(n)
    } else if n.kind == NodeKind::Folder && 0 <= steps[0] < n.children.len() {
        reached(n.children[steps[0]], steps.skip(1))
    } else {
        None
    }
}

/// The path of what is reached from a node at `path`: a backslash and a name for each step, and
/// no backslash at the very start.
pub open spec fn path_reached(path: Seq<char>, n: NodeView, steps: Seq<int>) -> Seq<char>
    decreases steps.len(),
{
    if steps.len() == 0 {
        path
    } else {
        let c = n.children[steps[0]];
        path_reached(
            if path.len() == 0 {
                c.name
            } else {
                path + seq!['\\'] + c.name
            },
            c,
            steps.skip(1),
        )
    }
}

/// Where something is: in which of several trees, and by which steps from its root.
pub struct Place {
    pub tree: int,
    pub steps: Seq<int>,
}

/// Whether a place is that of a file no smaller than `least`.
pub open spec fn is_file_at(roots: Seq<RootAt<'_>>, least: int, p: Place) -> bool {
    &&& 0 <= p.tree < roots.len()
    &&& match reached(roots[p.tree].node@, p.steps) {
        Some(f) => f.kind == NodeKind::File && f.logical_size >= least,
        None => false,
    }
}

/// Whether a text is the path of a place: that of the root, without backslashes at its end, and
/// the names down to it.
pub open spec fn is_path_of(path: Seq<char>, roots: Seq<RootAt<'_>>, p: Place) -> bool {
    exists|folder: Seq<char>| #[trigger]
        is_bare(folder, roots[p.tree].path@) && path == path_reached(
            folder,
            roots[p.tree].node@,
            p.steps,
        )
}

/// Whether a file is the one at a place, with its path.
pub open spec fn is_file_of(file: NodeView, roots: Seq<RootAt<'_>>, p: Place) -> bool {
    &&& file.full_path_override is Some
    &&& is_path_of(file.full_path_override->0, roots, p)
    &&& reached(roots[p.tree].node@, p.steps) is Some
    &&& file == (NodeView {
        full_path_override: file.full_path_override,
        ..reached(roots[p.tree].node@, p.steps)->0
    })
}

/// Whether a list holds every file no smaller than `least` of several trees, each once, and
/// nothing else. `places` says where each of the list is.
pub open spec fn is_listing(
    roots: Seq<RootAt<'_>>,
    least: int,
    files: Seq<NodeView>,
    places: Seq<Place>,
) -> bool {
    &&& places.len() == files.len()
    &&& forall|i: int|
        0 <= i < files.len() ==> is_file_at(roots, least, #[trigger] places[i]) && is_file_of(
            files[i],
            roots,
            places[i],
        )
    &&& forall|i: int, j: int|
        0 <= i < j < places.len() ==> #[trigger] places[i] != #[trigger] places[j]
    &&& forall|p: Place| #[trigger] is_file_at(roots, least, p) ==> places.contains(p)
}

spec fn is_wanted(n: NodeView, least: int, steps: Seq<int>) -> bool {
    match reached(n, steps) {
        Some(f) => f.kind == NodeKind::File && f.logical_size >= least,
        None => false,
    }
}

spec fn is_taken(n: NodeView, path: Seq<char>, steps: Seq<int>, file: NodeView) -> bool {
    &&& reached(n, steps) is Some
    &&& file == (NodeView {
        full_path_override: Some(path_reached(path, n, steps)),
        ..reached(n, steps)->0
    })
}

proof fn lemma_step(n: NodeView, path: Seq<char>, k: int, rest: Seq<int>)
    requires
        n.kind == NodeKind::Folder,
        0 <= k < n.children.len(),
    ensures
        reached(n, seq![k] + rest) == reached(n.children[k], rest),
        path_reached(path, n, seq![k] + rest) == path_reached(
            sub_path(path, n.children[k].name),
            n.children[k],
            rest,
        ),
{
    assert((seq![k] + rest).skip(1) =~= rest);
    assert(path.push('\\') + n.children[k].name =~= path + seq!['\\'] + n.children[k].name);
}

proof fn lemma_below(n: NodeView, path: Seq<char>, least: u64) -> (at: Seq<Seq<int>>)
    ensures
        at.len() == files_below(n, path, least).len(),
        forall|i: int|
            0 <= i < at.len() ==> is_wanted(n, least as int, #[trigger] at[i]) && is_taken(
                n,
                path,
                at[i],
                files_below(n, path, least)[i],
            ),
        forall|i: int, j: int| 0 <= i < j < at.len() ==> #[trigger] at[i] != #[trigger] at[j],
        forall|steps: Seq<int>| #[trigger]
            is_wanted(n, least as int, steps) ==> at.contains(steps),
    decreases n, n.children.len() + 1,
{
    if n.is_file() {
        let none = Seq::<int>::empty();
        let at = if n.logical_size >= least {
            seq![none]
        } else {
            Seq::empty()
        };
        assert forall|steps: Seq<int>| #[trigger]
            is_wanted(n, least as int, steps) implies at.contains(steps) by {
            assert(steps =~= none);
            assert(at[0] == none);
        }
        at
    } else {
        let at = lemma_below_children(n, n.children.len() as int, path, least);
        assert forall|steps: Seq<int>| #[trigger]
            is_wanted(n, least as int, steps) implies at.contains(steps) by {
            assert(n.kind == NodeKind::Folder);
            assert(steps.len() > 0);
        }
        at
    }
}

proof fn lemma_below_children(n: NodeView, k: int, path: Seq<char>, least: u64) -> (at: Seq<
    Seq<int>,
>)
    requires
        n.kind == NodeKind::Folder,
        0 <= k <= n.children.len(),
    ensures
        at.len() == files_of_children(n, k, path, least).len(),
        forall|i: int|
            0 <= i < at.len() ==> is_wanted(n, least as int, #[trigger] at[i]) && is_taken(
                n,
                path,
                at[i],
                files_of_children(n, k, path, least)[i],
            ) && at[i].len() > 0 && at[i][0] < k,
        forall|i: int, j: int| 0 <= i < j < at.len() ==> #[trigger] at[i] != #[trigger] at[j],
        forall|steps: Seq<int>| #[trigger]
            is_wanted(n, least as int, steps) && steps.len() > 0 && steps[0] < k ==> at.contains(
                steps,
            ),
    decreases n, k,
{
    if k == 0 {
        Seq::empty()
    } else {
        let c = n.children[k - 1];
        let sub = sub_path(path, c.name);
        let inner = lemma_below(c, sub, least);
        let more = lemma_below_children(n, k - 1, path, least);
        let first = Seq::new(inner.len(), |i: int| seq![k - 1] + inner[i]);
        let at = first + more;
        assert forall|i: int| 0 <= i < at.len() implies is_wanted(
            n,
            least as int,
            #[trigger] at[i],
        ) && is_taken(n, path, at[i], files_of_children(n, k, path, least)[i]) && at[i].len() > 0
            && at[i][0] < k by {
            if i < first.len() {
                lemma_step(n, path, k - 1, inner[i]);
                assert(at[i] == seq![k - 1] + inner[i]);
                assert(is_wanted(c, least as int, inner[i]));
            } else {
                assert(at[i] == more[i - first.len()]);
            }
        }
        assert forall|i: int, j: int| 0 <= i < j < at.len() implies #[trigger] at[i]
            != #[trigger] at[j] by {
            if j < first.len() {
                assert(at[i].skip(1) =~= inner[i]);
                assert(at[j].skip(1) =~= inner[j]);
                assert(inner[i] != inner[j]);
            } else if i < first.len() {
                assert(at[j] == more[j - first.len()]);
                assert(at[i][0] == k - 1);
            } else {
                assert(at[i] == more[i - first.len()]);
                assert(at[j] == more[j - first.len()]);
            }
        }
        assert forall|steps: Seq<int>| #[trigger]
            is_wanted(n, least as int, steps) && steps.len() > 0 && steps[0] < k implies at.contains(
            steps,
        ) by {
            if steps[0] == k - 1 {
                assert(is_wanted(c, least as int, steps.skip(1)));
                assert(inner.contains(steps.skip(1)));
                let i = choose|i: int| 0 <= i < inner.len() && inner[i] == steps.skip(1);
                assert(at[i] =~= steps);
            } else {
                assert(more.contains(steps));
                let i = choose|i: int| 0 <= i < more.len() && more[i] == steps;
                assert(at[first.len() + i] == steps);
            }
        }
        at
    }
}

proof fn lemma_listing(roots: Seq<RootAt<'_>>, least: u64) -> (places: Seq<Place>)
    ensures
        is_listing(roots, least as int, files_of(roots, least), places),
    decreases roots.len(),
{
    if roots.len() == 0 {
        Seq::empty()
    } else {
        let front = roots.drop_last();
        let last = roots.len() - 1;
        let r = roots.last();
        let folder = trim_end(r.path@, '\\');
        law_trim_end_takes_the_end(r.path@, '\\');
        assert(is_bare(folder, roots[last].path@));
        let old_places = lemma_listing(front, least);
        let at = lemma_below(r.node@, folder, least);
        let added = Seq::new(at.len(), |i: int| Place { tree: last, steps: at[i] });
        let places = old_places + added;
        let files = files_of(roots, least);
        let old_files = files_of(front, least);
        assert forall|i: int| 0 <= i < files.len() implies is_file_at(
            roots,
            least as int,
            #[trigger] places[i],
        ) && is_file_of(files[i], roots, places[i]) by {
            if i < old_places.len() {
                let p = old_places[i];
                assert(places[i] == p);
                assert(is_file_at(front, least as int, p));
                assert(front[p.tree] == roots[p.tree]);
                assert(files[i] == old_files[i]);
                assert(is_file_of(old_files[i], front, p));
                let f = choose|f: Seq<char>| #[trigger]
                    is_bare(f, front[p.tree].path@) && old_files[i].full_path_override->0
                        == path_reached(f, front[p.tree].node@, p.steps);
                assert(is_bare(f, roots[p.tree].path@));
            } else {
                let k = i - old_places.len();
                assert(places[i] == added[k]);
                assert(is_wanted(r.node@, least as int, at[k]));
                assert(is_taken(r.node@, folder, at[k], files_below(r.node@, folder, least)[k]));
                assert(files[i] == files_below(r.node@, folder, least)[k]);
            }
        }
        assert forall|i: int, j: int| 0 <= i < j < places.len() implies #[trigger] places[i]
            != #[trigger] places[j] by {
            if j < old_places.len() {
                assert(places[i] == old_places[i] && places[j] == old_places[j]);
            } else if i < old_places.len() {
                assert(is_file_at(front, least as int, old_places[i]));
                assert(places[i].tree < last);
            } else {
                let (a, b) = (i - old_places.len(), j - old_places.len());
                assert(at[a] != at[b]);
            }
        }
        assert forall|p: Place| #[trigger]
            is_file_at(roots, least as int, p) implies places.contains(p) by {
            if p.tree == last {
                assert(is_wanted(r.node@, least as int, p.steps));
                assert(at.contains(p.steps));
                let k = choose|k: int| 0 <= k < at.len() && at[k] == p.steps;
                assert(places[old_places.len() + k] == p);
            } else {
                assert(front[p.tree] == roots[p.tree]);
                assert(is_file_at(front, least as int, p));
                let k = choose|k: int| 0 <= k < old_places.len() && old_places[k] == p;
                assert(places[k] == p);
            }
        }
        places
    }
}

/// Gathering the files of several trees takes every file that is large enough, wherever it lies,
/// just once, as it is and with its own path; and it takes nothing else.
pub proof fn law_every_file_is_gathered_once(roots: Seq<RootAt<'_>>, least: u64)
    ensures
        exists|places: Seq<Place>|
            is_listing(roots, least as int, files_of(roots, least), places),
{
    let places = lemma_listing(roots, least);
}

/// The lists of a search for duplicates, one for each size.
pub open spec fn member_lists(c: DuplicateCandidates) -> Seq<Seq<usize>> {
    Seq::new(c.size_groups@.len(), |g: int| c.size_groups@[g].members@)
}

/// Whether candidates are all files of several trees that are not empty: each of them once, as
/// it is and with its path, those of one size in one list, and nothing else anywhere.
pub open spec fn are_candidates(roots: Seq<RootAt<'_>>, c: DuplicateCandidates) -> bool {
    &&& exists|places: Seq<Place>| is_listing(roots, 1, forest_view(c.nodes@), places)
    &&& c.paths@.len() == c.nodes@.len()
    &&& forall|i: int|
        0 <= i < c.nodes@.len() ==> Some((#[trigger] c.paths@[i])@)
            == c.nodes@[i]@.full_path_override
    &&& forall|g: int|
        0 <= g < c.size_groups@.len() ==> (#[trigger] c.size_groups@[g]).members@.len() >= 2
    &&& forall|g: int, i: usize| #[trigger]
        in_group(member_lists(c), g, i) ==> i < c.nodes@.len() && c.nodes@[i as int]@.logical_size
            == c.size_groups@[g].size
    &&& forall|i: usize, j: usize|
        i < c.nodes@.len() && j < c.nodes@.len() && i != j && c.nodes@[i as int]@.logical_size
            == c.nodes@[j as int]@.logical_size ==> #[trigger] are_together(member_lists(c), i, j)
    &&& forall|g: int, h: int, i: usize| #[trigger]
        in_group(member_lists(c), g, i) && #[trigger] in_group(member_lists(c), h, i) ==> g == h
}

/// The candidates of a search for duplicates are all files that are not empty, and no others:
/// each stands there once, as it is and with its own path; two files of one size, in whatever
/// folders or trees, stand in one list, and files of different sizes never do.
pub proof fn law_candidates_are_the_files(roots: Seq<RootAt<'_>>, c: DuplicateCandidates)
    requires
        c.is_of(files_of(roots, 1)),
    ensures
        are_candidates(roots, c),
{
    let places = lemma_listing(roots, 1);
    let files = files_of(roots, 1);
    let keys = sizes_of(files);
    assert(c.nodes@.len() == c.nodes.len());
    assert(forest_view(c.nodes@).len() == c.nodes@.len());
    let lists = member_lists(c);
    let lt = |a: u64, b: u64| a < b;
    let key = |i: usize| keys[i as int];
    let all = positions(files.len());
    assert(is_order(lt));
    assert(is_connected(lt));
    let sh = shared_groups(keys);
    let gv = crate::file_groups::size_groups_view(c.size_groups@);
    assert(gv == crate::file_groups::keyed(keys, sh));
    assert(lists =~= sh) by {
        assert(lists.len() == gv.len());
        assert forall|g: int| 0 <= g < lists.len() implies lists[g] == sh[g] by {
            assert(gv[g] == (c.size_groups@[g].size, c.size_groups@[g].members@));
            assert(gv[g] == (keys[sh[g][0] as int], sh[g]));
        }
    }
    law_groups_go_by_key(keys, lt);
    assert forall|g: int, x: int| 0 <= g < lists.len() && 0 <= x < lists[g].len() implies
        #[trigger] lists[g][x] == all[sh[g][x] as int] by {
        let p = lemma_shared_one(groups(keys, lt), g);
        assert(in_group(groups(keys, lt), p, sh[g][x]));
    }
    lemma_groups_are_classes(all, keys, lt, key, lists);
    assert forall|i: int| 0 <= i < c.nodes@.len() implies Some((#[trigger] c.paths@[i])@)
        == c.nodes@[i]@.full_path_override by {
        assert(forest_view(c.nodes@)[i] == c.nodes@[i]@);
    }
    assert forall|g: int| 0 <= g < c.size_groups@.len() implies (
    #[trigger] c.size_groups@[g]).members@.len() >= 2 by {
        assert(lists[g].len() >= 2);
    }
    assert forall|g: int, i: usize| #[trigger] in_group(lists, g, i) implies i < c.nodes@.len()
        && c.nodes@[i as int]@.logical_size == c.size_groups@[g].size by {
        assert(all.contains(i));
        let k = choose|k: int| 0 <= k < all.len() && all[k] == i;
        assert(key(i) == key(lists[g][0]));
        assert(gv[g] == (c.size_groups@[g].size, c.size_groups@[g].members@));
        assert(gv[g] == (keys[sh[g][0] as int], sh[g]));
        assert(forest_view(c.nodes@)[i as int] == c.nodes@[i as int]@);
    }
    assert forall|i: usize, j: usize|
        i < c.nodes@.len() && j < c.nodes@.len() && i != j && c.nodes@[i as int]@.logical_size
            == c.nodes@[j as int]@.logical_size implies #[trigger] are_together(lists, i, j) by {
        assert(all[i as int] == i);
        assert(all[j as int] == j);
        assert(all.contains(i) && all.contains(j));
        assert(forest_view(c.nodes@)[i as int] == c.nodes@[i as int]@);
        assert(forest_view(c.nodes@)[j as int] == c.nodes@[j as int]@);
        assert(key(i) == key(j));
    }
}

/// Two files that are not empty and of one size, at different places, are both candidates, and
/// stand in one list.
pub proof fn law_files_of_one_size_meet(
    roots: Seq<RootAt<'_>>,
    c: DuplicateCandidates,
    p: Place,
    q: Place,
)
    requires
        c.is_of(files_of(roots, 1)),
        is_file_at(roots, 1, p),
        is_file_at(roots, 1, q),
        p != q,
        reached(roots[p.tree].node@, p.steps)->0.logical_size == reached(
            roots[q.tree].node@,
            q.steps,
        )->0.logical_size,
    ensures
        exists|i: usize, j: usize|
            i != j && i < c.nodes@.len() && j < c.nodes@.len() && is_file_of(
                c.nodes@[i as int]@,
                roots,
                p,
            ) && is_file_of(c.nodes@[j as int]@, roots, q) && #[trigger] are_together(
                member_lists(c),
                i,
                j,
            ),
{
    law_candidates_are_the_files(roots, c);
    let places = choose|places: Seq<Place>| is_listing(roots, 1, forest_view(c.nodes@), places);
    assert(c.nodes@.len() == c.nodes.len());
    assert(places.contains(p) && places.contains(q));
    let a = choose|a: int| 0 <= a < places.len() && places[a] == p;
    let b = choose|b: int| 0 <= b < places.len() && places[b] == q;
    let (i, j) = (a as usize, b as usize);
    assert(is_file_at(roots, 1, places[a]) && is_file_at(roots, 1, places[b]));
    assert(forest_view(c.nodes@)[a] == c.nodes@[a]@);
    assert(forest_view(c.nodes@)[b] == c.nodes@[b]@);
    assert(are_together(member_lists(c), i, j));
}

} // verus!
