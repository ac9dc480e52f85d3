//! What holds of the index of a list of trees: every node below a root has its entry, parents
//! first, the entry says where the node stands, and the trees can be made again from it.

use vstd::prelude::*;

use crate::index_model::{
    assemble, count_u32, entry_count, entry_of, entry_path, fits_index, forest_count, index_from,
    index_node, index_of, index_roots, leading, lemma_forest_count, lemma_from_len, lemma_node_len,
    lemma_root_count, lemma_roots_len, level_below, linked_at, loose_nodes, node_of, rebuilt,
    root_level, root_snapshot, roots_count, snapshot, steps, under_root, well_linked, EntryView,
    Level, Loose,
};
use crate::model::{descend, NodeView};

verus! {

/// `part` stands in `es` from position `at` on.
pub open spec fn stands_at(es: Seq<EntryView>, part: Seq<EntryView>, at: int) -> bool {
    &&& 0 <= at
    &&& at + part.len() <= es.len()
    &&& forall|k: int| 0 <= k < part.len() ==> es[at + k] == #[trigger] part[k]
}

proof fn lemma_stands_split(es: Seq<EntryView>, a: Seq<EntryView>, b: Seq<EntryView>, at: int)
    requires
        stands_at(es, a + b, at),
    ensures
        stands_at(es, a, at),
        stands_at(es, b, at + a.len()),
{
    assert forall|k: int| 0 <= k < a.len() implies es[at + k] == #[trigger] a[k] by {
        assert((a + b)[k] == a[k]);
    }
    assert forall|k: int| 0 <= k < b.len() implies es[at + a.len() + k] == #[trigger] b[k] by {
        assert((a + b)[a.len() + k] == b[k]);
    }
}

/// The subtrees that a list of siblings make up.
spec fn loose_from(kids: Seq<NodeView>, i: int, level: Level) -> Seq<Loose> {
    Seq::new(
        (kids.len() - i) as nat,
        |k: int| Loose { pi: level.pi, depth: level.depth, node: snapshot(kids[i + k]) },
    )
}

proof fn lemma_leading_all(a: Seq<Loose>, b: Seq<Loose>, depth: int)
    requires
        forall|k: int| 0 <= k < a.len() ==> (#[trigger] a[k]).depth == depth,
        b.len() > 0 ==> b[0].depth != depth,
    ensures
        leading(a + b, depth) == a.len(),
    decreases a.len(),
{
    let s = a + b;
    if a.len() > 0 {
        assert(s[0] == a[0]);
        assert(s.skip(1) =~= a.skip(1) + b);
        assert forall|k: int| 0 <= k < a.skip(1).len() implies (#[trigger] a.skip(1)[k]).depth
            == depth by {
            assert(a.skip(1)[k] == a[k + 1]);
        }
        lemma_leading_all(a.skip(1), b, depth);
    } else {
        assert(s =~= b);
    }
}

proof fn lemma_assemble_first(es: Seq<EntryView>, i: int)
    requires
        0 <= i < es.len(),
    ensures
        assemble(es, i).len() > 0,
        assemble(es, i)[0].depth == es[i].depth,
{
}

proof fn lemma_assemble_node(
    es: Seq<EntryView>,
    n: NodeView,
    level: Level,
    child_idx: int,
    at: int,
)
    requires
        stands_at(es, index_node(n, level, child_idx, at), at),
        at + entry_count(n) < es.len() ==> es[at + entry_count(n)].depth <= level.depth,
    ensures
        assemble(es, at) == seq![
            Loose { pi: level.pi, depth: level.depth, node: snapshot(n) },
        ] + assemble(es, at + entry_count(n)),
    decreases n, 0int,
{
    let part = index_node(n, level, child_idx, at);
    let e = entry_of(n, level, child_idx);
    let end = at + entry_count(n);
    lemma_node_len(n, level, child_idx, at);
    assert(part[0] == e);
    assert(es[at + 0] == e);
    let tail = assemble(es, end);
    if end < es.len() {
        lemma_assemble_first(es, end);
    }
    let inner = level_below(n, level, at);
    let kids = if n.is_folder() {
        loose_from(n.children, 0, inner)
    } else {
        Seq::empty()
    };
    if n.is_folder() {
        let rest = index_from(n.children, 0, inner, at + 1);
        lemma_stands_split(es, seq![e], rest, at);
        lemma_from_len(n.children, 0, inner, at + 1);
        lemma_assemble_from(es, n.children, 0, inner, at + 1);
    } else {
        assert(kids + tail =~= tail);
    }
    assert(assemble(es, at + 1) == kids + tail);
    lemma_leading_all(kids, tail, level.depth + 1);
    let k = kids.len() as int;
    assert((kids + tail).take(k) =~= kids);
    assert((kids + tail).skip(k) =~= tail);
    assert(loose_nodes(kids) =~= snapshot(n).children);
    assert(node_of(e, loose_nodes(kids)) =~= snapshot(n));
}

proof fn lemma_assemble_from(
    es: Seq<EntryView>,
    kids: Seq<NodeView>,
    i: int,
    level: Level,
    at: int,
)
    requires
        0 <= i <= kids.len(),
        stands_at(es, index_from(kids, i, level, at), at),
        at + forest_count(kids, i) < es.len() ==> es[at + forest_count(kids, i)].depth
            <= level.depth,
    ensures
        assemble(es, at) == loose_from(kids, i, level) + assemble(es, at + forest_count(kids, i)),
    decreases kids, kids.len() - i,
{
    let end = at + forest_count(kids, i);
    if i < kids.len() {
        let first = index_node(kids[i], level, i, at);
        let mid = at + entry_count(kids[i]);
        lemma_node_len(kids[i], level, i, at);
        let rest = index_from(kids, i + 1, level, mid);
        lemma_stands_split(es, first, rest, at);
        lemma_assemble_from(es, kids, i + 1, level, mid);
        if mid < es.len() && i + 1 < kids.len() {
            lemma_node_len(kids[i + 1], level, i + 1, mid);
            assert(rest[0] == entry_of(kids[i + 1], level, i + 1));
            assert(es[mid + 0] == rest[0]);
        }
        lemma_assemble_node(es, kids[i], level, i, at);
        let x = Loose { pi: level.pi, depth: level.depth, node: snapshot(kids[i]) };
        assert(loose_from(kids, i, level) =~= seq![x] + loose_from(kids, i + 1, level));
        assert(assemble(es, at) =~= loose_from(kids, i, level) + assemble(es, end));
    } else {
        assert(loose_from(kids, i, level) + assemble(es, end) =~= assemble(es, end));
    }
}

/// The subtrees under the first `k` roots, the last of these roots first.
spec fn loose_roots(
    roots: Seq<NodeView>,
    root_paths: Seq<Seq<char>>,
    want_dirs: bool,
    k: int,
) -> Seq<Loose>
    decreases k,
{
    if 0 < k <= roots.len() {
        loose_from(
            roots[k - 1].children,
            0,
            root_level(roots[k - 1], root_paths, want_dirs, k - 1),
        ) + loose_roots(roots, root_paths, want_dirs, k - 1)
    } else {
        Seq::empty()
    }
}

proof fn lemma_assemble_roots(
    es: Seq<EntryView>,
    roots: Seq<NodeView>,
    root_paths: Seq<Seq<char>>,
    want_dirs: bool,
    k: int,
    at: int,
)
    requires
        0 <= k <= roots.len(),
        stands_at(es, index_roots(roots, root_paths, want_dirs, k, at), at),
        at + roots_count(roots, k) == es.len(),
    ensures
        assemble(es, at) == loose_roots(roots, root_paths, want_dirs, k),
        at < es.len() ==> es[at].depth == 1,
    decreases k,
{
    if k > 0 {
        let root = roots[k - 1];
        let level = root_level(root, root_paths, want_dirs, k - 1);
        let first = index_from(root.children, 0, level, at);
        lemma_from_len(root.children, 0, level, at);
        let mid = at + first.len();
        lemma_stands_split(
            es,
            first,
            index_roots(roots, root_paths, want_dirs, k - 1, mid),
            at,
        );
        lemma_assemble_roots(es, roots, root_paths, want_dirs, k - 1, mid);
        lemma_assemble_from(es, root.children, 0, level, at);
        if root.children.len() > 0 {
            lemma_node_len(root.children[0], level, 0, at);
            assert(first[0] == entry_of(root.children[0], level, 0));
            assert(es[at + 0] == first[0]);
        } else {
            assert(first.len() == 0);
        }
    }
}

proof fn lemma_under_root_add(a: Seq<Loose>, b: Seq<Loose>, pi: int)
    ensures
        under_root(a + b, pi) == under_root(a, pi) + under_root(b, pi),
    decreases b.len(),
{
    if b.len() == 0 {
        assert(a + b =~= a);
        assert(under_root(a, pi) + under_root(b, pi) =~= under_root(a, pi));
    } else {
        assert((a + b).drop_last() =~= a + b.drop_last());
        lemma_under_root_add(a, b.drop_last(), pi);
        assert(under_root(a + b, pi) =~= under_root(a, pi) + under_root(b, pi));
    }
}

proof fn lemma_under_root_same(s: Seq<Loose>, pi: int)
    requires
        forall|k: int| 0 <= k < s.len() ==> (#[trigger] s[k]).pi == pi,
    ensures
        under_root(s, pi) == loose_nodes(s),
    decreases s.len(),
{
    if s.len() > 0 {
        let t = s.drop_last();
        assert forall|k: int| 0 <= k < t.len() implies (#[trigger] t[k]).pi == pi by {
            assert(t[k] == s[k]);
        }
        assert(s[s.len() - 1].pi == pi);
        lemma_under_root_same(t, pi);
    }
    assert(under_root(s, pi) =~= loose_nodes(s));
}

proof fn lemma_under_root_other(s: Seq<Loose>, pi: int)
    requires
        forall|k: int| 0 <= k < s.len() ==> (#[trigger] s[k]).pi != pi,
    ensures
        under_root(s, pi) == Seq::<NodeView>::empty(),
    decreases s.len(),
{
    if s.len() > 0 {
        let t = s.drop_last();
        assert forall|k: int| 0 <= k < t.len() implies (#[trigger] t[k]).pi != pi by {
            assert(t[k] == s[k]);
        }
        assert(s[s.len() - 1].pi != pi);
        lemma_under_root_other(t, pi);
    }
}

proof fn lemma_loose_roots(
    roots: Seq<NodeView>,
    root_paths: Seq<Seq<char>>,
    want_dirs: bool,
    k: int,
    pi: int,
)
    requires
        0 <= k <= roots.len(),
        0 <= pi < roots.len(),
    ensures
        under_root(loose_roots(roots, root_paths, want_dirs, k), pi) == if pi < k {
            root_snapshot(roots[pi]).children
        } else {
            Seq::empty()
        },
    decreases k,
{
    if k > 0 {
        let level = root_level(roots[k - 1], root_paths, want_dirs, k - 1);
        let first = loose_from(roots[k - 1].children, 0, level);
        let rest = loose_roots(roots, root_paths, want_dirs, k - 1);
        lemma_loose_roots(roots, root_paths, want_dirs, k - 1, pi);
        lemma_under_root_add(first, rest, pi);
        if pi == k - 1 {
            lemma_under_root_same(first, pi);
            assert(loose_nodes(first) + Seq::<NodeView>::empty() =~= root_snapshot(
                roots[pi],
            ).children);
        } else {
            lemma_under_root_other(first, pi);
            assert(Seq::<NodeView>::empty() + under_root(rest, pi) =~= under_root(rest, pi));
        }
    }
}

/// Making the trees again from their index gives them back, up to what an index does not keep.
pub proof fn law_rebuild_gives_the_trees_back(
    roots: Seq<NodeView>,
    root_paths: Seq<Seq<char>>,
    struct_version: u64,
    want_dirs: bool,
)
    ensures
        rebuilt(index_of(roots, root_paths, struct_version, want_dirs)) == Seq::new(
            roots.len(),
            |pi: int| root_snapshot(roots[pi]),
        ),
{
    let index = index_of(roots, root_paths, struct_version, want_dirs);
    let es = index.entries;
    let n = roots.len() as int;
    lemma_roots_len(roots, root_paths, want_dirs, n, 0);
    lemma_assemble_roots(es, roots, root_paths, want_dirs, n, 0);
    let r = rebuilt(index);
    assert forall|pi: int| 0 <= pi < n implies #[trigger] r[pi] == root_snapshot(roots[pi]) by {
        lemma_loose_roots(roots, root_paths, want_dirs, n, pi);
        assert(r[pi] =~= root_snapshot(roots[pi]));
    }
    assert(r =~= Seq::new(roots.len(), |pi: int| root_snapshot(roots[pi])));
}

/// An entry says of a node what the index keeps of it.
pub open spec fn describes(e: EntryView, n: NodeView) -> bool {
    &&& e.name == n.name
    &&& e.is_file == n.is_file()
    &&& e.is_reserved == n.is_reserved
    &&& e.owner == n.owner
    &&& e.logical_size == n.logical_size
    &&& e.physical_size == n.physical_size
    &&& e.modified_ft == n.modified_ft
    &&& e.created_ft == n.created_ft
    &&& e.accessed_ft == n.accessed_ft
    &&& e.attributes == n.attributes
    &&& e.reparse_tag == n.reparse_tag
    &&& e.file_count == count_u32(n.file_count)
    &&& e.folder_count == count_u32(n.folder_count)
}

/// The level hangs on an entry before `at`, or on a root.
spec fn level_linked(es: Seq<EntryView>, level: Level, roots: int, at: int) -> bool {
    &&& 0 <= level.pi < roots
    &&& 1 <= level.depth <= at + 1
    &&& match level.parent {
        Some(p) => 0 <= p < at && level.depth == es[p].depth + 1 && level.pi == es[p].pi
            && !es[p].is_file,
        None => level.depth == 1,
    }
}

/// The path of what stands on a level, without the last step.
spec fn level_path(es: Seq<EntryView>, level: Level) -> Seq<int> {
    match level.parent {
        Some(p) => entry_path(es, p),
        None => seq![level.pi],
    }
}

/// Entry `j` hangs on the ones before it, and its path leads from `n`, which stands on the end
/// of `base`, to the node that it describes.
spec fn found_below(es: Seq<EntryView>, roots: int, n: NodeView, base: Seq<int>, j: int) -> bool {
    &&& linked_at(es, roots, j)
    &&& base.len() <= entry_path(es, j).len()
    &&& entry_path(es, j).take(base.len() as int) == base
    &&& descend(n, steps(entry_path(es, j).skip(base.len() as int))) matches Some(m)
        && describes(es[j], m)
}

/// Entry `j` is found below one of the siblings from number `i` on.
spec fn found_among(
    es: Seq<EntryView>,
    roots: int,
    kids: Seq<NodeView>,
    i: int,
    base: Seq<int>,
    j: int,
) -> bool {
    exists|c: int|
        i <= c < kids.len() && c <= u32::MAX && #[trigger] found_below(
            es,
            roots,
            kids[c],
            base.push(c),
            j,
        )
}

proof fn lemma_found_node(
    es: Seq<EntryView>,
    roots: int,
    n: NodeView,
    level: Level,
    child_idx: int,
    at: int,
)
    requires
        stands_at(es, index_node(n, level, child_idx, at), at),
        level_linked(es, level, roots, at),
        0 <= child_idx,
        es.len() <= u32::MAX,
    ensures
        forall|j: int|
            at <= j < at + entry_count(n) ==> #[trigger] found_below(
                es,
                roots,
                n,
                level_path(es, level).push(child_idx),
                j,
            ),
    decreases n, 0int,
{
    let part = index_node(n, level, child_idx, at);
    let e = entry_of(n, level, child_idx);
    let base = level_path(es, level).push(child_idx);
    lemma_node_len(n, level, child_idx, at);
    assert(part[0] == e);
    assert(es[at + 0] == e);
    assert(entry_path(es, at) =~= base);
    assert(found_below(es, roots, n, base, at)) by {
        assert(base.take(base.len() as int) =~= base);
        assert(steps(base.skip(base.len() as int)) =~= Seq::<usize>::empty());
    }
    if n.is_folder() {
        let inner = level_below(n, level, at);
        let rest = index_from(n.children, 0, inner, at + 1);
        lemma_stands_split(es, seq![e], rest, at);
        lemma_from_len(n.children, 0, inner, at + 1);
        lemma_forest_count(n.children, 0);
        lemma_found_from(es, roots, n.children, 0, inner, at + 1);
        assert(level_path(es, inner) == base);
        assert forall|j: int| at <= j < at + entry_count(n) implies #[trigger] found_below(
            es,
            roots,
            n,
            base,
            j,
        ) by {
            if j > at {
                assert(found_among(es, roots, n.children, 0, base, j));
                let c = choose|c: int|
                    0 <= c < n.children.len() && c <= u32::MAX && #[trigger] found_below(
                        es,
                        roots,
                        n.children[c],
                        base.push(c),
                        j,
                    );
                lemma_found_up(es, roots, n, base, c, j);
            }
        }
    } else {
        assert(entry_count(n) == 1);
    }
}

proof fn lemma_found_up(
    es: Seq<EntryView>,
    roots: int,
    n: NodeView,
    base: Seq<int>,
    c: int,
    j: int,
)
    requires
        0 <= c < n.children.len(),
        c <= u32::MAX,
        found_below(es, roots, n.children[c], base.push(c), j),
    ensures
        found_below(es, roots, n, base, j),
{
    let p = entry_path(es, j);
    let k = base.len() as int;
    let b = base.push(c);
    assert(p[k] == c) by {
        assert(p.take(k + 1)[k] == b[k]);
    }
    assert(p.take(k) =~= base) by {
        assert forall|i: int| 0 <= i < k implies p[i] == base[i] by {
            assert(p.take(k + 1)[i] == b[i]);
        }
    }
    let path = steps(p.skip(k));
    assert(path[0] == c as usize);
    assert(c as usize == c);
    assert(path.skip(1) =~= steps(p.skip(k + 1)));
}

proof fn lemma_found_from(
    es: Seq<EntryView>,
    roots: int,
    kids: Seq<NodeView>,
    i: int,
    level: Level,
    at: int,
)
    requires
        0 <= i <= kids.len() <= u32::MAX,
        stands_at(es, index_from(kids, i, level, at), at),
        level_linked(es, level, roots, at),
        es.len() <= u32::MAX,
    ensures
        forall|j: int|
            at <= j < at + forest_count(kids, i) ==> #[trigger] found_among(
                es,
                roots,
                kids,
                i,
                level_path(es, level),
                j,
            ),
    decreases kids, kids.len() - i,
{
    let base = level_path(es, level);
    if i < kids.len() {
        let first = index_node(kids[i], level, i, at);
        let mid = at + entry_count(kids[i]);
        lemma_node_len(kids[i], level, i, at);
        let rest = index_from(kids, i + 1, level, mid);
        lemma_stands_split(es, first, rest, at);
        lemma_from_len(kids, i + 1, level, mid);
        lemma_found_node(es, roots, kids[i], level, i, at);
        lemma_found_from(es, roots, kids, i + 1, level, mid);
        assert(entry_count(kids[i]) >= 1);
        assert forall|j: int| at <= j < at + forest_count(kids, i) implies #[trigger] found_among(
            es,
            roots,
            kids,
            i,
            base,
            j,
        ) by {
            if j < mid {
                assert(found_below(es, roots, kids[i], base.push(i), j));
            } else {
                assert(found_among(es, roots, kids, i + 1, base, j));
                let c = choose|c: int|
                    i + 1 <= c < kids.len() && c <= u32::MAX && #[trigger] found_below(
                        es,
                        roots,
                        kids[c],
                        base.push(c),
                        j,
                    );
                assert(found_below(es, roots, kids[c], base.push(c), j));
            }
        }
    }
}


/// Where the entries of a child stand among those of its siblings.
spec fn child_at(kids: Seq<NodeView>, i: int, c: int, at: int) -> int
    decreases c - i,
{
    if i < c {
        child_at(kids, i + 1, c, at + entry_count(kids[i]))
    } else {
        at
    }
}

proof fn lemma_child_at(
    es: Seq<EntryView>,
    kids: Seq<NodeView>,
    i: int,
    c: int,
    level: Level,
    at: int,
)
    requires
        0 <= i <= c < kids.len(),
        stands_at(es, index_from(kids, i, level, at), at),
    ensures
        ({
            let k = child_at(kids, i, c, at);
            &&& at <= k
            &&& k + entry_count(kids[c]) <= at + forest_count(kids, i)
            &&& stands_at(es, index_node(kids[c], level, c, k), k)
        }),
    decreases c - i,
{
    let first = index_node(kids[i], level, i, at);
    let mid = at + entry_count(kids[i]);
    lemma_node_len(kids[i], level, i, at);
    lemma_stands_split(es, first, index_from(kids, i + 1, level, mid), at);
    if i < c {
        lemma_child_at(es, kids, i + 1, c, level, mid);
    }
}

/// A path below a node that enters folders only.
pub open spec fn reaches(n: NodeView, path: Seq<usize>) -> bool
    decreases path.len(),
{
    path.len() > 0 ==> n.is_folder() && path[0] < n.children.len() && reaches(
        n.children[path[0] as int],
        path.skip(1),
    )
}

/// A path with its steps as integers.
pub open spec fn path_ints(path: Seq<usize>) -> Seq<int> {
    Seq::new(path.len(), |k: int| path[k] as int)
}

proof fn lemma_reached(
    es: Seq<EntryView>,
    n: NodeView,
    level: Level,
    child_idx: int,
    at: int,
    path: Seq<usize>,
) -> (j: int)
    requires
        stands_at(es, index_node(n, level, child_idx, at), at),
        level.parent matches Some(p) ==> 0 <= p < at,
        reaches(n, path),
    ensures
        at <= j < at + entry_count(n),
        entry_path(es, j) == level_path(es, level).push(child_idx) + path_ints(path),
    decreases path.len(),
{
    let part = index_node(n, level, child_idx, at);
    let e = entry_of(n, level, child_idx);
    let base = level_path(es, level).push(child_idx);
    lemma_node_len(n, level, child_idx, at);
    assert(part[0] == e);
    assert(es[at + 0] == e);
    assert(entry_path(es, at) =~= base);
    if path.len() == 0 {
        assert(base + path_ints(path) =~= base);
        at
    } else {
        let inner = level_below(n, level, at);
        let rest = index_from(n.children, 0, inner, at + 1);
        let c = path[0] as int;
        lemma_stands_split(es, seq![e], rest, at);
        lemma_child_at(es, n.children, 0, c, inner, at + 1);
        let k = child_at(n.children, 0, c, at + 1);
        let j = lemma_reached(es, n.children[c], inner, c, k, path.skip(1));
        assert(base.push(c) + path_ints(path.skip(1)) =~= base + path_ints(path));
        j
    }
}

/// Where the entries below a root stand.
spec fn root_at(roots: Seq<NodeView>, k: int, pi: int, at: int) -> int
    decreases k - pi,
{
    if pi < k - 1 {
        root_at(roots, k - 1, pi, at + forest_count(roots[k - 1].children, 0))
    } else {
        at
    }
}

proof fn lemma_root_at(
    es: Seq<EntryView>,
    roots: Seq<NodeView>,
    root_paths: Seq<Seq<char>>,
    want_dirs: bool,
    k: int,
    pi: int,
    at: int,
)
    requires
        0 <= pi < k <= roots.len(),
        stands_at(es, index_roots(roots, root_paths, want_dirs, k, at), at),
    ensures
        ({
            let p = root_at(roots, k, pi, at);
            let level = root_level(roots[pi], root_paths, want_dirs, pi);
            &&& at <= p
            &&& p + forest_count(roots[pi].children, 0) <= at + roots_count(roots, k)
            &&& stands_at(es, index_from(roots[pi].children, 0, level, p), p)
        }),
    decreases k,
{
    let level = root_level(roots[k - 1], root_paths, want_dirs, k - 1);
    let first = index_from(roots[k - 1].children, 0, level, at);
    lemma_from_len(roots[k - 1].children, 0, level, at);
    let mid = at + first.len();
    lemma_stands_split(es, first, index_roots(roots, root_paths, want_dirs, k - 1, mid), at);
    if pi < k - 1 {
        lemma_root_at(es, roots, root_paths, want_dirs, k - 1, pi, mid);
    }
}

proof fn lemma_root_of_entry(
    es: Seq<EntryView>,
    roots: Seq<NodeView>,
    root_paths: Seq<Seq<char>>,
    want_dirs: bool,
    k: int,
    at: int,
    j: int,
) -> (pi: int)
    requires
        0 <= k <= roots.len(),
        stands_at(es, index_roots(roots, root_paths, want_dirs, k, at), at),
        at <= j < at + roots_count(roots, k),
    ensures
        0 <= pi < k,
        root_at(roots, k, pi, at) <= j < root_at(roots, k, pi, at) + forest_count(
            roots[pi].children,
            0,
        ),
    decreases k,
{
    let level = root_level(roots[k - 1], root_paths, want_dirs, k - 1);
    let first = index_from(roots[k - 1].children, 0, level, at);
    lemma_from_len(roots[k - 1].children, 0, level, at);
    let mid = at + first.len();
    lemma_stands_split(es, first, index_roots(roots, root_paths, want_dirs, k - 1, mid), at);
    if j < mid {
        k - 1
    } else {
        lemma_root_of_entry(es, roots, root_paths, want_dirs, k - 1, mid, j)
    }
}

proof fn lemma_entry_found(
    roots: Seq<NodeView>,
    root_paths: Seq<Seq<char>>,
    want_dirs: bool,
    i: int,
) -> (c: (int, int))
    requires
        fits_index(roots),
        0 <= i < roots_count(roots, roots.len() as int),
    ensures
        ({
            let es = index_roots(roots, root_paths, want_dirs, roots.len() as int, 0);
            &&& 0 <= c.0 < roots.len()
            &&& 0 <= c.1 < roots[c.0].children.len()
            &&& c.1 <= u32::MAX
            &&& found_below(es, roots.len() as int, roots[c.0].children[c.1], seq![c.0, c.1], i)
        }),
{
    let n = roots.len() as int;
    let es = index_roots(roots, root_paths, want_dirs, n, 0);
    lemma_roots_len(roots, root_paths, want_dirs, n, 0);
    let pi = lemma_root_of_entry(es, roots, root_paths, want_dirs, n, 0, i);
    lemma_root_at(es, roots, root_paths, want_dirs, n, pi, 0);
    lemma_root_count(roots, pi, n);
    lemma_forest_count(roots[pi].children, 0);
    let level = root_level(roots[pi], root_paths, want_dirs, pi);
    let at = root_at(roots, n, pi, 0);
    lemma_found_from(es, n, roots[pi].children, 0, level, at);
    assert(found_among(es, n, roots[pi].children, 0, level_path(es, level), i));
    let c = choose|c: int|
        0 <= c < roots[pi].children.len() && c <= u32::MAX && #[trigger] found_below(
            es,
            n,
            roots[pi].children[c],
            level_path(es, level).push(c),
            i,
        );
    assert(level_path(es, level).push(c) =~= seq![pi, c]);
    (pi, c)
}

/// Every entry says where its node stands: its path leads to a node that it describes.
pub proof fn law_entry_path_leads_to_its_node(
    roots: Seq<NodeView>,
    root_paths: Seq<Seq<char>>,
    struct_version: u64,
    want_dirs: bool,
    i: int,
)
    requires
        fits_index(roots),
        0 <= i < index_of(roots, root_paths, struct_version, want_dirs).entries.len(),
    ensures
        ({
            let es = index_of(roots, root_paths, struct_version, want_dirs).entries;
            let p = entry_path(es, i);
            &&& p.len() >= 2
            &&& 0 <= p[0] < roots.len()
            &&& descend(roots[p[0]], steps(p.skip(1))) matches Some(m) && describes(es[i], m)
        }),
{
    let n = roots.len() as int;
    let es = index_roots(roots, root_paths, want_dirs, n, 0);
    lemma_roots_len(roots, root_paths, want_dirs, n, 0);
    let (pi, c) = lemma_entry_found(roots, root_paths, want_dirs, i);
    let p = entry_path(es, i);
    let base = seq![pi, c];
    assert(p.take(2) == base);
    assert(p[0] == p.take(2)[0]);
    assert(p[1] == p.take(2)[1]);
    let path = steps(p.skip(1));
    assert(path[0] == c as usize);
    assert(path.skip(1) =~= steps(p.skip(2)));
}

/// In an index parents come before their children, one level up, under the same root.
pub proof fn law_index_is_well_linked(
    roots: Seq<NodeView>,
    root_paths: Seq<Seq<char>>,
    struct_version: u64,
    want_dirs: bool,
)
    requires
        fits_index(roots),
    ensures
        well_linked(
            index_of(roots, root_paths, struct_version, want_dirs).entries,
            roots.len() as int,
        ),
{
    let n = roots.len() as int;
    let es = index_roots(roots, root_paths, want_dirs, n, 0);
    lemma_roots_len(roots, root_paths, want_dirs, n, 0);
    assert forall|i: int| 0 <= i < es.len() implies #[trigger] linked_at(es, n, i) by {
        let c = lemma_entry_found(roots, root_paths, want_dirs, i);
    }
}

/// Every node that can be reached from a root through folders has an entry.
pub proof fn law_every_node_has_an_entry(
    roots: Seq<NodeView>,
    root_paths: Seq<Seq<char>>,
    struct_version: u64,
    want_dirs: bool,
    pi: int,
    path: Seq<usize>,
)
    requires
        0 <= pi < roots.len(),
        path.len() > 0,
        path[0] < roots[pi].children.len(),
        reaches(roots[pi].children[path[0] as int], path.skip(1)),
    ensures
        ({
            let es = index_of(roots, root_paths, struct_version, want_dirs).entries;
            exists|i: int|
                0 <= i < es.len() && #[trigger] entry_path(es, i) == seq![pi] + path_ints(path)
        }),
{
    let n = roots.len() as int;
    let es = index_roots(roots, root_paths, want_dirs, n, 0);
    lemma_roots_len(roots, root_paths, want_dirs, n, 0);
    lemma_root_at(es, roots, root_paths, want_dirs, n, pi, 0);
    let at = root_at(roots, n, pi, 0);
    let level = root_level(roots[pi], root_paths, want_dirs, pi);
    let c = path[0] as int;
    lemma_child_at(es, roots[pi].children, 0, c, level, at);
    let k = child_at(roots[pi].children, 0, c, at);
    let j = lemma_reached(es, roots[pi].children[c], level, c, k, path.skip(1));
    assert(level_path(es, level).push(c) + path_ints(path.skip(1)) =~= seq![pi] + path_ints(path));
    assert(entry_path(index_of(roots, root_paths, struct_version, want_dirs).entries, j) == seq![pi]
        + path_ints(path));
}

proof fn lemma_distinct_node(
    es: Seq<EntryView>,
    roots: int,
    n: NodeView,
    level: Level,
    child_idx: int,
    at: int,
)
    requires
        stands_at(es, index_node(n, level, child_idx, at), at),
        level_linked(es, level, roots, at),
        0 <= child_idx,
        es.len() <= u32::MAX,
    ensures
        forall|i: int, j: int|
            at <= i < j < at + entry_count(n) ==> #[trigger] entry_path(es, i)
                != #[trigger] entry_path(es, j),
    decreases n, 0int,
{
    let part = index_node(n, level, child_idx, at);
    let e = entry_of(n, level, child_idx);
    let base = level_path(es, level).push(child_idx);
    lemma_node_len(n, level, child_idx, at);
    assert(part[0] == e);
    assert(es[at + 0] == e);
    assert(entry_path(es, at) =~= base);
    if n.is_folder() {
        let inner = level_below(n, level, at);
        let rest = index_from(n.children, 0, inner, at + 1);
        lemma_stands_split(es, seq![e], rest, at);
        lemma_from_len(n.children, 0, inner, at + 1);
        lemma_forest_count(n.children, 0);
        lemma_distinct_from(es, roots, n.children, 0, inner, at + 1);
        lemma_found_from(es, roots, n.children, 0, inner, at + 1);
        assert forall|i: int, j: int|
            at <= i < j < at + entry_count(n) implies #[trigger] entry_path(es, i)
            != #[trigger] entry_path(es, j) by {
            if i == at {
                assert(level_path(es, inner) == base);
                assert(found_among(es, roots, n.children, 0, level_path(es, inner), j));
                let c = choose|c: int|
                    0 <= c < n.children.len() && c <= u32::MAX && #[trigger] found_below(
                        es,
                        roots,
                        n.children[c],
                        base.push(c),
                        j,
                    );
                assert(entry_path(es, j).len() > base.len());
            }
        }
    }
}

proof fn lemma_distinct_from(
    es: Seq<EntryView>,
    roots: int,
    kids: Seq<NodeView>,
    i: int,
    level: Level,
    at: int,
)
    requires
        0 <= i <= kids.len() <= u32::MAX,
        stands_at(es, index_from(kids, i, level, at), at),
        level_linked(es, level, roots, at),
        es.len() <= u32::MAX,
    ensures
        forall|a: int, b: int|
            at <= a < b < at + forest_count(kids, i) ==> #[trigger] entry_path(es, a)
                != #[trigger] entry_path(es, b),
    decreases kids, kids.len() - i,
{
    let base = level_path(es, level);
    if i < kids.len() {
        let first = index_node(kids[i], level, i, at);
        let mid = at + entry_count(kids[i]);
        lemma_node_len(kids[i], level, i, at);
        let rest = index_from(kids, i + 1, level, mid);
        lemma_stands_split(es, first, rest, at);
        lemma_distinct_node(es, roots, kids[i], level, i, at);
        lemma_distinct_from(es, roots, kids, i + 1, level, mid);
        lemma_found_node(es, roots, kids[i], level, i, at);
        lemma_found_from(es, roots, kids, i + 1, level, mid);
        assert forall|a: int, b: int|
            at <= a < b < at + forest_count(kids, i) implies #[trigger] entry_path(es, a)
            != #[trigger] entry_path(es, b) by {
            if a < mid <= b {
                assert(found_below(es, roots, kids[i], base.push(i), a));
                assert(found_among(es, roots, kids, i + 1, base, b));
                let c = choose|c: int|
                    i + 1 <= c < kids.len() && c <= u32::MAX && #[trigger] found_below(
                        es,
                        roots,
                        kids[c],
                        base.push(c),
                        b,
                    );
                let k = base.len() as int;
                assert(entry_path(es, a).take(k + 1)[k] == i);
                assert(entry_path(es, b).take(k + 1)[k] == c);
            }
        }
    }
}

/// No two entries stand in the same place.
pub proof fn law_entry_paths_are_distinct(
    roots: Seq<NodeView>,
    root_paths: Seq<Seq<char>>,
    struct_version: u64,
    want_dirs: bool,
    i: int,
    j: int,
)
    requires
        fits_index(roots),
        0 <= i < j < index_of(roots, root_paths, struct_version, want_dirs).entries.len(),
    ensures
        ({
            let es = index_of(roots, root_paths, struct_version, want_dirs).entries;
            entry_path(es, i) != entry_path(es, j)
        }),
{
    let n = roots.len() as int;
    let es = index_roots(roots, root_paths, want_dirs, n, 0);
    lemma_roots_len(roots, root_paths, want_dirs, n, 0);
    let (p, c) = lemma_entry_found(roots, root_paths, want_dirs, i);
    let (q, d) = lemma_entry_found(roots, root_paths, want_dirs, j);
    assert(entry_path(es, i).take(2)[0] == p);
    assert(entry_path(es, j).take(2)[0] == q);
    if p == q {
        let a = lemma_root_of_entry(es, roots, root_paths, want_dirs, n, 0, i);
        let b = lemma_root_of_entry(es, roots, root_paths, want_dirs, n, 0, j);
        lemma_own_root(roots, root_paths, want_dirs, i, a);
        lemma_own_root(roots, root_paths, want_dirs, j, b);
        lemma_root_at(es, roots, root_paths, want_dirs, n, a, 0);
        lemma_root_count(roots, a, n);
        lemma_forest_count(roots[a].children, 0);
        let level = root_level(roots[a], root_paths, want_dirs, a);
        lemma_distinct_from(
            es,
            n,
            roots[a].children,
            0,
            level,
            root_at(roots, n, a, 0),
        );
    }
}

proof fn lemma_own_root(
    roots: Seq<NodeView>,
    root_paths: Seq<Seq<char>>,
    want_dirs: bool,
    i: int,
    pi: int,
)
    requires
        fits_index(roots),
        0 <= pi < roots.len(),
        0 <= i < roots_count(roots, roots.len() as int),
        root_at(roots, roots.len() as int, pi, 0) <= i < root_at(roots, roots.len() as int, pi, 0)
            + forest_count(roots[pi].children, 0),
    ensures
        ({
            let es = index_roots(roots, root_paths, want_dirs, roots.len() as int, 0);
            &&& entry_path(es, i).len() >= 2
            &&& entry_path(es, i)[0] == pi
        }),
{
    let n = roots.len() as int;
    let es = index_roots(roots, root_paths, want_dirs, n, 0);
    lemma_roots_len(roots, root_paths, want_dirs, n, 0);
    lemma_root_at(es, roots, root_paths, want_dirs, n, pi, 0);
    lemma_root_count(roots, pi, n);
    lemma_forest_count(roots[pi].children, 0);
    let level = root_level(roots[pi], root_paths, want_dirs, pi);
    let at = root_at(roots, n, pi, 0);
    lemma_found_from(es, n, roots[pi].children, 0, level, at);
    assert(found_among(es, n, roots[pi].children, 0, level_path(es, level), i));
    let c = choose|c: int|
        0 <= c < roots[pi].children.len() && c <= u32::MAX && #[trigger] found_below(
            es,
            n,
            roots[pi].children[c],
            level_path(es, level).push(c),
            i,
        );
    let base = level_path(es, level).push(c);
    assert(entry_path(es, i).take(2)[0] == base[0]);
}

} // verus!
