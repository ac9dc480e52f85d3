//! What the flat name index of a tree is, and what holds of it.

use vstd::prelude::*;

use crate::model::{NodeKind, NodeView, SortDir, SortKey};
use crate::text::{text_less, trim_end};

verus! {

/// One entry of the index: a node below a root.
#[verifier::ext_equal]
pub struct EntryView {
    pub name: Seq<char>,
    /// The root it stands under.
    pub pi: int,
    /// Its index among the children of its parent.
    pub child_idx: int,
    /// The entry of its parent; none where the parent is a root.
    pub parent: Option<int>,
    /// Its depth; children of a root have depth 1.
    pub depth: int,
    pub is_file: bool,
    pub is_reserved: bool,
    /// The path of the folder it stands in, where the index keeps paths.
    pub dir: Option<Seq<char>>,
    pub owner: Seq<char>,
    /// The logical size of its parent, at least 1.
    pub parent_logical: u64,
    pub logical_size: u64,
    pub physical_size: u64,
    pub modified_ft: u64,
    pub created_ft: u64,
    pub accessed_ft: u64,
    pub attributes: u32,
    pub reparse_tag: u32,
    pub file_count: u32,
    pub folder_count: u32,
}

/// What the index keeps of a root.
#[verifier::ext_equal]
pub struct RootView {
    pub name: Seq<char>,
    pub logical_size: u64,
    pub physical_size: u64,
    pub modified_ft: u64,
    pub created_ft: u64,
    pub accessed_ft: u64,
    pub attributes: u32,
    pub reparse_tag: u32,
    pub is_reserved: bool,
    pub owner: Seq<char>,
    pub file_count: u64,
    pub folder_count: u64,
    pub dir: Option<Seq<char>>,
}

/// What an index holds.
#[verifier::ext_equal]
pub struct IndexView {
    pub struct_version: u64,
    pub entries: Seq<EntryView>,
    pub roots: Seq<RootView>,
}

/// What the children of one node have in common.
#[verifier::ext_equal]
pub struct Level {
    pub pi: int,
    pub parent: Option<int>,
    pub depth: int,
    pub parent_logical: u64,
    pub dir: Option<Seq<char>>,
}

/// A size, at least 1.
pub open spec fn at_least_one(n: u64) -> u64 {
    if n == 0 {
        1
    } else {
        n
    }
}

/// A count, cut off at what 32 bits hold.
pub open spec fn count_u32(n: u64) -> u32 {
    if n > u32::MAX {
        u32::MAX
    } else {
        n as u32
    }
}

/// The path of something in a folder.
pub open spec fn joined(dir: Seq<char>, name: Seq<char>) -> Seq<char> {
    dir.push('\\') + name
}

/// The entry of a node.
pub open spec fn entry_of(n: NodeView, level: Level, child_idx: int) -> EntryView {
    EntryView {
        name: n.name,
        pi: level.pi,
        child_idx,
        parent: level.parent,
        depth: level.depth,
        is_file: n.is_file(),
        is_reserved: n.is_reserved,
        dir: level.dir,
        owner: n.owner,
        parent_logical: level.parent_logical,
        logical_size: n.logical_size,
        physical_size: n.physical_size,
        modified_ft: n.modified_ft,
        created_ft: n.created_ft,
        accessed_ft: n.accessed_ft,
        attributes: n.attributes,
        reparse_tag: n.reparse_tag,
        file_count: count_u32(n.file_count),
        folder_count: count_u32(n.folder_count),
    }
}

/// The level below a node whose entry is number `at`.
pub open spec fn level_below(n: NodeView, level: Level, at: int) -> Level {
    Level {
        pi: level.pi,
        parent: Some(at),
        depth: level.depth + 1,
        parent_logical: at_least_one(n.logical_size),
        dir: match level.dir {
            Some(d) => Some(joined(d, n.name)),
            None => None,
        },
    }
}

/// The entries of a node and, where it is a folder, of everything below it, parents first;
/// its own entry is number `at`.
pub open spec fn index_node(n: NodeView, level: Level, child_idx: int, at: int) -> Seq<EntryView>
    decreases n, 0int,
{
    seq![entry_of(n, level, child_idx)] + (if n.is_folder() {
        index_from(n.children, 0, level_below(n, level, at), at + 1)
    } else {
        Seq::empty()
    })
}

/// The entries of the nodes from number `i` on, one after the other.
pub open spec fn index_from(kids: Seq<NodeView>, i: int, level: Level, at: int) -> Seq<EntryView>
    decreases kids, kids.len() - i,
{
    if 0 <= i < kids.len() {
        let first = index_node(kids[i], level, i, at);
        first + index_from(kids, i + 1, level, at + first.len())
    } else {
        Seq::empty()
    }
}

/// The path of a root, without backslashes at its end; empty where none is given.
pub open spec fn root_dir(root_paths: Seq<Seq<char>>, pi: int) -> Seq<char> {
    if 0 <= pi < root_paths.len() {
        trim_end(root_paths[pi], '\\')
    } else {
        Seq::empty()
    }
}

/// The level below a root.
pub open spec fn root_level(
    root: NodeView,
    root_paths: Seq<Seq<char>>,
    want_dirs: bool,
    pi: int,
) -> Level {
    Level {
        pi,
        parent: None,
        depth: 1,
        parent_logical: at_least_one(root.logical_size),
        dir: if want_dirs {
            Some(root_dir(root_paths, pi))
        } else {
            None
        },
    }
}

/// The entries below the first `k` roots, the last of these roots first.
pub open spec fn index_roots(
    roots: Seq<NodeView>,
    root_paths: Seq<Seq<char>>,
    want_dirs: bool,
    k: int,
    at: int,
) -> Seq<EntryView>
    decreases k,
{
    if 0 < k <= roots.len() {
        let first = index_from(
            roots[k - 1].children,
            0,
            root_level(roots[k - 1], root_paths, want_dirs, k - 1),
            at,
        );
        first + index_roots(roots, root_paths, want_dirs, k - 1, at + first.len())
    } else {
        Seq::empty()
    }
}

/// What the index keeps of a root.
pub open spec fn root_of(
    root: NodeView,
    root_paths: Seq<Seq<char>>,
    want_dirs: bool,
    pi: int,
) -> RootView {
    RootView {
        name: root.name,
        logical_size: root.logical_size,
        physical_size: root.physical_size,
        modified_ft: root.modified_ft,
        created_ft: root.created_ft,
        accessed_ft: root.accessed_ft,
        attributes: root.attributes,
        reparse_tag: root.reparse_tag,
        is_reserved: root.is_reserved,
        owner: root.owner,
        file_count: root.file_count,
        folder_count: root.folder_count,
        dir: root_level(root, root_paths, want_dirs, pi).dir,
    }
}

/// The index of a list of trees.
pub open spec fn index_of(
    roots: Seq<NodeView>,
    root_paths: Seq<Seq<char>>,
    struct_version: u64,
    want_dirs: bool,
) -> IndexView {
    IndexView {
        struct_version,
        entries: index_roots(roots, root_paths, want_dirs, roots.len() as int, 0),
        roots: Seq::new(
            roots.len(),
            |pi: int| root_of(roots[pi], root_paths, want_dirs, pi),
        ),
    }
}

/// How an entry hangs together with those before it: its parent comes before it and is a
/// folder one level up under the same root, and the root is known.
pub open spec fn linked_at(entries: Seq<EntryView>, roots: int, i: int) -> bool {
    let e = entries[i];
    &&& 0 <= e.pi < roots
    &&& 0 <= e.child_idx
    &&& 1 <= e.depth <= i + 1
    &&& match e.parent {
        Some(p) => 0 <= p < i && e.depth == entries[p].depth + 1 && e.pi == entries[p].pi
            && !entries[p].is_file,
        None => e.depth == 1,
    }
}

/// All entries hang together.
pub open spec fn well_linked(entries: Seq<EntryView>, roots: int) -> bool {
    forall|i: int| 0 <= i < entries.len() ==> #[trigger] linked_at(entries, roots, i)
}

/// Where an entry stands in the trees: its root, then the child to take at each level.
pub open spec fn entry_path(entries: Seq<EntryView>, i: int) -> Seq<int>
    decreases i,
{
    if 0 <= i < entries.len() {
        match entries[i].parent {
            Some(p) => if 0 <= p < i {
                entry_path(entries, p).push(entries[i].child_idx)
            } else {
                Seq::empty()
            },
            None => seq![entries[i].pi, entries[i].child_idx],
        }
    } else {
        Seq::empty()
    }
}

/// A path with its steps as machine integers.
pub open spec fn steps(path: Seq<int>) -> Seq<usize> {
    Seq::new(path.len(), |k: int| path[k] as usize)
}

/// Whether `a` comes before `b` in the order of a column, ascending.
pub open spec fn key_less(key: SortKey, a: EntryView, b: EntryView) -> bool {
    match key {
        SortKey::Name => text_less(a.name, b.name),
        SortKey::Size => a.logical_size < b.logical_size,
        SortKey::Physical => a.physical_size < b.physical_size,
        SortKey::Modified => a.modified_ft < b.modified_ft,
        SortKey::Created => a.created_ft < b.created_ft,
        SortKey::Accessed => a.accessed_ft < b.accessed_ft,
        SortKey::Items => a.file_count + a.folder_count < b.file_count + b.folder_count,
        SortKey::Files => a.file_count < b.file_count,
        SortKey::Folders => a.folder_count < b.folder_count,
        SortKey::Attributes => a.attributes < b.attributes,
        SortKey::Reparse => a.reparse_tag < b.reparse_tag,
        SortKey::Reserved => !a.is_reserved && b.is_reserved,
        SortKey::Owner => text_less(a.owner, b.owner),
        SortKey::Path => text_less(shown_dir(a), shown_dir(b)),
    }
}

/// The folder path that is shown for an entry.
pub open spec fn shown_dir(e: EntryView) -> Seq<char> {
    match e.dir {
        Some(d) => d,
        None => Seq::empty(),
    }
}

/// Whether `a` comes before `b` in the order of a column.
pub open spec fn entry_before(key: SortKey, dir: SortDir, a: EntryView, b: EntryView) -> bool {
    match dir {
        SortDir::Asc => key_less(key, a, b),
        SortDir::Desc => key_less(key, b, a),
    }
}

/// The colour of a node made from an index.
pub open spec fn white() -> u32 {
    0xFFFF_FFFF
}

/// The node that an entry stands for, with the given children.
pub open spec fn node_of(e: EntryView, children: Seq<NodeView>) -> NodeView {
    NodeView {
        name: e.name,
        size: e.logical_size,
        logical_size: e.logical_size,
        physical_size: e.physical_size,
        kind: if e.is_file {
            NodeKind::File
        } else {
            NodeKind::Folder
        },
        color: white(),
        children,
        expanded: false,
        file_count: e.file_count as u64,
        folder_count: e.folder_count as u64,
        modified_ft: e.modified_ft,
        created_ft: e.created_ft,
        accessed_ft: e.accessed_ft,
        attributes: e.attributes,
        reparse_tag: e.reparse_tag,
        is_reserved: e.is_reserved,
        owner: e.owner,
        full_path_override: None,
    }
}

/// The node of a root, with the given children.
pub open spec fn root_node(r: RootView, children: Seq<NodeView>) -> NodeView {
    NodeView {
        name: r.name,
        size: r.logical_size,
        logical_size: r.logical_size,
        physical_size: r.physical_size,
        kind: NodeKind::Folder,
        color: white(),
        children,
        expanded: false,
        file_count: r.file_count,
        folder_count: r.folder_count,
        modified_ft: r.modified_ft,
        created_ft: r.created_ft,
        accessed_ft: r.accessed_ft,
        attributes: r.attributes,
        reparse_tag: r.reparse_tag,
        is_reserved: r.is_reserved,
        owner: r.owner,
        full_path_override: None,
    }
}

/// A finished subtree that waits for its parent.
#[verifier::ext_equal]
pub struct Loose {
    pub pi: int,
    pub depth: int,
    pub node: NodeView,
}

/// How many of the loose subtrees in front stand at a depth.
pub open spec fn leading(loose: Seq<Loose>, depth: int) -> nat
    decreases loose.len(),
{
    if loose.len() > 0 && loose[0].depth == depth {
        1 + leading(loose.skip(1), depth)
    } else {
        0
    }
}

/// The nodes of loose subtrees.
pub open spec fn loose_nodes(loose: Seq<Loose>) -> Seq<NodeView> {
    Seq::new(loose.len(), |i: int| loose[i].node)
}

/// The subtrees that the entries from number `i` on make up, in their order: each entry takes
/// the subtrees one level below it that follow it for its children.
pub open spec fn assemble(entries: Seq<EntryView>, i: int) -> Seq<Loose>
    decreases entries.len() - i,
{
    if 0 <= i < entries.len() {
        let rest = assemble(entries, i + 1);
        let n = leading(rest, entries[i].depth + 1) as int;
        seq![
            Loose {
                pi: entries[i].pi,
                depth: entries[i].depth,
                node: node_of(entries[i], loose_nodes(rest.take(n))),
            },
        ] + rest.skip(n)
    } else {
        Seq::empty()
    }
}

/// The nodes of the loose subtrees that stand under a root.
pub open spec fn under_root(loose: Seq<Loose>, pi: int) -> Seq<NodeView>
    decreases loose.len(),
{
    if loose.len() == 0 {
        Seq::empty()
    } else if loose.last().pi == pi {
        under_root(loose.drop_last(), pi).push(loose.last().node)
    } else {
        under_root(loose.drop_last(), pi)
    }
}

/// The trees that an index describes.
pub open spec fn rebuilt(index: IndexView) -> Seq<NodeView> {
    Seq::new(
        index.roots.len(),
        |pi: int| root_node(index.roots[pi], under_root(assemble(index.entries, 0), pi)),
    )
}

/// What an index keeps of a node: not its colour, nor whether it is expanded, nor what stands
/// below a file.
pub open spec fn snapshot(n: NodeView) -> NodeView
    decreases n,
{
    NodeView {
        size: n.logical_size,
        color: white(),
        children: if n.is_folder() {
            Seq::new(
                n.children.len(),
                |i: int|
                    if 0 <= i < n.children.len() {
                        snapshot(n.children[i])
                    } else {
                        arbitrary()
                    },
            )
        } else {
            Seq::empty()
        },
        expanded: false,
        file_count: count_u32(n.file_count) as u64,
        folder_count: count_u32(n.folder_count) as u64,
        full_path_override: None,
        ..n
    }
}

/// What an index keeps of a root: as of any folder, but the counts in full.
pub open spec fn root_snapshot(n: NodeView) -> NodeView {
    NodeView {
        size: n.logical_size,
        color: white(),
        kind: NodeKind::Folder,
        children: Seq::new(n.children.len(), |i: int| snapshot(n.children[i])),
        expanded: false,
        full_path_override: None,
        ..n
    }
}


/// How many entries a node takes.
pub open spec fn entry_count(n: NodeView) -> nat
    decreases n, 0int,
{
    1 + if n.is_folder() {
        forest_count(n.children, 0)
    } else {
        0
    }
}

/// How many entries the nodes from number `i` on take.
pub open spec fn forest_count(kids: Seq<NodeView>, i: int) -> nat
    decreases kids, kids.len() - i,
{
    if 0 <= i < kids.len() {
        entry_count(kids[i]) + forest_count(kids, i + 1)
    } else {
        0
    }
}

/// How many entries there are below the first `k` roots.
pub open spec fn roots_count(roots: Seq<NodeView>, k: int) -> nat
    decreases k,
{
    if 0 < k <= roots.len() {
        forest_count(roots[k - 1].children, 0) + roots_count(roots, k - 1)
    } else {
        0
    }
}

/// Roots and entries can all be numbered with 32 bits.
pub open spec fn fits_index(roots: Seq<NodeView>) -> bool {
    roots.len() + roots_count(roots, roots.len() as int) < u32::MAX
}

pub proof fn lemma_node_len(n: NodeView, level: Level, child_idx: int, at: int)
    ensures
        index_node(n, level, child_idx, at).len() == entry_count(n),
    decreases n, 0int,
{
    if n.is_folder() {
        lemma_from_len(n.children, 0, level_below(n, level, at), at + 1);
    }
}

pub proof fn lemma_from_len(kids: Seq<NodeView>, i: int, level: Level, at: int)
    ensures
        index_from(kids, i, level, at).len() == forest_count(kids, i),
    decreases kids, kids.len() - i,
{
    if 0 <= i < kids.len() {
        lemma_node_len(kids[i], level, i, at);
        lemma_from_len(kids, i + 1, level, at + entry_count(kids[i]));
    }
}

pub proof fn lemma_roots_len(
    roots: Seq<NodeView>,
    root_paths: Seq<Seq<char>>,
    want_dirs: bool,
    k: int,
    at: int,
)
    ensures
        index_roots(roots, root_paths, want_dirs, k, at).len() == roots_count(roots, k),
    decreases k,
{
    if 0 < k <= roots.len() {
        let level = root_level(roots[k - 1], root_paths, want_dirs, k - 1);
        lemma_from_len(roots[k - 1].children, 0, level, at);
        let first = index_from(roots[k - 1].children, 0, level, at);
        lemma_roots_len(roots, root_paths, want_dirs, k - 1, at + first.len());
    }
}

pub proof fn lemma_forest_count(kids: Seq<NodeView>, i: int)
    requires
        0 <= i <= kids.len(),
    ensures
        forest_count(kids, i) >= kids.len() - i,
    decreases kids.len() - i,
{
    if i < kids.len() {
        assert(entry_count(kids[i]) >= 1);
        lemma_forest_count(kids, i + 1);
    }
}

pub proof fn lemma_root_count(roots: Seq<NodeView>, i: int, k: int)
    requires
        0 <= i < k <= roots.len(),
    ensures
        forest_count(roots[i].children, 0) <= roots_count(roots, k),
    decreases k,
{
    if i < k - 1 {
        lemma_root_count(roots, i, k - 1);
    }
}


/// The numbers of those of the first `k` entries that are files.
pub open spec fn file_numbers(entries: Seq<EntryView>, k: int) -> Seq<u32>
    decreases k,
{
    if 0 < k <= entries.len() {
        if entries[k - 1].is_file {
            file_numbers(entries, k - 1).push((k - 1) as u32)
        } else {
            file_numbers(entries, k - 1)
        }
    } else {
        Seq::empty()
    }
}

} // verus!
