//! The data model: a tree of files and folders.
//!
//! Every node carries its logical and its physical size. The sizes and counts of a
//! folder are the totals over its whole subtree.

use vstd::prelude::*;
use vstd::slice::slice_subrange;

use crate::fs_attrs::{
    FILE_ATTRIBUTE_HIDDEN, FILE_ATTRIBUTE_REPARSE_POINT, FILE_ATTRIBUTE_SYSTEM,
};
use crate::sorting::merge_sort;
use crate::theme::Color32;

verus! {

/// What a node is.
#[derive(Clone, Copy, Debug, PartialEq, Eq, Structural)]
pub enum NodeKind {
    File,
    Folder,
}

/// Where a node stands: the child index to take at each level, from the root down.
pub type NodePath = Vec<usize>;

/// The columns that a list can be sorted by.
#[derive(Clone, Copy, Debug, PartialEq, Eq, Structural)]
pub enum SortKey {
    Name,
    Size,
    Modified,
    Physical,
    Created,
    Accessed,
    Items,
    Files,
    Folders,
    Attributes,
    Reparse,
    Reserved,
    Owner,
    Path,
}

/// Ascending or descending.
#[derive(Clone, Copy, Debug, PartialEq, Eq, Structural)]
pub enum SortDir {
    Asc,
    Desc,
}

impl SortDir {
    /// The other direction.
    pub open spec fn flipped(self) -> SortDir {
        match self {
            SortDir::Asc => SortDir::Desc,
            SortDir::Desc => SortDir::Asc,
        }
    }

    /// The other direction.
    pub fn toggled(self) -> (r: Self)
        ensures
            r == self.flipped(),
    {
        match self {
            SortDir::Asc => SortDir::Desc,
            SortDir::Desc => SortDir::Asc,
        }
    }
}

/// The column a list is sorted by, and which way.
#[derive(Clone, Copy, Debug, PartialEq, Eq, Structural)]
pub struct SortState {
    pub key: SortKey,
    pub dir: SortDir,
}

impl Default for SortState {
    /// Largest first.
    fn default() -> (r: Self)
        ensures
            r == (SortState { key: SortKey::Size, dir: SortDir::Desc }),
    {
        SortState { key: SortKey::Size, dir: SortDir::Desc }
    }
}

impl SortState {
    /// A click on a header: the current column turns round, another one starts descending.
    pub fn click(&mut self, key: SortKey)
        ensures
            final(self).key == key,
            final(self).dir == if old(self).key == key {
                old(self).dir.flipped()
            } else {
                SortDir::Desc
            },
    {
        if self.key == key {
            self.dir = self.dir.toggled();
        } else {
            self.key = key;
            self.dir = SortDir::Desc;
        }
    }
}

/// How much space one kind of file takes.
pub struct CategoryStat {
    pub label: &'static str,
    pub size: u64,
    pub color: Color32,
}

/// A file or folder with everything below it.
pub struct Node {
    pub name: String,
    /// The same as `logical_size`.
    pub size: u64,
    /// What Explorer calls the size.
    pub logical_size: u64,
    /// What Explorer calls the size on disk.
    pub physical_size: u64,
    pub kind: NodeKind,
    pub color: Color32,
    pub children: Vec<Node>,
    pub expanded: bool,
    /// Files below this node, at any depth.
    pub file_count: u64,
    /// Folders below this node, at any depth.
    pub folder_count: u64,
    /// Last write, in 100 ns since 1601; 0 if not known.
    pub modified_ft: u64,
    /// Creation; 0 if not known.
    pub created_ft: u64,
    /// Last access; 0 if not known.
    pub accessed_ft: u64,
    /// `FILE_ATTRIBUTE_*` bits.
    pub attributes: u32,
    /// Reparse tag; 0 for an ordinary entry.
    pub reparse_tag: u32,
    /// Whether this is one of NTFS's own metadata files.
    pub is_reserved: bool,
    pub owner: String,
    /// The real path of a node that stands in a list made up for display.
    pub full_path_override: Option<String>,
}

/// What a [`Node`] holds.
#[verifier::ext_equal]
pub struct NodeView {
    pub name: Seq<char>,
    pub size: u64,
    pub logical_size: u64,
    pub physical_size: u64,
    pub kind: NodeKind,
    pub color: Color32,
    pub children: Seq<NodeView>,
    pub expanded: bool,
    pub file_count: u64,
    pub folder_count: u64,
    pub modified_ft: u64,
    pub created_ft: u64,
    pub accessed_ft: u64,
    pub attributes: u32,
    pub reparse_tag: u32,
    pub is_reserved: bool,
    pub owner: Seq<char>,
    pub full_path_override: Option<Seq<char>>,
}

/// The text in an optional string.
pub open spec fn text_option(s: Option<String>) -> Option<Seq<char>> {
    match s {
        Some(t) => Some(t@),
        None => None,
    }
}

/// What a node holds.
pub open spec fn node_view(n: Node) -> NodeView
    decreases n,
{
    NodeView {
        name: n.name@,
        size: n.size,
        logical_size: n.logical_size,
        physical_size: n.physical_size,
        kind: n.kind,
        color: n.color,
        children: Seq::new(
            n.children@.len(),
            |i: int|
                if 0 <= i < n.children@.len() {
                    node_view(n.children@[i])
                } else {
                    arbitrary()
                },
        ),
        expanded: n.expanded,
        file_count: n.file_count,
        folder_count: n.folder_count,
        modified_ft: n.modified_ft,
        created_ft: n.created_ft,
        accessed_ft: n.accessed_ft,
        attributes: n.attributes,
        reparse_tag: n.reparse_tag,
        is_reserved: n.is_reserved,
        owner: n.owner@,
        full_path_override: text_option(n.full_path_override),
    }
}

impl View for Node {
    type V = NodeView;

    open spec fn view(&self) -> NodeView {
        node_view(*self)
    }
}

/// What a list of nodes holds.
pub open spec fn forest_view(v: Seq<Node>) -> Seq<NodeView> {
    Seq::new(v.len(), |i: int| v[i]@)
}

/// The children of a node, seen one by one.
pub proof fn lemma_children(n: Node)
    ensures
        n@.children == forest_view(n.children@),
{
    assert(n@.children =~= forest_view(n.children@));
}


/// The sum of `f` over a list of nodes.
pub open spec fn total(s: Seq<NodeView>, f: spec_fn(NodeView) -> int) -> int
    decreases s.len(),
{
    if s.len() == 0 {
        0
    } else {
        total(s.drop_last(), f) + f(s.last())
    }
}

/// The largest modification time in a list of nodes; 0 for an empty list.
pub open spec fn latest(s: Seq<NodeView>) -> u64
    decreases s.len(),
{
    if s.len() == 0 {
        0
    } else if latest(s.drop_last()) < s.last().modified_ft {
        s.last().modified_ft
    } else {
        latest(s.drop_last())
    }
}

impl NodeView {
    pub open spec fn is_file(self) -> bool {
        self.kind == NodeKind::File
    }

    pub open spec fn is_folder(self) -> bool {
        self.kind == NodeKind::Folder
    }

    /// The files that this node adds to the count of its parent.
    pub open spec fn files(self) -> int {
        self.file_count + if self.is_file() {
            1int
        } else {
            0int
        }
    }

    /// The folders that this node adds to the count of its parent.
    pub open spec fn folders(self) -> int {
        self.folder_count + if self.is_folder() {
            1int
        } else {
            0int
        }
    }

    /// Whether either of the attributes "hidden" and "system" is set.
    pub open spec fn hidden_or_system(self) -> bool {
        self.attributes & (FILE_ATTRIBUTE_HIDDEN | FILE_ATTRIBUTE_SYSTEM) != 0
    }

    /// Whether the tag or the attribute says that this is a reparse point.
    pub open spec fn reparse_point(self) -> bool {
        self.reparse_tag != 0 || self.attributes & FILE_ATTRIBUTE_REPARSE_POINT != 0
    }
}

/// What the logical sizes of a list of nodes add up to.
pub open spec fn logical_total(s: Seq<NodeView>) -> int {
    total(s, |n: NodeView| n.logical_size as int)
}

/// What the physical sizes of a list of nodes add up to.
pub open spec fn physical_total(s: Seq<NodeView>) -> int {
    total(s, |n: NodeView| n.physical_size as int)
}

/// The files in a list of nodes and below them.
pub open spec fn file_total(s: Seq<NodeView>) -> int {
    total(s, |n: NodeView| n.files())
}

/// The folders in a list of nodes and below them.
pub open spec fn folder_total(s: Seq<NodeView>) -> int {
    total(s, |n: NodeView| n.folders())
}

/// All four totals fit their fields.
pub open spec fn totals_fit(s: Seq<NodeView>) -> bool {
    &&& logical_total(s) <= u64::MAX
    &&& physical_total(s) <= u64::MAX
    &&& file_total(s) <= u64::MAX
    &&& folder_total(s) <= u64::MAX
}

/// The order of children: larger first, and of equal sizes folders first.
pub open spec fn child_before(a: NodeView, b: NodeView) -> bool {
    a.logical_size > b.logical_size || (a.logical_size == b.logical_size && a.is_folder()
        && !b.is_folder())
}

/// A folder made of its parts: the children as they are given, the totals taken over them.
pub open spec fn ordered_folder_view(
    name: Seq<char>,
    color: Color32,
    children: Seq<NodeView>,
    modified_ft: u64,
    created_ft: u64,
    accessed_ft: u64,
    attributes: u32,
    reparse_tag: u32,
    is_reserved: bool,
    owner: Seq<char>,
) -> NodeView {
    NodeView {
        name,
        size: logical_total(children) as u64,
        logical_size: logical_total(children) as u64,
        physical_size: physical_total(children) as u64,
        kind: NodeKind::Folder,
        color,
        children,
        expanded: false,
        file_count: file_total(children) as u64,
        folder_count: folder_total(children) as u64,
        modified_ft: if latest(children) > modified_ft {
            latest(children)
        } else {
            modified_ft
        },
        created_ft,
        accessed_ft,
        attributes: if attributes == 0 {
            0x10
        } else {
            attributes
        },
        reparse_tag,
        is_reserved,
        owner,
        full_path_override: None,
    }
}

/// A folder made of its parts: the children sorted, the totals taken over them.
pub open spec fn folder_view(
    name: Seq<char>,
    color: Color32,
    children: Seq<NodeView>,
    modified_ft: u64,
    created_ft: u64,
    accessed_ft: u64,
    attributes: u32,
    reparse_tag: u32,
    is_reserved: bool,
    owner: Seq<char>,
) -> NodeView {
    NodeView {
        children: crate::sorting::stable_sort(
            children,
            |a: NodeView, b: NodeView| child_before(a, b),
        ),
        ..ordered_folder_view(
            name,
            color,
            children,
            modified_ft,
            created_ft,
            accessed_ft,
            attributes,
            reparse_tag,
            is_reserved,
            owner,
        )
    }
}

/// A file made of its parts.
pub open spec fn file_view(
    name: Seq<char>,
    logical_size: u64,
    physical_size: u64,
    color: Color32,
    modified_ft: u64,
    created_ft: u64,
    accessed_ft: u64,
    attributes: u32,
    reparse_tag: u32,
    is_reserved: bool,
    owner: Seq<char>,
) -> NodeView {
    NodeView {
        name,
        size: logical_size,
        logical_size,
        physical_size,
        kind: NodeKind::File,
        color,
        children: Seq::empty(),
        expanded: false,
        file_count: 0,
        folder_count: 0,
        modified_ft,
        created_ft,
        accessed_ft,
        attributes: if attributes == 0 {
            0x80
        } else {
            attributes
        },
        reparse_tag,
        is_reserved,
        owner,
        full_path_override: None,
    }
}

/// The node that a path leads to.
pub open spec fn descend(n: NodeView, path: Seq<usize>) -> Option<NodeView>
    decreases path.len(),
{
    if path.len() == 0 {
        Some(n)
    } else if path[0] < n.children.len() {
        descend(n.children[path[0] as int], path.skip(1))
    } else {
        None
    }
}

/// The tree with another node put where a path leads to.
pub open spec fn graft(n: NodeView, path: Seq<usize>, new: NodeView) -> NodeView
    decreases path.len(),
{
    if path.len() == 0 {
        new
    } else if path[0] < n.children.len() {
        NodeView {
            children: n.children.update(
                path[0] as int,
                graft(n.children[path[0] as int], path.skip(1), new),
            ),
            ..n
        }
    } else {
        n
    }
}

/// The node folded up, and every expanded node that can be reached through expanded ones.
pub open spec fn collapsed(n: NodeView) -> NodeView
    decreases n,
{
    if n.expanded {
        NodeView {
            expanded: false,
            children: Seq::new(
                n.children.len(),
                |i: int|
                    if 0 <= i < n.children.len() {
                        collapsed(n.children[i])
                    } else {
                        arbitrary()
                    },
            ),
            ..n
        }
    } else {
        n
    }
}

/// `a - b`, or 0 where that is negative.
pub open spec fn less_by(a: u64, b: int) -> u64 {
    if a >= b {
        (a - b) as u64
    } else {
        0
    }
}

/// `a + b`, or the largest value where that does not fit.
pub open spec fn more_by(a: u64, b: int) -> u64 {
    if a + b <= u64::MAX {
        (a + b) as u64
    } else {
        u64::MAX
    }
}

/// A node with what `gone` added to its totals taken off.
pub open spec fn shrunk(n: NodeView, gone: NodeView) -> NodeView {
    NodeView {
        size: less_by(n.logical_size, gone.logical_size as int),
        logical_size: less_by(n.logical_size, gone.logical_size as int),
        physical_size: less_by(n.physical_size, gone.physical_size as int),
        file_count: less_by(n.file_count, gone.files()),
        folder_count: less_by(n.folder_count, gone.folders()),
        ..n
    }
}

/// The tree without the node that a path leads to.
pub open spec fn without(n: NodeView, path: Seq<usize>) -> NodeView
    decreases path.len(),
{
    if path.len() == 0 || path[0] >= n.children.len() {
        n
    } else if path.len() == 1 {
        shrunk(
            NodeView { children: n.children.remove(path[0] as int), ..n },
            n.children[path[0] as int],
        )
    } else {
        match descend(n, path) {
            Some(gone) => shrunk(
                NodeView {
                    children: n.children.update(
                        path[0] as int,
                        without(n.children[path[0] as int], path.skip(1)),
                    ),
                    ..n
                },
                gone,
            ),
            None => n,
        }
    }
}

/// A node with the four totals changed by what one set of figures gives way to another.
pub open spec fn retotalled(
    n: NodeView,
    old_logical: u64,
    new_logical: u64,
    old_physical: u64,
    new_physical: u64,
    old_files: int,
    new_files: int,
    old_folders: int,
    new_folders: int,
) -> NodeView {
    NodeView {
        size: more_by(less_by(n.logical_size, old_logical as int), new_logical as int),
        logical_size: more_by(less_by(n.logical_size, old_logical as int), new_logical as int),
        physical_size: more_by(less_by(n.physical_size, old_physical as int), new_physical as int),
        file_count: more_by(less_by(n.file_count, old_files), new_files),
        folder_count: more_by(less_by(n.folder_count, old_folders), new_folders),
        ..n
    }
}

/// The tree with another node in the place that a path leads to, and the totals above it
/// brought up to date.
pub open spec fn replaced(n: NodeView, path: Seq<usize>, new: NodeView) -> NodeView
    decreases path.len(),
{
    if path.len() == 0 || path[0] >= n.children.len() || descend(n, path) is None {
        n
    } else {
        let old = n.children[path[0] as int];
        if path.len() == 1 {
            retotalled(
                NodeView { children: n.children.update(path[0] as int, new), ..n },
                old.logical_size,
                new.logical_size,
                old.physical_size,
                new.physical_size,
                old.files(),
                new.files(),
                old.folders(),
                new.folders(),
            )
        } else {
            let child = replaced(old, path.skip(1), new);
            retotalled(
                NodeView { children: n.children.update(path[0] as int, child), ..n },
                old.logical_size,
                child.logical_size,
                old.physical_size,
                child.physical_size,
                old.file_count as int,
                child.file_count as int,
                old.folder_count as int,
                child.folder_count as int,
            )
        }
    }
}

/// The node expanded, or folded up where it was expanded.
pub open spec fn toggled_node(n: NodeView) -> NodeView {
    if n.expanded {
        collapsed(n)
    } else {
        NodeView { expanded: true, ..n }
    }
}

/// A list of siblings folded up, but for the one at `idx`, which is expanded unless it was.
pub open spec fn exclusive(n: NodeView, idx: usize) -> NodeView {
    let folded = Seq::new(n.children.len(), |i: int| collapsed(n.children[i]));
    let open = idx < n.children.len() && !n.children[idx as int].expanded;
    NodeView {
        children: if open {
            folded.update(
                idx as int,
                NodeView { expanded: true, ..collapsed(n.children[idx as int]) },
            )
        } else {
            folded
        },
        ..n
    }
}


proof fn lemma_total_prefix(s: Seq<NodeView>, f: spec_fn(NodeView) -> int, k: int)
    requires
        0 <= k <= s.len(),
        forall|n: NodeView| #[trigger] f(n) >= 0,
    ensures
        0 <= total(s.take(k), f) <= total(s, f),
        k < s.len() ==> total(s.take(k + 1), f) == total(s.take(k), f) + f(s[k]),
    decreases s.len() - k,
{
    if k == s.len() {
        assert(s.take(k) =~= s);
        if k > 0 {
            lemma_total_nonneg(s, f);
        }
    } else {
        lemma_total_prefix(s, f, k + 1);
        assert(s.take(k + 1).drop_last() =~= s.take(k));
        lemma_total_nonneg(s.take(k), f);
    }
}

proof fn lemma_total_nonneg(s: Seq<NodeView>, f: spec_fn(NodeView) -> int)
    requires
        forall|n: NodeView| #[trigger] f(n) >= 0,
    ensures
        total(s, f) >= 0,
    decreases s.len(),
{
    if s.len() > 0 {
        lemma_total_nonneg(s.drop_last(), f);
    }
}

proof fn lemma_totals_prefix(s: Seq<NodeView>, k: int)
    requires
        0 <= k < s.len(),
    ensures
        logical_total(s.take(k)) >= 0,
        physical_total(s.take(k)) >= 0,
        file_total(s.take(k)) >= 0,
        folder_total(s.take(k)) >= 0,
        logical_total(s.take(k + 1)) == logical_total(s.take(k)) + s[k].logical_size,
        physical_total(s.take(k + 1)) == physical_total(s.take(k)) + s[k].physical_size,
        file_total(s.take(k + 1)) == file_total(s.take(k)) + s[k].files(),
        folder_total(s.take(k + 1)) == folder_total(s.take(k)) + s[k].folders(),
        logical_total(s.take(k + 1)) <= logical_total(s),
        physical_total(s.take(k + 1)) <= physical_total(s),
        file_total(s.take(k + 1)) <= file_total(s),
        folder_total(s.take(k + 1)) <= folder_total(s),
        latest(s.take(k + 1)) == if latest(s.take(k)) < s[k].modified_ft {
            s[k].modified_ft
        } else {
            latest(s.take(k))
        },
{
    lemma_total_prefix(s, |n: NodeView| n.logical_size as int, k);
    lemma_total_prefix(s, |n: NodeView| n.physical_size as int, k);
    lemma_total_prefix(s, |n: NodeView| n.files(), k);
    lemma_total_prefix(s, |n: NodeView| n.folders(), k);
    lemma_total_prefix(s, |n: NodeView| n.logical_size as int, k + 1);
    lemma_total_prefix(s, |n: NodeView| n.physical_size as int, k + 1);
    lemma_total_prefix(s, |n: NodeView| n.files(), k + 1);
    lemma_total_prefix(s, |n: NodeView| n.folders(), k + 1);
    assert(s.take(k + 1).drop_last() =~= s.take(k));
}

/// `m` is `n` with another node at `i` among its children.
spec fn child_changed(n: Node, i: int, m: Node, x: Node) -> bool {
    &&& m.children@ == n.children@.update(i, x)
    &&& m == (Node { children: m.children, ..n })
}

proof fn lemma_child_changed(n: Node, i: int)
    requires
        0 <= i < n.children@.len(),
    ensures
        forall|m: Node, x: Node|
            #![trigger node_view(m), node_view(x)]
            child_changed(n, i, m, x) ==> m@ == (NodeView {
                children: n@.children.update(i, x@),
                ..n@
            }),
        n@.children.update(i, n.children@[i]@) == n@.children,
{
    assert(n@.children.update(i, n.children@[i]@) =~= n@.children);
    assert forall|m: Node, x: Node|
        #![trigger node_view(m), node_view(x)]
        child_changed(n, i, m, x) implies m@ == (NodeView {
        children: n@.children.update(i, x@),
        ..n@
    }) by {
        assert(m@.children =~= n@.children.update(i, x@));
    }
}

proof fn lemma_descend_on(n: NodeView, p: Seq<usize>, q: Seq<usize>)
    requires
        descend(n, p) is Some,
    ensures
        descend(n, p + q) == descend(descend(n, p)->0, q),
    decreases p.len(),
{
    if p.len() == 0 {
        assert(p + q =~= q);
    } else {
        assert((p + q).skip(1) =~= p.skip(1) + q);
        lemma_descend_on(n.children[p[0] as int], p.skip(1), q);
    }
}

proof fn lemma_descend_step(n: NodeView, path: Seq<usize>, k: int)
    requires
        0 <= k < path.len(),
        descend(n, path.take(k)) is Some,
    ensures
        ({
            let c = descend(n, path.take(k))->0;
            if path[k] < c.children.len() {
                descend(n, path.take(k + 1)) == Some(c.children[path[k] as int])
            } else {
                descend(n, path) is None
            }
        }),
{
    let c = descend(n, path.take(k))->0;
    assert(path.take(k + 1) =~= path.take(k) + seq![path[k]]);
    assert(path =~= path.take(k) + path.skip(k));
    lemma_descend_on(n, path.take(k), seq![path[k]]);
    lemma_descend_on(n, path.take(k), path.skip(k));
    lemma_descend_one(c, seq![path[k]]);
}

proof fn lemma_graft_step(n: NodeView, p: Seq<usize>, i: usize, x: NodeView)
    requires
        descend(n, p) is Some,
        i < (descend(n, p)->0).children.len(),
    ensures
        graft(n, p.push(i), x) == graft(
            n,
            p,
            NodeView {
                children: (descend(n, p)->0).children.update(i as int, x),
                ..descend(n, p)->0
            },
        ),
    decreases p.len(),
{
    if p.len() == 0 {
        assert(p.push(i).skip(1) =~= p);
        reveal_with_fuel(graft, 2);
    } else {
        assert(p.push(i).skip(1) =~= p.skip(1).push(i));
        lemma_graft_step(n.children[p[0] as int], p.skip(1), i, x);
    }
}

proof fn lemma_graft_same(n: NodeView, p: Seq<usize>)
    requires
        descend(n, p) is Some,
    ensures
        graft(n, p, descend(n, p)->0) == n,
    decreases p.len(),
{
    if p.len() > 0 {
        let i = p[0] as int;
        lemma_graft_same(n.children[i], p.skip(1));
        assert(n.children.update(i, n.children[i]) =~= n.children);
    }
}

/// The paths in a list.
spec fn steps_view(v: Seq<Vec<usize>>) -> Seq<Seq<usize>> {
    Seq::new(v.len(), |i: int| v[i]@)
}

/// The tree with the node that a path leads to folded up.
spec fn collapsed_at(n: NodeView, p: Seq<usize>) -> NodeView {
    match descend(n, p) {
        Some(x) => graft(n, p, collapsed(x)),
        None => n,
    }
}

/// The tree with the nodes that some paths lead to folded up, the last first.
spec fn collapsed_all(n: NodeView, todo: Seq<Seq<usize>>) -> NodeView
    decreases todo.len(),
{
    if todo.len() == 0 {
        n
    } else {
        collapsed_all(collapsed_at(n, todo.last()), todo.drop_last())
    }
}

/// The paths of the first `k` children of the node that a path leads to.
spec fn child_paths(p: Seq<usize>, k: nat) -> Seq<Seq<usize>> {
    Seq::new(k, |j: int| p.push(j as usize))
}

/// A node of which all children but the first `k` are folded up.
spec fn half_collapsed(x: NodeView, k: int) -> NodeView {
    NodeView {
        expanded: false,
        children: Seq::new(
            x.children.len(),
            |j: int|
                if j < k {
                    x.children[j]
                } else {
                    collapsed(x.children[j])
                },
        ),
        ..x
    }
}

/// How many nodes a tree has.
spec fn weight(n: NodeView) -> nat
    decreases n, n.children.len() + 1,
{
    1 + weight_below(n, n.children.len() as int)
}

spec fn weight_below(n: NodeView, k: int) -> nat
    decreases n, k,
{
    if 0 < k <= n.children.len() {
        weight_below(n, k - 1) + weight(n.children[k - 1])
    } else {
        0
    }
}

spec fn weight_at(n: NodeView, p: Seq<usize>) -> nat {
    match descend(n, p) {
        Some(x) => weight(x),
        None => 1,
    }
}

spec fn weight_of(n: NodeView, todo: Seq<Seq<usize>>) -> nat
    decreases todo.len(),
{
    if todo.len() == 0 {
        0
    } else {
        weight_at(n, todo.last()) + weight_of(n, todo.drop_last())
    }
}

proof fn lemma_descend_graft(n: NodeView, p: Seq<usize>, x: NodeView)
    requires
        descend(n, p) is Some,
    ensures
        descend(graft(n, p, x), p) == Some(x),
    decreases p.len(),
{
    if p.len() > 0 {
        lemma_descend_graft(n.children[p[0] as int], p.skip(1), x);
    }
}

proof fn lemma_graft_twice(n: NodeView, p: Seq<usize>, x: NodeView, y: NodeView)
    requires
        descend(n, p) is Some,
    ensures
        graft(graft(n, p, x), p, y) == graft(n, p, y),
    decreases p.len(),
{
    if p.len() > 0 {
        let i = p[0] as int;
        lemma_graft_twice(n.children[i], p.skip(1), x, y);
        let c = graft(n.children[i], p.skip(1), x);
        let d = graft(n.children[i], p.skip(1), y);
        assert(n.children.update(i, c).update(i, d) =~= n.children.update(i, d));
    }
}

proof fn lemma_children_collapse(n: NodeView, p: Seq<usize>, x: NodeView, k: nat)
    requires
        descend(n, p) is Some,
        k <= x.children.len() <= usize::MAX,
    ensures
        collapsed_all(graft(n, p, half_collapsed(x, k as int)), child_paths(p, k)) == graft(
            n,
            p,
            half_collapsed(x, 0),
        ),
    decreases k,
{
    let todo = child_paths(p, k);
    if k > 0 {
        let i = (k - 1) as usize;
        let y = half_collapsed(x, k as int);
        let t = graft(n, p, y);
        lemma_descend_graft(n, p, y);
        assert(todo.last() == p.push(i));
        assert(todo.drop_last() =~= child_paths(p, (k - 1) as nat));
        lemma_descend_on(t, p, seq![i]);
        assert(p + seq![i] =~= p.push(i));
        lemma_descend_one(y, seq![i]);
        let z = collapsed(y.children[i as int]);
        lemma_graft_step(t, p, i, z);
        let w = NodeView { children: y.children.update(i as int, z), ..y };
        lemma_graft_twice(n, p, y, w);
        assert(w.children =~= half_collapsed(x, k - 1).children);
        assert(collapsed_at(t, p.push(i)) == graft(n, p, half_collapsed(x, k - 1)));
        lemma_children_collapse(n, p, x, (k - 1) as nat);
    }
}

proof fn lemma_collapsed_on(n: NodeView, a: Seq<Seq<usize>>, b: Seq<Seq<usize>>)
    ensures
        collapsed_all(n, a + b) == collapsed_all(collapsed_all(n, b), a),
    decreases b.len(),
{
    if b.len() == 0 {
        assert(a + b =~= a);
    } else {
        assert((a + b).last() == b.last());
        assert((a + b).drop_last() =~= a + b.drop_last());
        lemma_collapsed_on(collapsed_at(n, b.last()), a, b.drop_last());
    }
}

proof fn lemma_weight_below(n: NodeView, m: NodeView, k: int)
    requires
        n.children.len() == m.children.len(),
        forall|j: int| 0 <= j < n.children.len() ==> #[trigger] weight(n.children[j]) == weight(
            m.children[j],
        ),
    ensures
        weight_below(n, k) == weight_below(m, k),
    decreases k,
{
    if 0 < k <= n.children.len() {
        lemma_weight_below(n, m, k - 1);
        assert(weight(n.children[k - 1]) == weight(m.children[k - 1]));
    }
}

proof fn lemma_weight_stays(n: NodeView, p: Seq<usize>, x: NodeView, q: Seq<usize>)
    requires
        descend(n, p) is Some,
        x.children == (descend(n, p)->0).children,
    ensures
        weight_at(graft(n, p, x), q) == weight_at(n, q),
        weight(graft(n, p, x)) == weight(n),
    decreases p.len(),
{
    let t = graft(n, p, x);
    if p.len() == 0 {
        lemma_weight_below(t, n, n.children.len() as int);
    } else {
        let i = p[0] as int;
        let c = n.children[i];
        lemma_weight_stays(c, p.skip(1), x, q.skip(1));
        assert forall|j: int| 0 <= j < n.children.len() implies #[trigger] weight(t.children[j])
            == weight(n.children[j]) by {}
        lemma_weight_below(t, n, n.children.len() as int);
    }
}

proof fn lemma_weight_of_stays(n: NodeView, p: Seq<usize>, x: NodeView, todo: Seq<Seq<usize>>)
    requires
        descend(n, p) is Some,
        x.children == (descend(n, p)->0).children,
    ensures
        weight_of(graft(n, p, x), todo) == weight_of(n, todo),
    decreases todo.len(),
{
    if todo.len() > 0 {
        lemma_weight_stays(n, p, x, todo.last());
        lemma_weight_of_stays(n, p, x, todo.drop_last());
    }
}

proof fn lemma_weight_of_children(n: NodeView, a: Seq<Seq<usize>>, p: Seq<usize>, k: nat)
    requires
        descend(n, p) is Some,
        k <= (descend(n, p)->0).children.len() <= usize::MAX,
    ensures
        weight_of(n, a + child_paths(p, k)) == weight_of(n, a) + weight_below(
            descend(n, p)->0,
            k as int,
        ),
    decreases k,
{
    let b = child_paths(p, k);
    if k == 0 {
        assert(a + b =~= a);
    } else {
        let x = descend(n, p)->0;
        let i = (k - 1) as usize;
        assert((a + b).last() == p.push(i));
        assert((a + b).drop_last() =~= a + child_paths(p, (k - 1) as nat));
        lemma_descend_on(n, p, seq![i]);
        assert(p + seq![i] =~= p.push(i));
        lemma_descend_one(x, seq![i]);
        lemma_weight_of_children(n, a, p, (k - 1) as nat);
    }
}

/// Folding up one node, and everything below it later.
spec fn one_collapsed(t: NodeView, p: Seq<usize>) -> NodeView {
    match descend(t, p) {
        Some(x) => if x.expanded {
            graft(t, p, NodeView { expanded: false, ..x })
        } else {
            t
        },
        None => t,
    }
}

/// How many children of a node are to be folded up once it is.
spec fn to_collapse(t: NodeView, p: Seq<usize>) -> nat {
    match descend(t, p) {
        Some(x) => if x.expanded {
            x.children.len()
        } else {
            0
        },
        None => 0,
    }
}

proof fn lemma_collapse_step(t: NodeView, p: Seq<usize>, rest: Seq<Seq<usize>>)
    requires
        to_collapse(t, p) <= usize::MAX,
    ensures
        collapsed_all(one_collapsed(t, p), rest + child_paths(p, to_collapse(t, p)))
            == collapsed_all(collapsed_at(t, p), rest),
        weight_of(one_collapsed(t, p), rest + child_paths(p, to_collapse(t, p))) < weight_at(t, p)
            + weight_of(t, rest),
{
    let kids = child_paths(p, to_collapse(t, p));
    match descend(t, p) {
        Some(x) => {
            if x.expanded {
                let m = x.children.len();
                let y = NodeView { expanded: false, ..x };
                assert(half_collapsed(x, m as int).children =~= x.children);
                assert(half_collapsed(x, 0).children =~= collapsed(x).children);
                lemma_children_collapse(t, p, x, m);
                lemma_collapsed_on(graft(t, p, y), rest, kids);
                lemma_weight_of_stays(t, p, y, rest + kids);
                lemma_weight_of_children(t, rest, p, m);
            } else {
                lemma_graft_same(t, p);
                assert(rest + kids =~= rest);
            }
        },
        None => {
            assert(rest + kids =~= rest);
        },
    }
}

proof fn lemma_without_nothing(n: NodeView, path: Seq<usize>)
    requires
        descend(n, path) is None,
    ensures
        without(n, path) == n,
{
    reveal_with_fuel(descend, 3);
    assert(path.len() == 1 ==> path.skip(1).len() == 0);
}

proof fn lemma_descend_one(n: NodeView, path: Seq<usize>)
    ensures
        path.len() == 1 && path[0] < n.children.len() ==> descend(n, path) == Some(
            n.children[path[0] as int],
        ),
{
    reveal_with_fuel(descend, 3);
    assert(path.len() == 1 ==> path.skip(1).len() == 0);
}

/// Whether the totals over a list of nodes fit their fields.
pub fn totals_in_range(children: &[Node]) -> (r: bool)
    ensures
        r == totals_fit(forest_view(children@)),
{
    let ghost kids = forest_view(children@);
    let mut logical: u64 = 0;
    let mut physical: u64 = 0;
    let mut files: u64 = 0;
    let mut folders: u64 = 0;
    let mut i: usize = 0;
    while i < children.len()
        invariant
            i <= children.len(),
            kids == forest_view(children@),
            logical == logical_total(kids.take(i as int)),
            physical == physical_total(kids.take(i as int)),
            files == file_total(kids.take(i as int)),
            folders == folder_total(kids.take(i as int)),
        decreases children.len() - i,
    {
        let c = &children[i];
        proof {
            lemma_totals_prefix(kids, i as int);
            assert(kids[i as int] == c@);
        }
        let (own_files, own_folders): (u64, u64) = if c.is_file() {
            (1, 0)
        } else {
            (0, 1)
        };
        if c.logical_size > u64::MAX - logical || c.physical_size > u64::MAX - physical
            || c.file_count > u64::MAX - files || own_files > u64::MAX - files - c.file_count
            || c.folder_count > u64::MAX - folders || own_folders > u64::MAX - folders
            - c.folder_count {
            return false;
        }
        logical = logical + c.logical_size;
        physical = physical + c.physical_size;
        files = files + c.file_count + own_files;
        folders = folders + c.folder_count + own_folders;
        i += 1;
    }
    assert(kids.take(i as int) =~= kids);
    true
}

fn max_u64(a: u64, b: u64) -> (r: u64)
    ensures
        r == if a < b {
            b
        } else {
            a
        },
{
    if a < b {
        b
    } else {
        a
    }
}

impl Clone for Node {
    fn clone(&self) -> (r: Self)
        ensures
            r@ == self@,
        decreases self,
    {
        let mut children: Vec<Node> = Vec::new();
        let mut i: usize = 0;
        while i < self.children.len()
            invariant
                i <= self.children.len(),
                children@.len() == i,
                forall|k: int| 0 <= k < i ==> (#[trigger] children@[k])@ == self.children@[k]@,
            decreases self.children.len() - i,
        {
            let c = self.children[i].clone();
            children.push(c);
            i += 1;
        }
        let full_path_override = match &self.full_path_override {
            Some(p) => Some(p.clone()),
            None => None,
        };
        let r = Node {
            name: self.name.clone(),
            size: self.size,
            logical_size: self.logical_size,
            physical_size: self.physical_size,
            kind: self.kind,
            color: self.color,
            children,
            expanded: self.expanded,
            file_count: self.file_count,
            folder_count: self.folder_count,
            modified_ft: self.modified_ft,
            created_ft: self.created_ft,
            accessed_ft: self.accessed_ft,
            attributes: self.attributes,
            reparse_tag: self.reparse_tag,
            is_reserved: self.is_reserved,
            owner: self.owner.clone(),
            full_path_override,
        };
        assert(r@.children =~= self@.children);
        r
    }
}

impl Node {
    /// Gives a node made up for display its real path.
    pub fn with_full_path(self, path: String) -> (r: Self)
        ensures
            r@ == (NodeView { full_path_override: Some(path@), ..self@ }),
    {
        let mut r = self;
        r.full_path_override = Some(path);
        assert(r@.children =~= self@.children);
        r
    }

    /// A folder with the given children and nothing else known of it.
    pub fn new_folder(name: String, color: Color32, children: Vec<Node>) -> (r: Self)
        requires
            totals_fit(forest_view(children@)),
        ensures
            r@ == folder_view(
                name@,
                color,
                forest_view(children@),
                0,
                0,
                0,
                0x10,
                0,
                false,
                Seq::empty(),
            ),
    {
        Self::new_folder_with_meta(name, color, children, 0, 0, 0, 0x10, 0, false, String::new())
    }

    /// A folder: the children are sorted and the totals taken over them. Its modification
    /// time is the latest of its own and its children's.
    pub fn new_folder_with_meta(
        name: String,
        color: Color32,
        children: Vec<Node>,
        modified_ft: u64,
        created_ft: u64,
        accessed_ft: u64,
        attributes: u32,
        reparse_tag: u32,
        is_reserved: bool,
        owner: String,
    ) -> (r: Self)
        requires
            totals_fit(forest_view(children@)),
        ensures
            r@ == folder_view(
                name@,
                color,
                forest_view(children@),
                modified_ft,
                created_ft,
                accessed_ft,
                attributes,
                reparse_tag,
                is_reserved,
                owner@,
            ),
    {
        let ghost kids = forest_view(children@);
        let ghost lt = |a: Node, b: Node| child_before(a@, b@);
        let ghost ltv = |a: NodeView, b: NodeView| child_before(a, b);
        let ghost given = children@;
        let less = |a: &Node, b: &Node| -> (o: bool)
            ensures
                o == child_before((*a)@, (*b)@),
            {
                a.logical_size > b.logical_size || (a.logical_size == b.logical_size
                    && a.is_folder() && !b.is_folder())
            };
        let mut r = Self::folder_as_given(
            name,
            color,
            children,
            modified_ft,
            created_ft,
            accessed_ft,
            attributes,
            reparse_tag,
            is_reserved,
            owner,
        );
        let ghost whole = r@;
        proof {
            lemma_children(r);
        }
        let mut unsorted: Vec<Node> = Vec::new();
        std::mem::swap(&mut unsorted, &mut r.children);
        let ghost held = unsorted@;
        r.children = merge_sort(unsorted, &less, Ghost(lt), Ghost(|n: Node| true));
        proof {
            let f = |n: Node| n@;
            crate::sorting::lemma_sort_map(held, lt, f, ltv);
            assert(held.map_values(f) =~= kids);
            assert(r.children@.map_values(f) =~= forest_view(r.children@));
            lemma_children(r);
        }
        r
    }

    /// A folder whose children stay in the order in which they are given.
    pub(crate) fn folder_as_given(
        name: String,
        color: Color32,
        children: Vec<Node>,
        modified_ft: u64,
        created_ft: u64,
        accessed_ft: u64,
        attributes: u32,
        reparse_tag: u32,
        is_reserved: bool,
        owner: String,
    ) -> (r: Self)
        requires
            totals_fit(forest_view(children@)),
        ensures
            r@ == ordered_folder_view(
                name@,
                color,
                forest_view(children@),
                modified_ft,
                created_ft,
                accessed_ft,
                attributes,
                reparse_tag,
                is_reserved,
                owner@,
            ),
    {
        let ghost kids = forest_view(children@);
        let mut logical_size: u64 = 0;
        let mut physical_size: u64 = 0;
        let mut file_count: u64 = 0;
        let mut folder_count: u64 = 0;
        let mut newest: u64 = 0;
        let mut i: usize = 0;
        while i < children.len()
            invariant
                i <= children.len(),
                kids == forest_view(children@),
                totals_fit(kids),
                logical_size == logical_total(kids.take(i as int)),
                physical_size == physical_total(kids.take(i as int)),
                file_count == file_total(kids.take(i as int)),
                folder_count == folder_total(kids.take(i as int)),
                newest == latest(kids.take(i as int)),
            decreases children.len() - i,
        {
            let c = &children[i];
            proof {
                lemma_totals_prefix(kids, i as int);
                assert(kids[i as int] == c@);
            }
            logical_size = logical_size + c.logical_size;
            physical_size = physical_size + c.physical_size;
            file_count = file_count + c.file_count;
            folder_count = folder_count + c.folder_count;
            if c.is_file() {
                file_count = file_count + 1;
            } else {
                folder_count = folder_count + 1;
            }
            newest = max_u64(newest, c.modified_ft);
            i += 1;
        }
        assert(kids.take(i as int) =~= kids);
        let r = Node {
            name,
            size: logical_size,
            logical_size,
            physical_size,
            kind: NodeKind::Folder,
            color,
            children,
            expanded: false,
            file_count,
            folder_count,
            modified_ft: max_u64(modified_ft, newest),
            created_ft,
            accessed_ft,
            attributes: if attributes == 0 {
                0x10
            } else {
                attributes
            },
            reparse_tag,
            is_reserved,
            owner,
            full_path_override: None,
        };
        proof {
            lemma_children(r);
        }
        r
    }

    /// A file of which only name and size are known.
    pub fn new_file(name: String, logical: u64, color: Color32) -> (r: Self)
        ensures
            r@ == file_view(
                name@,
                logical,
                logical,
                color,
                0,
                0,
                0,
                0x80,
                0,
                false,
                Seq::empty(),
            ),
    {
        Self::new_file_with_meta(
            name,
            logical,
            logical,
            color,
            0,
            0,
            0,
            0x80,
            0,
            false,
            String::new(),
        )
    }

    /// A file.
    pub fn new_file_with_meta(
        name: String,
        logical_size: u64,
        physical_size: u64,
        color: Color32,
        modified_ft: u64,
        created_ft: u64,
        accessed_ft: u64,
        attributes: u32,
        reparse_tag: u32,
        is_reserved: bool,
        owner: String,
    ) -> (r: Self)
        ensures
            r@ == file_view(
                name@,
                logical_size,
                physical_size,
                color,
                modified_ft,
                created_ft,
                accessed_ft,
                attributes,
                reparse_tag,
                is_reserved,
                owner@,
            ),
    {
        let r = Node {
            name,
            size: logical_size,
            logical_size,
            physical_size,
            kind: NodeKind::File,
            color,
            children: Vec::new(),
            expanded: false,
            file_count: 0,
            folder_count: 0,
            modified_ft,
            created_ft,
            accessed_ft,
            attributes: if attributes == 0 {
                0x80
            } else {
                attributes
            },
            reparse_tag,
            is_reserved,
            owner,
            full_path_override: None,
        };
        assert(r@.children =~= Seq::<NodeView>::empty());
        r
    }

    pub fn is_folder(&self) -> (b: bool)
        ensures
            b == self@.is_folder(),
    {
        self.kind == NodeKind::Folder
    }

    pub fn is_file(&self) -> (b: bool)
        ensures
            b == self@.is_file(),
    {
        self.kind == NodeKind::File
    }

    /// Whether Explorer would show this entry faded.
    pub fn is_hidden_or_system(&self) -> (b: bool)
        ensures
            b == self@.hidden_or_system(),
    {
        self.attributes & (FILE_ATTRIBUTE_HIDDEN | FILE_ATTRIBUTE_SYSTEM) != 0
    }

    /// Whether this is a symbolic link, junction or mount point.
    pub fn is_reparse_point(&self) -> (b: bool)
        ensures
            b == self@.reparse_point(),
    {
        self.reparse_tag != 0 || self.attributes & FILE_ATTRIBUTE_REPARSE_POINT != 0
    }

    /// The node that a path leads to.
    pub fn navigate(&self, path: &[usize]) -> (r: Option<&Node>)
        ensures
            match r {
                Some(n) => descend(self@, path@) == Some(n@),
                None => descend(self@, path@) is None,
            },
    {
        let mut cur = self;
        let mut k: usize = 0;
        assert(path@.skip(0) =~= path@);
        while k < path.len()
            invariant
                k <= path.len(),
                descend(cur@, path@.skip(k as int)) == descend(self@, path@),
            decreases path.len() - k,
        {
            proof {
                assert(path@.skip(k as int).skip(1) =~= path@.skip(k + 1));
            }
            let i: usize = path[k];
            if i >= cur.children.len() {
                return None;
            }
            cur = &cur.children[i];
            k += 1;
        }
        assert(path@.skip(k as int).len() == 0);
        Some(cur)
    }

    /// The node that a path leads to, without changing the tree.
    pub fn get_at_path(&self, path: &[usize]) -> (r: Option<&Node>)
        ensures
            match r {
                Some(n) => descend(self@, path@) == Some(n@),
                None => descend(self@, path@) is None,
            },
    {
        self.navigate(path)
    }

    /// The node that a path leads to, to be changed in place.
    pub fn navigate_mut(&mut self, path: &[usize]) -> (r: Option<&mut Node>)
        ensures
            match r {
                Some(n) => descend(old(self)@, path@) == Some((*n)@) && final(self)@ == graft(
                    old(self)@,
                    path@,
                    (*final(n))@,
                ),
                None => descend(old(self)@, path@) is None && final(self)@ == old(self)@,
            },
    {
        let ghost start = self@;
        let mut k: usize = 0;
        let mut cur = self;
        assert(path@.take(0) =~= Seq::<usize>::empty());
        while k < path.len()
            invariant
                k <= path.len(),
                start == old(self)@,
                descend(start, path@.take(k as int)) == Some((*cur)@),
                (*final(self))@ == graft(start, path@.take(k as int), (*final(cur))@),
            decreases path.len() - k,
        {
            let i: usize = path[k];
            proof {
                lemma_descend_step(start, path@, k as int);
                lemma_children(*cur);
            }
            if i >= cur.children.len() {
                proof {
                    lemma_graft_same(start, path@.take(k as int));
                }
                return None;
            }
            proof {
                lemma_child_changed(*cur, i as int);
            }
            let ghost before = *cur;
            let ghost done = *final(cur);
            cur = &mut cur.children[i];
            proof {
                let x = (*final(cur))@;
                assert(child_changed(before, i as int, done, *final(cur)));
                assert(path@.take(k + 1) =~= path@.take(k as int).push(i));
                lemma_graft_step(start, path@.take(k as int), i, x);
            }
            k += 1;
        }
        assert(path@.take(k as int) =~= path@);
        Some(cur)
    }

    /// Folds up this node and, where it was expanded, everything expanded below it.
    pub fn collapse_all(&mut self)
        ensures
            final(self)@ == collapsed(old(self)@),
    {
        let ghost goal = collapsed(self@);
        let mut todo: Vec<Vec<usize>> = Vec::new();
        let here: Vec<usize> = Vec::new();
        todo.push(here);
        proof {
            let v = steps_view(todo@);
            assert(v =~= seq![Seq::<usize>::empty()]);
            assert(v.drop_last() =~= Seq::<Seq<usize>>::empty());
            reveal_with_fuel(collapsed_all, 2);
        }
        while todo.len() > 0
            invariant
                collapsed_all(self@, steps_view(todo@)) == goal,
            decreases weight_of(self@, steps_view(todo@)),
        {
            let ghost before = steps_view(todo@);
            let ghost t = self@;
            let p = match todo.pop() {
                Some(p) => p,
                None => vstd::pervasive::unreached(),
            };
            let ghost rest = steps_view(todo@);
            assert(rest =~= before.drop_last());
            assert(p@ == before.last());
            let mut below: usize = 0;
            match self.navigate_mut(p.as_slice()) {
                Some(cur) => {
                    let ghost x = *cur;
                    proof {
                        lemma_children(x);
                        lemma_graft_same(t, p@);
                    }
                    if cur.expanded {
                        cur.expanded = false;
                        below = cur.children.len();
                        assert((*cur)@.children =~= x@.children);
                        assert((*cur)@ == (NodeView { expanded: false, ..x@ }));
                    }
                },
                None => {},
            }
            assert(self@ == one_collapsed(t, p@));
            assert(below == to_collapse(t, p@));
            proof {
                lemma_collapse_step(t, p@, rest);
            }
            let mut k: usize = 0;
            assert(rest + child_paths(p@, 0) =~= rest);
            while k < below
                invariant
                    k <= below,
                    steps_view(todo@) == rest + child_paths(p@, k as nat),
                decreases below - k,
            {
                let ghost v = steps_view(todo@);
                let q = crate::tree_list::extended(&p, k);
                todo.push(q);
                assert(steps_view(todo@) =~= v.push(q@));
                k += 1;
                assert(child_paths(p@, k as nat) =~= child_paths(p@, (k - 1) as nat).push(q@));
                assert(rest + child_paths(p@, k as nat) =~= v.push(q@));
            }
        }
    }

    /// Takes the node that a path leads to out of the tree, and what it amounted to off the
    /// totals of every node above it.
    pub fn remove_at_path(&mut self, path: &[usize]) -> (r: Option<Node>)
        requires
            descend(old(self)@, path@) matches Some(n) ==> n.files() <= u64::MAX && n.folders()
                <= u64::MAX,
        ensures
            final(self)@ == without(old(self)@, path@),
            match r {
                Some(n) => path@.len() > 0 && descend(old(self)@, path@) == Some(n@),
                None => path@.len() == 0 || descend(old(self)@, path@) is None,
            },
        decreases path@.len(),
    {
        if path.len() == 0 {
            return None;
        }
        let idx: usize = path[0];
        if idx >= self.children.len() {
            return None;
        }
        let ghost before = *self;
        proof {
            lemma_descend_one(self@, path@);
            lemma_child_changed(*self, idx as int);
            assert(path@.len() == 1 ==> path@.skip(1).len() == 0);
        }
        let removed = if path.len() == 1 {
            let removed = self.children.remove(idx);
            assert(self@.children =~= before@.children.remove(idx as int));
            removed
        } else {
            let rest = slice_subrange(path, 1, path.len());
            assert(rest@ =~= path@.skip(1));
            match self.children[idx].remove_at_path(rest) {
                Some(n) => n,
                None => {
                    assert(child_changed(before, idx as int, *self, self.children@[idx as int]));
                    proof {
                        lemma_without_nothing(before.children@[idx as int]@, rest@);
                    }
                    return None;
                },
            }
        };
        let ghost mid = *self;
        proof {
            if path@.len() > 1 {
                assert(child_changed(before, idx as int, mid, mid.children@[idx as int]));
            }
        }
        let removed_files: u64 = removed.file_count + if removed.is_file() {
            1
        } else {
            0
        };
        let removed_folders: u64 = removed.folder_count + if removed.is_folder() {
            1
        } else {
            0
        };
        self.logical_size = self.logical_size.saturating_sub(removed.logical_size);
        self.size = self.logical_size;
        self.physical_size = self.physical_size.saturating_sub(removed.physical_size);
        self.file_count = self.file_count.saturating_sub(removed_files);
        self.folder_count = self.folder_count.saturating_sub(removed_folders);
        assert(self@.children =~= mid@.children);
        Some(removed)
    }

    /// Puts another node in the place that a path leads to, and brings the totals of every
    /// node above it up to date.
    pub fn replace_at_path(&mut self, path: &[usize], new_node: Node) -> (ok: bool)
        requires
            descend(old(self)@, path@) matches Some(n) ==> n.files() <= u64::MAX && n.folders()
                <= u64::MAX,
            new_node@.files() <= u64::MAX,
            new_node@.folders() <= u64::MAX,
        ensures
            final(self)@ == replaced(old(self)@, path@, new_node@),
            ok == (path@.len() > 0 && descend(old(self)@, path@) is Some),
        decreases path@.len(),
    {
        if path.len() == 0 {
            return false;
        }
        let idx: usize = path[0];
        if idx >= self.children.len() {
            return false;
        }
        let ghost before = *self;
        proof {
            lemma_child_changed(*self, idx as int);
            lemma_descend_one(self@, path@);
        }
        if path.len() == 1 {
            let old_logical: u64 = self.children[idx].logical_size;
            let old_physical: u64 = self.children[idx].physical_size;
            let old_files: u64 = self.children[idx].file_count + if self.children[idx].is_file() {
                1
            } else {
                0
            };
            let old_folders: u64 = self.children[idx].folder_count
                + if self.children[idx].is_folder() {
                1
            } else {
                0
            };
            let new_files: u64 = new_node.file_count + if new_node.is_file() {
                1
            } else {
                0
            };
            let new_folders: u64 = new_node.folder_count + if new_node.is_folder() {
                1
            } else {
                0
            };
            self.logical_size =
            self.logical_size.saturating_sub(old_logical).saturating_add(new_node.logical_size);
            self.size = self.logical_size;
            self.physical_size =
            self.physical_size.saturating_sub(old_physical).saturating_add(new_node.physical_size);
            self.file_count = self.file_count.saturating_sub(old_files).saturating_add(new_files);
            self.folder_count =
            self.folder_count.saturating_sub(old_folders).saturating_add(new_folders);
            self.children[idx] = new_node;
            assert(self@.children =~= before@.children.update(idx as int, new_node@));
            true
        } else {
            let rest = slice_subrange(path, 1, path.len());
            assert(rest@ =~= path@.skip(1));
            let old_logical: u64 = self.children[idx].logical_size;
            let old_physical: u64 = self.children[idx].physical_size;
            let old_files: u64 = self.children[idx].file_count;
            let old_folders: u64 = self.children[idx].folder_count;
            let ok = self.children[idx].replace_at_path(rest, new_node);
            let ghost mid = *self;
            assert(child_changed(before, idx as int, mid, mid.children@[idx as int]));
            assert(!ok ==> replaced(before@.children[idx as int], rest@, new_node@)
                == before@.children[idx as int]);
            if ok {
                let new_logical: u64 = self.children[idx].logical_size;
                let new_physical: u64 = self.children[idx].physical_size;
                let new_files: u64 = self.children[idx].file_count;
                let new_folders: u64 = self.children[idx].folder_count;
                self.logical_size =
                self.logical_size.saturating_sub(old_logical).saturating_add(new_logical);
                self.size = self.logical_size;
                self.physical_size =
                self.physical_size.saturating_sub(old_physical).saturating_add(new_physical);
                self.file_count =
                self.file_count.saturating_sub(old_files).saturating_add(new_files);
                self.folder_count =
                self.folder_count.saturating_sub(old_folders).saturating_add(new_folders);
                assert(self@.children =~= mid@.children);
            }
            ok
        }
    }

    /// Folds up everything beside the node that a path leads to, and expands that node
    /// unless it was expanded. Whether it is expanded now.
    pub fn exclusive_toggle(&mut self, path: &[usize]) -> (opened: bool)
        ensures
            match (path@.len() > 0, descend(old(self)@, path@.drop_last())) {
                (true, Some(parent)) => {
                    &&& final(self)@ == graft(
                        old(self)@,
                        path@.drop_last(),
                        exclusive(parent, path@.last()),
                    )
                    &&& opened == (path@.last() < parent.children.len()
                        && !parent.children[path@.last() as int].expanded)
                },
                _ => final(self)@ == old(self)@ && !opened,
            },
    {
        if path.len() == 0 {
            return false;
        }
        let last: usize = path.len() - 1;
        let target: usize = path[last];
        let above = slice_subrange(path, 0, last);
        assert(above@ =~= path@.drop_last());
        match self.navigate_mut(above) {
            Some(parent) => parent.exclusive_child(target),
            None => false,
        }
    }

    fn exclusive_child(&mut self, target: usize) -> (opened: bool)
        ensures
            final(self)@ == exclusive(old(self)@, target),
            opened == (target < old(self)@.children.len()
                && !old(self)@.children[target as int].expanded),
    {
        let was_expanded = target < self.children.len() && self.children[target].expanded;
        let mut i: usize = 0;
        let ghost n = self.children@.len();
        while i < self.children.len()
            invariant
                i <= n,
                self.children@.len() == n,
                n == old(self).children@.len(),
                *self == (Node { children: self.children, ..*old(self) }),
                forall|k: int|
                    0 <= k < i ==> (#[trigger] self.children@[k])@ == collapsed(
                        old(self).children@[k]@,
                    ),
                forall|k: int|
                    i <= k < n ==> #[trigger] self.children@[k] == old(self).children@[k],
            decreases n - i,
        {
            assert(self.children@[i as int] == old(self).children@[i as int]);
            self.children[i].collapse_all();
            i += 1;
        }
        if !was_expanded && target < self.children.len() {
            let ghost c = self.children@[target as int];
            self.children[target].expanded = true;
            proof {
                let d = self.children@[target as int];
                assert(d@.children =~= c@.children);
                assert(self@.children =~= exclusive(old(self)@, target).children);
            }
            return true;
        }
        assert(self@.children =~= exclusive(old(self)@, target).children);
        false
    }

    /// Expands the node that a path leads to, or folds it up where it was expanded; its
    /// siblings stay as they are. Whether there is such a node.
    pub fn toggle_expand(&mut self, path: &[usize]) -> (found: bool)
        ensures
            match descend(old(self)@, path@) {
                Some(n) => found && final(self)@ == graft(old(self)@, path@, toggled_node(n)),
                None => !found && final(self)@ == old(self)@,
            },
    {
        match self.navigate_mut(path) {
            Some(target) => {
                target.toggle_here();
                true
            },
            None => false,
        }
    }

    fn toggle_here(&mut self)
        ensures
            final(self)@ == toggled_node(old(self)@),
    {
        if self.expanded {
            self.collapse_all();
        } else {
            self.expanded = true;
            assert(self@.children =~= old(self)@.children);
        }
    }
}

} // verus!
