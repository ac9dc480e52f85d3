//! The flat name index that finding and searching share.
//!
//! The names of all nodes below the roots lie back to back in two buffers, once as they are
//! and once in lower case, in the order of the tree; beside them stands one entry per node
//! with everything that a list shows of it. The index holds no reference to the tree.

use std::time::{Duration, Instant};

use vstd::prelude::*;

use crate::index_model::{
    at_least_one, count_u32, entry_of, index_from, index_node, index_of,
    index_roots, joined, level_below, linked_at, root_dir, root_level, root_of, well_linked,
    file_numbers, EntryView, IndexView, Level, RootView,
};
use crate::model::{forest_view, Node, NodeView};
use crate::pools::{texts_view, NameBlob, TextPool};
use crate::text::{owned, str_lowercase, to_lowercase, trim_end_char};

verus! {

/// The parent of an entry whose parent is a root.
pub const NO_PARENT: u32 = 0xFFFF_FFFF;

/// The folder of an entry in an index that keeps no paths.
pub const NO_DIR: u32 = 0xFFFF_FFFF;

/// One node of the tree, as the index keeps it.
#[derive(Clone)]
pub struct IdxEntry {
    /// The root it stands under.
    pub pi: u32,
    /// Its index among the children of its parent.
    pub child_idx: u32,
    /// The entry of its parent, or [`NO_PARENT`].
    pub parent: u32,
    /// Its depth; children of a root have depth 1.
    pub depth: u32,
    /// Bit 0: a file. Bit 1: NTFS metadata.
    pub flags: u32,
    /// The number of its folder's path, or [`NO_DIR`].
    pub dir: u32,
    /// The number of its owner.
    pub owner: u32,
    /// The logical size of its parent, at least 1.
    pub parent_logical: u64,
    pub logical_size: u64,
    pub physical_size: u64,
    pub modified_ft: u64,
    pub created_ft: u64,
    pub accessed_ft: u64,
    pub attributes: u32,
    pub reparse_tag: u32,
    pub file_count: u32,
    pub folder_count: u32,
}

impl IdxEntry {
    /// Whether this is a file.
    pub fn is_file(&self) -> (b: bool)
        ensures
            b == (self.flags & 1 != 0),
    {
        self.flags & 1 != 0
    }

    /// Whether this is NTFS metadata.
    pub fn is_reserved(&self) -> (b: bool)
        ensures
            b == (self.flags & 2 != 0),
    {
        self.flags & 2 != 0
    }
}

/// What the index keeps of a root.
#[derive(Clone)]
pub struct RootInfo {
    pub name: String,
    pub logical_size: u64,
    pub physical_size: u64,
    pub modified_ft: u64,
    pub created_ft: u64,
    pub accessed_ft: u64,
    pub attributes: u32,
    pub reparse_tag: u32,
    pub is_reserved: bool,
    pub owner: String,
    pub file_count: u64,
    pub folder_count: u64,
    /// The number of its path, or [`NO_DIR`].
    pub dir: u32,
}

/// A number with a value for "none" stands for an option.
pub open spec fn numbered(id: u32, none: u32, v: Option<int>) -> bool {
    match v {
        Some(n) => id == n && id != none,
        None => id == none,
    }
}

/// A number in a pool, or the value for "none", stands for an optional text.
pub open spec fn pooled(id: u32, none: u32, pool: Seq<Seq<char>>, v: Option<Seq<char>>) -> bool {
    match v {
        Some(t) => id < pool.len() && pool[id as int] == t && id != none,
        None => id == none,
    }
}

/// An entry stands for a node.
pub open spec fn entry_matches(
    e: IdxEntry,
    v: EntryView,
    dirs: Seq<Seq<char>>,
    owners: Seq<Seq<char>>,
) -> bool {
    &&& e.pi == v.pi
    &&& e.child_idx == v.child_idx
    &&& numbered(e.parent, NO_PARENT, v.parent)
    &&& e.depth == v.depth
    &&& (e.flags & 1 != 0) == v.is_file
    &&& (e.flags & 2 != 0) == v.is_reserved
    &&& pooled(e.dir, NO_DIR, dirs, v.dir)
    &&& e.owner < owners.len()
    &&& owners[e.owner as int] == v.owner
    &&& e.parent_logical == v.parent_logical
    &&& e.logical_size == v.logical_size
    &&& e.physical_size == v.physical_size
    &&& e.modified_ft == v.modified_ft
    &&& e.created_ft == v.created_ft
    &&& e.accessed_ft == v.accessed_ft
    &&& e.attributes == v.attributes
    &&& e.reparse_tag == v.reparse_tag
    &&& e.file_count == v.file_count
    &&& e.folder_count == v.folder_count
}

/// The record of a root stands for it.
pub open spec fn root_matches(r: RootInfo, v: RootView, dirs: Seq<Seq<char>>) -> bool {
    &&& r.name@ == v.name
    &&& r.logical_size == v.logical_size
    &&& r.physical_size == v.physical_size
    &&& r.modified_ft == v.modified_ft
    &&& r.created_ft == v.created_ft
    &&& r.accessed_ft == v.accessed_ft
    &&& r.attributes == v.attributes
    &&& r.reparse_tag == v.reparse_tag
    &&& r.is_reserved == v.is_reserved
    &&& r.owner@ == v.owner
    &&& r.file_count == v.file_count
    &&& r.folder_count == v.folder_count
    &&& pooled(r.dir, NO_DIR, dirs, v.dir)
}

/// A node that waits for its entry.
struct BuildFrame<'a> {
    node: &'a Node,
    pi: u32,
    child_idx: u32,
    parent: u32,
    depth: u32,
    parent_logical: u64,
    dir: u32,
    level: Ghost<Level>,
}

/// The numbers of a frame stand for the level it says it is on.
spec fn frame_ok(f: BuildFrame, dirs: Seq<Seq<char>>) -> bool {
    &&& f.pi == f.level@.pi
    &&& numbered(f.parent, NO_PARENT, f.level@.parent)
    &&& f.depth == f.level@.depth
    &&& f.parent_logical == f.level@.parent_logical
    &&& pooled(f.dir, NO_DIR, dirs, f.level@.dir)
}

/// A frame hangs on an entry that is there already, or on a root.
spec fn frame_linked(f: BuildFrame, done: Seq<EntryView>, roots: int) -> bool {
    &&& 0 <= f.level@.pi < roots
    &&& 1 <= f.level@.depth <= done.len() + 1
    &&& match f.level@.parent {
        Some(p) => 0 <= p < done.len() && f.level@.depth == done[p].depth + 1 && f.level@.pi
            == done[p].pi && !done[p].is_file,
        None => f.level@.depth == 1,
    }
}

/// The entries of the frames on the stack, the last one first.
spec fn pending(stack: Seq<BuildFrame>, at: int) -> Seq<EntryView>
    decreases stack.len(),
{
    if stack.len() == 0 {
        Seq::empty()
    } else {
        let f = stack.last();
        let first = index_node(f.node@, f.level@, f.child_idx as int, at);
        first + pending(stack.drop_last(), at + first.len())
    }
}

/// What records of roots stand for.
spec fn roots_match(roots: Seq<RootInfo>, views: Seq<RootView>, dirs: Seq<Seq<char>>) -> bool {
    &&& roots.len() == views.len()
    &&& forall|k: int|
        0 <= k < roots.len() ==> root_matches(#[trigger] roots[k], views[k], dirs)
}

/// What entries stand for.
spec fn entries_match(
    entries: Seq<IdxEntry>,
    views: Seq<EntryView>,
    dirs: Seq<Seq<char>>,
    owners: Seq<Seq<char>>,
) -> bool {
    &&& entries.len() == views.len()
    &&& forall|k: int|
        0 <= k < entries.len() ==> entry_matches(#[trigger] entries[k], views[k], dirs, owners)
}

/// The names of entries.
pub open spec fn names_of(entries: Seq<EntryView>) -> Seq<Seq<char>> {
    Seq::new(entries.len(), |i: int| entries[i].name)
}

/// The names of entries in lower case.
pub open spec fn lower_names_of(entries: Seq<EntryView>) -> Seq<Seq<char>> {
    Seq::new(entries.len(), |i: int| str_lowercase(entries[i].name))
}

/// Builds a [`NameIndex`] bit by bit, so that no single step takes long.
pub struct IndexBuilder<'a> {
    pub struct_version: u64,
    want_dirs: bool,
    stack: Vec<BuildFrame<'a>>,
    lower: NameBlob,
    orig: NameBlob,
    entries: Vec<IdxEntry>,
    done: Ghost<Seq<EntryView>>,
    roots: Vec<RootInfo>,
    root_views: Ghost<Seq<RootView>>,
    dirs: TextPool,
    owners: TextPool,
}

impl<'a> IndexBuilder<'a> {
    /// The entries that are there already.
    pub closed spec fn built(&self) -> Seq<EntryView> {
        self.done@
    }

    /// The entries that are still to come.
    pub closed spec fn remaining(&self) -> Seq<EntryView> {
        pending(self.stack@, self.done@.len() as int)
    }

    /// The index that comes out in the end.
    pub open spec fn target(&self) -> IndexView {
        IndexView {
            struct_version: self.version(),
            entries: self.built() + self.remaining(),
            roots: self.root_list(),
        }
    }

    /// The version of the tree.
    pub closed spec fn version(&self) -> u64 {
        self.struct_version
    }

    /// What is kept of the roots.
    pub closed spec fn root_list(&self) -> Seq<RootView> {
        self.root_views@
    }

    /// The tables stand for the entries that are there.
    spec fn wf_but_count(&self) -> bool {
        &&& self.wf_but_dirs()
        &&& self.dirs@.len() <= self.root_views@.len() + self.done@.len()
    }

    /// The tables stand for the entries that are there, however many folders there are.
    spec fn wf_but_dirs(&self) -> bool {
        &&& self.lower.wf()
        &&& self.orig.wf()
        &&& self.dirs.wf()
        &&& self.owners.wf()
        &&& self.orig@ == names_of(self.done@)
        &&& self.lower@ == lower_names_of(self.done@)
        &&& entries_match(self.entries@, self.done@, self.dirs@, self.owners@)
        &&& roots_match(self.roots@, self.root_views@, self.dirs@)
        &&& well_linked(self.done@, self.root_views@.len() as int)
        &&& self.owners@.len() <= 1 + self.done@.len()
        &&& forall|k: int|
            0 <= k < self.stack@.len() ==> {
                let f = #[trigger] self.stack@[k];
                &&& frame_ok(f, self.dirs@)
                &&& frame_linked(f, self.done@, self.root_views@.len() as int)
                &&& f.level@.dir is Some == self.want_dirs
            }
    }

    /// The tables stand for the entries that are there, and everything can be numbered.
    pub closed spec fn wf(&self) -> bool {
        &&& self.wf_but_count()
        &&& self.root_views@.len() + self.done@.len() + self.remaining().len() < u32::MAX
    }

    /// The number of a folder's path.
    fn intern_dir(&mut self, dir: &str) -> (id: u32)
        requires
            old(self).wf_but_count(),
            old(self).dirs@.len() < u32::MAX,
        ensures
            final(self).dirs.wf(),
            id < final(self).dirs@.len(),
            final(self).dirs@[id as int] == dir@,
            final(self).dirs@.len() <= old(self).dirs@.len() + 1,
            old(self).dirs@.is_prefix_of(final(self).dirs@),
            *final(self) == (IndexBuilder { dirs: final(self).dirs, ..*old(self) }),
    {
        let id = self.dirs.intern(dir);
        assert(old(self).dirs@ =~= self.dirs@.subrange(0, old(self).dirs@.len() as int));
        id
    }

    /// Adds what is kept of a root.
    fn add_root(&mut self, root: &Node, dir: u32, Ghost(v): Ghost<RootView>)
        requires
            root_matches_node(root@, dir, v, old(self).dirs@),
        ensures
            final(self).roots@.len() == old(self).roots@.len() + 1,
            forall|k: int|
                0 <= k < old(self).roots@.len() ==> #[trigger] final(self).roots@[k]
                    == old(self).roots@[k],
            root_matches(final(self).roots@.last(), v, old(self).dirs@),
            final(self).root_views@ == old(self).root_views@.push(v),
            *final(self) == (IndexBuilder {
                roots: final(self).roots,
                root_views: final(self).root_views,
                ..*old(self)
            }),
    {
        self.roots.push(
            RootInfo {
                name: root.name.clone(),
                logical_size: root.logical_size,
                physical_size: root.physical_size,
                modified_ft: root.modified_ft,
                created_ft: root.created_ft,
                accessed_ft: root.accessed_ft,
                attributes: root.attributes,
                reparse_tag: root.reparse_tag,
                is_reserved: root.is_reserved,
                owner: root.owner.clone(),
                file_count: root.file_count,
                folder_count: root.folder_count,
                dir,
            },
        );
        self.root_views = Ghost(self.root_views@.push(v));
    }
}

/// What is to be kept of a root is what the root holds.
spec fn root_matches_node(n: NodeView, dir: u32, v: RootView, dirs: Seq<Seq<char>>) -> bool {
    &&& v == (RootView {
        name: n.name,
        logical_size: n.logical_size,
        physical_size: n.physical_size,
        modified_ft: n.modified_ft,
        created_ft: n.created_ft,
        accessed_ft: n.accessed_ft,
        attributes: n.attributes,
        reparse_tag: n.reparse_tag,
        is_reserved: n.is_reserved,
        owner: n.owner,
        file_count: n.file_count,
        folder_count: n.folder_count,
        dir: v.dir,
    })
    &&& pooled(dir, NO_DIR, dirs, v.dir)
}


proof fn lemma_pending_push(stack: Seq<BuildFrame>, f: BuildFrame, at: int)
    ensures
        ({
            let first = index_node(f.node@, f.level@, f.child_idx as int, at);
            pending(stack.push(f), at) == first + pending(stack, at + first.len())
        }),
{
    assert(stack.push(f).drop_last() =~= stack);
}

/// Puts the children of a node on the stack, the first one on top.
fn push_frames<'a>(
    stack: &mut Vec<BuildFrame<'a>>,
    node: &'a Node,
    pi: u32,
    parent: u32,
    depth: u32,
    parent_logical: u64,
    dir: u32,
    Ghost(level): Ghost<Level>,
)
    requires
        node@.children.len() <= u32::MAX,
    ensures
        forall|at: int|
            #![trigger pending(final(stack)@, at)]
            pending(final(stack)@, at) == index_from(node@.children, 0, level, at) + pending(
                old(stack)@,
                at + index_from(node@.children, 0, level, at).len(),
            ),
        final(stack)@.len() >= old(stack)@.len(),
        forall|k: int|
            0 <= k < old(stack)@.len() ==> #[trigger] final(stack)@[k] == old(stack)@[k],
        forall|k: int|
            old(stack)@.len() <= k < final(stack)@.len() ==> {
                let f = #[trigger] final(stack)@[k];
                &&& f.pi == pi
                &&& f.parent == parent
                &&& f.depth == depth
                &&& f.parent_logical == parent_logical
                &&& f.dir == dir
                &&& f.level@ == level
            },
{
    let ghost kids = node@.children;
    let ghost base = stack@;
    let mut i: usize = node.children.len();
    proof {
        assert forall|at: int|
            #![trigger pending(stack@, at)]
            pending(stack@, at) == index_from(kids, i as int, level, at) + pending(
                base,
                at + index_from(kids, i as int, level, at).len(),
            ) by {
            assert(index_from(kids, i as int, level, at) + pending(base, at) =~= pending(base, at));
        }
    }
    while i > 0
        invariant
            i <= node.children.len(),
            kids == node@.children,
            kids.len() <= u32::MAX,
            forall|at: int|
                #![trigger pending(stack@, at)]
                pending(stack@, at) == index_from(kids, i as int, level, at) + pending(
                    base,
                    at + index_from(kids, i as int, level, at).len(),
                ),
            stack@.len() >= base.len(),
            forall|k: int| 0 <= k < base.len() ==> #[trigger] stack@[k] == base[k],
            forall|k: int|
                base.len() <= k < stack@.len() ==> {
                    let f = #[trigger] stack@[k];
                    &&& f.pi == pi
                    &&& f.parent == parent
                    &&& f.depth == depth
                    &&& f.parent_logical == parent_logical
                    &&& f.dir == dir
                    &&& f.level@ == level
                },
        decreases i,
    {
        i -= 1;
        let ghost under = stack@;
        let f = BuildFrame {
            node: &node.children[i],
            pi,
            child_idx: i as u32,
            parent,
            depth,
            parent_logical,
            dir,
            level: Ghost(level),
        };
        stack.push(f);
        proof {
            assert(f.node@ == kids[i as int]);
            assert forall|at: int|
                #![trigger pending(stack@, at)]
                pending(stack@, at) == index_from(kids, i as int, level, at) + pending(
                    base,
                    at + index_from(kids, i as int, level, at).len(),
                ) by {
                lemma_pending_push(under, f, at);
                let first = index_node(kids[i as int], level, i as int, at);
                let rest = index_from(kids, i + 1, level, at + first.len());
                let below = pending(base, at + first.len() + rest.len());
                assert(pending(under, at + first.len()) == rest + below);
                assert(first + (rest + below) =~= (first + rest) + below);
            }
        }
    }
}

fn one_or_more(n: u64) -> (r: u64)
    ensures
        r == at_least_one(n),
{
    if n == 0 {
        1
    } else {
        n
    }
}

fn clip_count(n: u64) -> (r: u32)
    ensures
        r == count_u32(n),
{
    if n > 0xFFFF_FFFF {
        0xFFFF_FFFF
    } else {
        n as u32
    }
}

/// How many entries a node takes, as long as that stays below the limit.
fn count_entries(n: &Node, limit: u64) -> (r: Option<u64>)
    ensures
        match r {
            Some(c) => c == crate::index_model::entry_count(n@) && c < limit,
            None => crate::index_model::entry_count(n@) >= limit,
        },
    decreases n,
{
    if limit <= 1 {
        return None;
    }
    proof {
        crate::model::lemma_children(*n);
    }
    if n.is_folder() {
        match count_forest(&n.children, limit - 1, Ghost(n@.children)) {
            Some(c) => Some(c + 1),
            None => None,
        }
    } else {
        Some(1)
    }
}

fn count_forest(kids: &Vec<Node>, limit: u64, Ghost(views): Ghost<Seq<NodeView>>) -> (r: Option<
    u64,
>)
    requires
        views == forest_view(kids@),
        limit > 0,
    ensures
        match r {
            Some(c) => c == crate::index_model::forest_count(views, 0) && c < limit,
            None => crate::index_model::forest_count(views, 0) >= limit,
        },
    decreases kids,
{
    let mut i: usize = kids.len();
    let mut c: u64 = 0;
    while i > 0
        invariant
            i <= kids.len(),
            views == forest_view(kids@),
            c == crate::index_model::forest_count(views, i as int),
            c < limit,
        decreases i,
    {
        i -= 1;
        assert(views[i as int] == kids@[i as int]@);
        match count_entries(&kids[i], limit - c) {
            Some(d) => {
                c = c + d;
            },
            None => {
                proof {
                    lemma_forest_count_suffix(views, i as int);
                }
                return None;
            },
        }
    }
    Some(c)
}

proof fn lemma_forest_count_suffix(kids: Seq<NodeView>, i: int)
    requires
        0 <= i <= kids.len(),
    ensures
        crate::index_model::forest_count(kids, 0) >= crate::index_model::forest_count(kids, i),
    decreases i,
{
    if i > 0 {
        lemma_forest_count_suffix(kids, i - 1);
    }
}


/// Whether the roots and everything below them can be numbered with 32 bits.
pub fn indexable(partitions: &[Node]) -> (r: bool)
    ensures
        r == crate::index_model::fits_index(forest_view(partitions@)),
{
    let ghost views = forest_view(partitions@);
    let n: usize = partitions.len();
    if n as u64 >= 0xFFFF_FFFF {
        return false;
    }
    let limit: u64 = 0xFFFF_FFFF - n as u64;
    let mut i: usize = 0;
    let mut c: u64 = 0;
    while i < n
        invariant
            i <= n,
            n == partitions.len(),
            views == forest_view(partitions@),
            limit == u32::MAX - n,
            c == crate::index_model::roots_count(views, i as int),
            c < limit,
        decreases n - i,
    {
        let root = &partitions[i];
        proof {
            assert(views[i as int] == root@);
            crate::model::lemma_children(*root);
        }
        match count_forest(&root.children, limit - c, Ghost(root@.children)) {
            Some(d) => {
                c = c + d;
            },
            None => {
                proof {
                    lemma_roots_count_prefix(views, i + 1, n as int);
                }
                return false;
            },
        }
        i += 1;
    }
    true
}

proof fn lemma_roots_count_prefix(roots: Seq<NodeView>, i: int, k: int)
    requires
        0 <= i <= k <= roots.len(),
    ensures
        crate::index_model::roots_count(roots, i) <= crate::index_model::roots_count(roots, k),
    decreases k,
{
    if i < k {
        lemma_roots_count_prefix(roots, i, k - 1);
    }
}

/// The flags of an entry: bit 0 for a file, bit 1 for NTFS metadata.
fn entry_flags(is_file: bool, is_reserved: bool) -> (flags: u32)
    ensures
        (flags & 1 != 0) == is_file,
        (flags & 2 != 0) == is_reserved,
{
    proof {
        assert(0u32 & 1 == 0 && 0u32 & 2 == 0 && 1u32 & 1 != 0 && 1u32 & 2 == 0 && 2u32 & 1 == 0
            && 2u32 & 2 != 0 && 3u32 & 1 != 0 && 3u32 & 2 != 0) by (bit_vector);
    }
    match (is_file, is_reserved) {
        (false, false) => 0,
        (true, false) => 1,
        (false, true) => 2,
        (true, true) => 3,
    }
}

impl<'a> IndexBuilder<'a> {
    fn empty(struct_version: u64, want_dirs: bool) -> (b: Self)
        ensures
            b.wf(),
            b.version() == struct_version,
            b.want_dirs == want_dirs,
            b.stack@.len() == 0,
            b.done@.len() == 0,
            b.root_views@.len() == 0,
            b.dirs@.len() == 0,
    {
        let mut owners = TextPool::new();
        let id = owners.intern("");
        let b = IndexBuilder {
            struct_version,
            want_dirs,
            stack: Vec::new(),
            lower: NameBlob::new(),
            orig: NameBlob::new(),
            entries: Vec::new(),
            done: Ghost(Seq::empty()),
            roots: Vec::new(),
            root_views: Ghost(Seq::empty()),
            dirs: TextPool::new(),
            owners,
        };
        assert(b.orig@ =~= names_of(b.done@));
        assert(b.lower@ =~= lower_names_of(b.done@));
        b
    }

    /// A builder for a list of trees. `root_paths` are the real paths of the roots; with
    /// `want_dirs` the index keeps the path of every folder, which begins with them.
    pub fn new_multi(
        partitions: &'a [Node],
        root_paths: &[String],
        struct_version: u64,
        want_dirs: bool,
    ) -> (b: Self)
        requires
            crate::index_model::fits_index(forest_view(partitions@)),
        ensures
            b.wf(),
            b.built() == Seq::<EntryView>::empty(),
            b.target() == index_of(
                forest_view(partitions@),
                texts_view(root_paths@),
                struct_version,
                want_dirs,
            ),
    {
        let ghost views = forest_view(partitions@);
        let ghost paths = texts_view(root_paths@);
        let mut b = Self::empty(struct_version, want_dirs);
        let mut pi: usize = 0;
        assert(b.root_views@ =~= Seq::new(
            pi as nat,
            |k: int| root_of(views[k], paths, want_dirs, k),
        ));
        while pi < partitions.len()
            invariant
                pi <= partitions.len(),
                views == forest_view(partitions@),
                paths == texts_view(root_paths@),
                crate::index_model::fits_index(views),
                b.wf_but_count(),
                b.version() == struct_version,
                b.want_dirs == want_dirs,
                b.done@.len() == 0,
                b.dirs@.len() <= pi,
                b.root_views@ == Seq::new(
                    pi as nat,
                    |k: int| root_of(views[k], paths, want_dirs, k),
                ),
                forall|at: int| #[trigger]
                    pending(b.stack@, at) == index_roots(views, paths, want_dirs, pi as int, at),
            decreases partitions.len() - pi,
        {
            let root = &partitions[pi];
            let ghost level = root_level(root@, paths, want_dirs, pi as int);
            proof {
                assert(views[pi as int] == root@);
                crate::index_model::lemma_root_count(views, pi as int, views.len() as int);
                crate::index_model::lemma_forest_count(root@.children, 0);
            }
            let dir: u32 = if want_dirs {
                let trimmed = if pi < root_paths.len() {
                    trim_end_char(root_paths[pi].as_str(), '\\')
                } else {
                    String::new()
                };
                assert(trimmed@ == root_dir(paths, pi as int));
                b.intern_dir(trimmed.as_str())
            } else {
                NO_DIR
            };
            b.add_root(root, dir, Ghost(root_of(root@, paths, want_dirs, pi as int)));
            let ghost under = b.stack@;
            push_frames(
                &mut b.stack,
                root,
                pi as u32,
                NO_PARENT,
                1,
                one_or_more(root.logical_size),
                dir,
                Ghost(level),
            );
            proof {
                assert(b.root_views@ =~= Seq::new(
                    (pi + 1) as nat,
                    |k: int| root_of(views[k], paths, want_dirs, k),
                ));
            }
            pi += 1;
        }
        proof {
            crate::index_model::lemma_roots_len(views, paths, want_dirs, views.len() as int, 0);
            assert(b.target() =~= index_of(views, paths, struct_version, want_dirs));
        }
        b
    }

    /// A builder for one tree made up for display; the index keeps no paths.
    pub fn new_single_root(root: &'a Node, struct_version: u64) -> (b: Self)
        requires
            crate::index_model::fits_index(seq![root@]),
        ensures
            b.wf(),
            b.built() == Seq::<EntryView>::empty(),
            b.target() == index_of(
                seq![root@],
                seq![Seq::<char>::empty()],
                struct_version,
                false,
            ),
    {
        let one = std::slice::from_ref(root);
        let mut paths: Vec<String> = Vec::new();
        paths.push(String::new());
        assert(forest_view(one@) =~= seq![root@]);
        assert(texts_view(paths@) =~= seq![Seq::<char>::empty()]);
        Self::new_multi(one, paths.as_slice(), struct_version, false)
    }
}


proof fn lemma_pools_grow(
    b: IndexBuilder,
    dirs: Seq<Seq<char>>,
    owners: Seq<Seq<char>>,
)
    requires
        b.wf_but_count(),
        b.dirs@.is_prefix_of(dirs),
        b.owners@.is_prefix_of(owners),
    ensures
        entries_match(b.entries@, b.done@, dirs, owners),
        roots_match(b.roots@, b.root_views@, dirs),
        forall|k: int| 0 <= k < b.stack@.len() ==> frame_ok(#[trigger] b.stack@[k], dirs),
{
    assert forall|i: int| 0 <= i < b.dirs@.len() implies #[trigger] b.dirs@[i] == dirs[i] by {
        assert(b.dirs@[i] == dirs.subrange(0, b.dirs@.len() as int)[i]);
    }
    assert forall|i: int| 0 <= i < b.owners@.len() implies #[trigger] b.owners@[i] == owners[i] by {
        assert(b.owners@[i] == owners.subrange(0, b.owners@.len() as int)[i]);
    }
    assert forall|k: int| 0 <= k < b.entries@.len() implies entry_matches(
        #[trigger] b.entries@[k],
        b.done@[k],
        dirs,
        owners,
    ) by {
        assert(entry_matches(b.entries@[k], b.done@[k], b.dirs@, b.owners@));
    }
    assert forall|k: int| 0 <= k < b.roots@.len() implies root_matches(
        #[trigger] b.roots@[k],
        b.root_views@[k],
        dirs,
    ) by {
        assert(root_matches(b.roots@[k], b.root_views@[k], b.dirs@));
    }
}

proof fn lemma_linked_push(done: Seq<EntryView>, e: EntryView, roots: int)
    requires
        well_linked(done, roots),
        0 <= e.pi < roots,
        0 <= e.child_idx,
        1 <= e.depth <= done.len() + 1,
        match e.parent {
            Some(p) => 0 <= p < done.len() && e.depth == done[p].depth + 1 && e.pi == done[p].pi
                && !done[p].is_file,
            None => e.depth == 1,
        },
    ensures
        well_linked(done.push(e), roots),
{
    let all = done.push(e);
    assert forall|i: int| 0 <= i < all.len() implies #[trigger] linked_at(all, roots, i) by {
        if i < done.len() {
            assert(linked_at(done, roots, i));
        }
    }
}

impl<'a> IndexBuilder<'a> {
    /// Adds the entry of a node; its number.
    fn record(&mut self, frame: &BuildFrame<'a>) -> (id: u32)
        requires
            old(self).wf_but_count(),
            old(self).done@.len() + 1 < u32::MAX,
            frame_ok(*frame, old(self).dirs@),
            frame_linked(*frame, old(self).done@, old(self).root_views@.len() as int),
        ensures
            final(self).wf_but_count(),
            id == old(self).done@.len(),
            final(self).done@ == old(self).done@.push(
                entry_of(frame.node@, frame.level@, frame.child_idx as int),
            ),
            final(self).stack@ == old(self).stack@,
            final(self).root_views@ == old(self).root_views@,
            final(self).dirs == old(self).dirs,
            final(self).want_dirs == old(self).want_dirs,
            final(self).struct_version == old(self).struct_version,
    {
        let ghost before = *self;
        let node = frame.node;
        let ghost e = entry_of(node@, frame.level@, frame.child_idx as int);
        let lower = to_lowercase(node.name.as_str());
        self.lower.push(lower.as_str());
        self.orig.push(node.name.as_str());
        let owner = self.owners.intern(node.owner.as_str());
        proof {
            assert(before.owners@ =~= self.owners@.subrange(0, before.owners@.len() as int));
            assert(before.dirs@ =~= before.dirs@.subrange(0, before.dirs@.len() as int));
            lemma_pools_grow(before, before.dirs@, self.owners@);
        }
        let flags = entry_flags(node.is_file(), node.is_reserved);
        let entry = IdxEntry {
            pi: frame.pi,
            child_idx: frame.child_idx,
            parent: frame.parent,
            depth: frame.depth,
            flags,
            dir: frame.dir,
            owner,
            parent_logical: frame.parent_logical,
            logical_size: node.logical_size,
            physical_size: node.physical_size,
            modified_ft: node.modified_ft,
            created_ft: node.created_ft,
            accessed_ft: node.accessed_ft,
            attributes: node.attributes,
            reparse_tag: node.reparse_tag,
            file_count: clip_count(node.file_count),
            folder_count: clip_count(node.folder_count),
        };
        assert(entry_matches(entry, e, self.dirs@, self.owners@));
        let id: u32 = self.entries.len() as u32;
        self.entries.push(entry);
        self.done = Ghost(self.done@.push(e));
        proof {
            lemma_linked_push(before.done@, e, before.root_views@.len() as int);
            assert(self.orig@ =~= names_of(self.done@));
            assert(self.lower@ =~= lower_names_of(self.done@));
            assert(entries_match(self.entries@, self.done@, self.dirs@, self.owners@));
            assert forall|k: int| 0 <= k < self.stack@.len() implies {
                let f = #[trigger] self.stack@[k];
                &&& frame_ok(f, self.dirs@)
                &&& frame_linked(f, self.done@, self.root_views@.len() as int)
                &&& f.level@.dir is Some == self.want_dirs
            } by {
                let f = self.stack@[k];
                assert(f == before.stack@[k]);
                assert(frame_linked(f, before.done@, before.root_views@.len() as int));
            }
        }
        id
    }

    /// The number of the path of a folder that stands in folder number `dir`.
    fn child_dir(&mut self, dir: u32, name: &str, Ghost(parent): Ghost<Option<Seq<char>>>) -> (id:
        u32)
        requires
            old(self).wf_but_count(),
            old(self).dirs@.len() < u32::MAX,
            pooled(dir, NO_DIR, old(self).dirs@, parent),
            parent is Some == old(self).want_dirs,
        ensures
            final(self).wf_but_dirs(),
            final(self).dirs.wf(),
            final(self).dirs@.len() <= old(self).dirs@.len() + 1,
            pooled(
                id,
                NO_DIR,
                final(self).dirs@,
                match parent {
                    Some(p) => Some(joined(p, name@)),
                    None => None,
                },
            ),
            *final(self) == (IndexBuilder { dirs: final(self).dirs, ..*old(self) }),
    {
        let ghost before = *self;
        let id: u32 = if self.want_dirs {
            let mut path = owned(self.dirs.text(dir));
            path.push('\\');
            path.append(name);
            self.intern_dir(path.as_str())
        } else {
            NO_DIR
        };
        proof {
            assert(before.dirs@.is_prefix_of(self.dirs@)) by {
                if !before.want_dirs {
                    assert(before.dirs@ =~= before.dirs@.subrange(0, before.dirs@.len() as int));
                }
            }
            assert(before.owners@ =~= before.owners@.subrange(0, before.owners@.len() as int));
            lemma_pools_grow(before, self.dirs@, self.owners@);
        }
        id
    }

    /// Puts the children of a folder, whose entry is the last one made, on the stack.
    fn open_folder(&mut self, frame: &BuildFrame<'a>, my_entry: u32)
        requires
            old(self).wf_but_count(),
            old(self).root_views@.len() + old(self).done@.len() < u32::MAX,
            old(self).dirs@.len() < old(self).root_views@.len() + old(self).done@.len(),
            frame_ok(*frame, old(self).dirs@),
            frame.level@.dir is Some == old(self).want_dirs,
            my_entry + 1 == old(self).done@.len(),
            old(self).done@.last() == entry_of(frame.node@, frame.level@, frame.child_idx as int),
            frame.node@.is_folder(),
            frame.node@.children.len() <= u32::MAX,
            0 <= frame.level@.pi < old(self).root_views@.len(),
            1 <= frame.level@.depth <= old(self).done@.len(),
        ensures
            final(self).wf_but_count(),
            ({
                let kids = frame.node@.children;
                let inner = level_below(frame.node@, frame.level@, my_entry as int);
                let at = old(self).done@.len() as int;
                pending(final(self).stack@, at) == index_from(kids, 0, inner, at) + pending(
                    old(self).stack@,
                    at + index_from(kids, 0, inner, at).len(),
                )
            }),
            final(self).done@ == old(self).done@,
            final(self).root_views@ == old(self).root_views@,
            final(self).want_dirs == old(self).want_dirs,
            final(self).struct_version == old(self).struct_version,
    {
        let node = frame.node;
        let ghost inner = level_below(node@, frame.level@, my_entry as int);
        let child_dir = self.child_dir(frame.dir, node.name.as_str(), Ghost(frame.level@.dir));
        let ghost mid = *self;
        push_frames(
            &mut self.stack,
            node,
            frame.pi,
            my_entry,
            frame.depth + 1,
            one_or_more(node.logical_size),
            child_dir,
            Ghost(inner),
        );
        proof {
            assert forall|k: int| 0 <= k < self.stack@.len() implies {
                let f = #[trigger] self.stack@[k];
                &&& frame_ok(f, self.dirs@)
                &&& frame_linked(f, self.done@, self.root_views@.len() as int)
                &&& f.level@.dir is Some == self.want_dirs
            } by {
                if k < mid.stack@.len() {
                    assert(self.stack@[k] == mid.stack@[k]);
                }
            }
        }
    }

    /// Makes the next entry. Whether there was one to make.
    pub fn advance(&mut self) -> (more: bool)
        requires
            old(self).wf(),
        ensures
            final(self).wf(),
            final(self).target() == old(self).target(),
            more == (old(self).remaining().len() > 0),
            final(self).built().len() == old(self).built().len() + if more {
                1int
            } else {
                0int
            },
    {
        let ghost before = *self;
        let ghost n = self.done@.len() as int;
        let ghost rest = self.stack@.drop_last();
        let frame = match self.stack.pop() {
            Some(f) => f,
            None => {
                return false;
            },
        };
        let node = frame.node;
        let ghost level = frame.level@;
        let ghost e = entry_of(node@, level, frame.child_idx as int);
        proof {
            assert(before.stack@[before.stack@.len() - 1] == frame);
            assert(self.stack@ =~= rest);
            crate::index_model::lemma_node_len(node@, level, frame.child_idx as int, n);
            assert forall|k: int| 0 <= k < rest.len() implies {
                let f = #[trigger] rest[k];
                &&& frame_ok(f, self.dirs@)
                &&& frame_linked(f, self.done@, self.root_views@.len() as int)
                &&& f.level@.dir is Some == self.want_dirs
            } by {
                assert(rest[k] == before.stack@[k]);
            }
        }
        let my_entry = self.record(&frame);
        if node.is_folder() {
            let ghost inner = level_below(node@, level, n);
            proof {
                crate::index_model::lemma_from_len(node@.children, 0, inner, n + 1);
                crate::index_model::lemma_forest_count(node@.children, 0);
            }
            self.open_folder(&frame, my_entry);
            proof {
                let kids = index_from(node@.children, 0, inner, n + 1);
                let tail = pending(rest, n + 1 + kids.len());
                assert(self.remaining() == kids + tail);
                assert(before.remaining() == (seq![e] + kids) + tail);
                assert(self.built() + self.remaining() =~= before.built() + before.remaining());
            }
        } else {
            proof {
                assert(before.remaining() == (seq![e] + Seq::<EntryView>::empty()) + pending(
                    rest,
                    n + 1,
                ));
                assert(self.built() + self.remaining() =~= before.built() + before.remaining());
            }
        }
        true
    }
}

/// The finished index.
pub struct NameIndex {
    /// The version of the tree that this is the index of.
    pub struct_version: u64,
    /// What the index holds.
    pub tables: IndexTables,
}

/// The tables of an index: its entries and roots, and the texts that they point to.
pub struct IndexTables {
    lower: NameBlob,
    orig: NameBlob,
    entries: Vec<IdxEntry>,
    views: Ghost<Seq<EntryView>>,
    file_entries: Vec<u32>,
    roots: Vec<RootInfo>,
    root_views: Ghost<Seq<RootView>>,
    dirs: Vec<String>,
    owners: Vec<String>,
}

impl View for NameIndex {
    type V = IndexView;

    open spec fn view(&self) -> IndexView {
        IndexView {
            struct_version: self.struct_version,
            entries: self.tables.entry_list(),
            roots: self.tables.root_list(),
        }
    }
}

impl IndexTables {
    /// The entries that the tables stand for.
    pub closed spec fn entry_list(&self) -> Seq<EntryView> {
        self.views@
    }

    /// The roots that the tables stand for.
    pub closed spec fn root_list(&self) -> Seq<RootView> {
        self.root_views@
    }
}

/// The outcome of a step.
pub enum BuildStep {
    /// There is more to do.
    Continue,
    /// The index is complete.
    Done(Box<NameIndex>),
}

impl<'a> IndexBuilder<'a> {
    fn finish(&mut self) -> (idx: NameIndex)
        requires
            old(self).wf(),
            old(self).remaining().len() == 0,
        ensures
            idx.wf(),
            idx@ == old(self).target(),
    {
        let mut file_entries: Vec<u32> = Vec::new();
        let mut i: usize = 0;
        while i < self.entries.len()
            invariant
                i <= self.entries@.len(),
                self.entries@.len() < u32::MAX,
                *self == *old(self),
                entries_match(self.entries@, self.done@, self.dirs@, self.owners@),
                file_entries@ == file_numbers(self.done@, i as int),
            decreases self.entries.len() - i,
        {
            assert(entry_matches(
                self.entries@[i as int],
                self.done@[i as int],
                self.dirs@,
                self.owners@,
            ));
            if self.entries[i].is_file() {
                file_entries.push(i as u32);
            }
            i += 1;
        }
        let mut lower = NameBlob::new();
        std::mem::swap(&mut lower, &mut self.lower);
        let mut orig = NameBlob::new();
        std::mem::swap(&mut orig, &mut self.orig);
        let mut entries: Vec<IdxEntry> = Vec::new();
        std::mem::swap(&mut entries, &mut self.entries);
        let mut roots: Vec<RootInfo> = Vec::new();
        std::mem::swap(&mut roots, &mut self.roots);
        let mut dirs = TextPool::new();
        std::mem::swap(&mut dirs, &mut self.dirs);
        let mut owners = TextPool::new();
        std::mem::swap(&mut owners, &mut self.owners);
        let idx = NameIndex {
            struct_version: self.struct_version,
            tables: IndexTables {
                lower,
                orig,
                entries,
                views: Ghost(self.done@),
                file_entries,
                roots,
                root_views: Ghost(self.root_views@),
                dirs: dirs.into_texts(),
                owners: owners.into_texts(),
            },
        };
        assert(idx@.entries =~= old(self).target().entries);
        idx
    }

    /// Goes on for about as long as the budget says, and not at all without a budget. How far a
    /// step gets is up to the clock: it takes one turn after another, each with the time that is
    /// over by then, and [`IndexBuilder::step_at`] says what comes of each. Whatever it gets
    /// done, the index that comes out in the end stays the same.
    pub fn step(&mut self, budget: Duration) -> (r: BuildStep)
        requires
            old(self).wf(),
        ensures
            match r {
                BuildStep::Done(idx) => idx.wf() && idx@ == old(self).target() && idx.struct_version
                    == old(self).target().struct_version,
                BuildStep::Continue => {
                    &&& final(self).wf()
                    &&& final(self).target() == old(self).target()
                    &&& final(self).built().len() >= old(self).built().len()
                },
            },
            nanos_of(budget) == 0 ==> r is Continue && final(self).built() == old(self).built(),
    {
        let start = Instant::now();
        let limit: u128 = budget.as_nanos();
        loop
            invariant
                self.wf(),
                self.target() == old(self).target(),
                self.built().len() >= old(self).built().len(),
                limit == nanos_of(budget),
                limit == 0 ==> self.built() == old(self).built(),
            decreases self.target().entries.len() - self.built().len(),
        {
            match self.step_at(start.elapsed().as_nanos(), limit) {
                Some(r) => {
                    return r;
                },
                None => {},
            }
        }
    }

    /// One turn of a step, at a time when so many nanoseconds of so many are over. Once they all
    /// are, there is more to do. Before that the next entry is made, and nothing is said yet; or
    /// the index is handed out, where no entry is left to make.
    pub fn step_at(&mut self, elapsed: u128, limit: u128) -> (r: Option<BuildStep>)
        requires
            old(self).wf(),
        ensures
            match r {
                Some(BuildStep::Continue) => {
                    &&& elapsed >= limit
                    &&& final(self).wf()
                    &&& final(self).target() == old(self).target()
                    &&& final(self).built() == old(self).built()
                },
                Some(BuildStep::Done(idx)) => {
                    &&& elapsed < limit
                    &&& old(self).remaining().len() == 0
                    &&& idx.wf()
                    &&& idx@ == old(self).target()
                    &&& idx.struct_version == old(self).target().struct_version
                },
                None => {
                    &&& elapsed < limit
                    &&& old(self).remaining().len() > 0
                    &&& final(self).wf()
                    &&& final(self).target() == old(self).target()
                    &&& final(self).built() == old(self).built().push(old(self).remaining()[0])
                    &&& final(self).remaining() == old(self).remaining().skip(1)
                },
            },
    {
        if elapsed >= limit {
            return Some(BuildStep::Continue);
        }
        let ghost before = *self;
        if !self.advance() {
            return Some(BuildStep::Done(Box::new(self.finish())));
        }
        proof {
            let all = before.target().entries;
            let n = before.built().len() as int;
            assert(self.built() + self.remaining() == all);
            assert(self.built() =~= all.take(n + 1));
            assert(self.remaining() =~= all.skip(n + 1));
            assert(all.take(n + 1) =~= before.built().push(before.remaining()[0]));
            assert(all.skip(n + 1) =~= before.remaining().skip(1));
        }
        None
    }
}

/// A point in time.
#[verifier::external_type_specification]
#[verifier::external_body]
pub struct ExInstant(std::time::Instant);

/// `Instant::now`: the time, of which nothing is said because it is up to the clock.
pub assume_specification[ std::time::Instant::now ]() -> (r: std::time::Instant)
;

/// `Instant::elapsed`: the time that has passed since a point in time, of which nothing is said
/// because it is up to the clock.
pub assume_specification[ std::time::Instant::elapsed ](t: &std::time::Instant) -> (r:
    std::time::Duration)
;

/// The nanoseconds in a span of time.
pub uninterp spec fn nanos_of(d: std::time::Duration) -> u128;

/// `Duration::as_nanos`: the whole nanoseconds in a span of time, which depend on it alone.
pub assume_specification[ std::time::Duration::as_nanos ](d: &std::time::Duration) -> (r: u128)
    ensures
        r == nanos_of(*d),
;

impl NameIndex {
    /// The tables stand for the entries and the roots.
    pub closed spec fn wf(&self) -> bool {
        &&& self.tables.lower.wf()
        &&& self.tables.orig.wf()
        &&& self.tables.orig@ == names_of(self.tables.views@)
        &&& self.tables.lower@ == lower_names_of(self.tables.views@)
        &&& entries_match(
            self.tables.entries@,
            self.tables.views@,
            texts_view(self.tables.dirs@),
            texts_view(self.tables.owners@),
        )
        &&& roots_match(self.tables.roots@, self.tables.root_views@, texts_view(self.tables.dirs@))
        &&& well_linked(self.tables.views@, self.tables.root_views@.len() as int)
        &&& self.tables.views@.len() < u32::MAX
        &&& self.tables.file_entries@ == file_numbers(self.tables.views@, self.tables.views@.len() as int)
    }

    /// The version of the tree that this is the index of.
    pub fn tree_version(&self) -> (r: u64)
        ensures
            r == self@.struct_version,
    {
        self.struct_version
    }

    /// What can be relied on of every index.
    pub proof fn lemma_shape(&self)
        requires
            self.wf(),
        ensures
            well_linked(self@.entries, self@.roots.len() as int),
            self@.entries.len() < u32::MAX,
            self.struct_version == self@.struct_version,
    {
    }

    /// How many entries there are.
    pub fn len(&self) -> (n: usize)
        requires
            self.wf(),
        ensures
            n == self@.entries.len(),
    {
        self.tables.entries.len()
    }

    pub fn is_empty(&self) -> (b: bool)
        requires
            self.wf(),
        ensures
            b == (self@.entries.len() == 0),
    {
        self.tables.entries.len() == 0
    }

    /// A name in lower case.
    pub fn name_lower(&self, i: usize) -> (r: &str)
        requires
            self.wf(),
            i < self@.entries.len(),
        ensures
            r@ == str_lowercase(self@.entries[i as int].name),
    {
        self.tables.lower.name(i)
    }

    /// A name as it is.
    pub fn name_orig(&self, i: usize) -> (r: &str)
        requires
            self.wf(),
            i < self@.entries.len(),
        ensures
            r@ == self@.entries[i as int].name,
    {
        self.tables.orig.name(i)
    }

    /// The path of the folder that an entry stands in; empty where the index keeps no paths.
    pub fn dir_path(&self, i: usize) -> (r: &str)
        requires
            self.wf(),
            i < self@.entries.len(),
        ensures
            r@ == crate::index_model::shown_dir(self@.entries[i as int]),
    {
        assert(entry_matches(
            self.tables.entries@[i as int],
            self.tables.views@[i as int],
            texts_view(self.tables.dirs@),
            texts_view(self.tables.owners@),
        ));
        let d: u32 = self.tables.entries[i].dir;
        if d == NO_DIR {
            proof {
                reveal_strlit("");
                assert(""@ =~= Seq::<char>::empty());
            }
            ""
        } else {
            self.tables.dirs[d as usize].as_str()
        }
    }

    /// The owner of an entry.
    pub fn owner(&self, i: usize) -> (r: &str)
        requires
            self.wf(),
            i < self@.entries.len(),
        ensures
            r@ == self@.entries[i as int].owner,
    {
        assert(entry_matches(
            self.tables.entries@[i as int],
            self.tables.views@[i as int],
            texts_view(self.tables.dirs@),
            texts_view(self.tables.owners@),
        ));
        self.tables.owners[self.tables.entries[i].owner as usize].as_str()
    }

    /// The name of a root.
    pub fn root_name(&self, pi: usize) -> (r: &str)
        requires
            self.wf(),
            pi < self@.roots.len(),
        ensures
            r@ == self@.roots[pi as int].name,
    {
        assert(root_matches(
            self.tables.roots@[pi as int],
            self.tables.root_views@[pi as int],
            texts_view(self.tables.dirs@),
        ));
        self.tables.roots[pi].name.as_str()
    }

    /// The logical size of a root.
    pub fn root_logical(&self, pi: usize) -> (n: u64)
        requires
            self.wf(),
            pi < self@.roots.len(),
        ensures
            n == self@.roots[pi as int].logical_size,
    {
        assert(root_matches(
            self.tables.roots@[pi as int],
            self.tables.root_views@[pi as int],
            texts_view(self.tables.dirs@),
        ));
        self.tables.roots[pi].logical_size
    }

    /// How many roots there are.
    pub fn root_count(&self) -> (n: usize)
        requires
            self.wf(),
        ensures
            n == self@.roots.len(),
    {
        self.tables.roots.len()
    }

    /// The numbers of all files.
    pub fn all_file_entries(&self) -> (r: Vec<u32>)
        requires
            self.wf(),
        ensures
            r@ == file_numbers(self@.entries, self@.entries.len() as int),
    {
        let r = self.tables.file_entries.clone();
        assert(r@ =~= self.tables.file_entries@);
        r
    }

    /// How many files there are.
    pub fn file_entry_count(&self) -> (n: usize)
        requires
            self.wf(),
        ensures
            n == file_numbers(self@.entries, self@.entries.len() as int).len(),
    {
        self.tables.file_entries.len()
    }

    /// The texts that the numbers in entries and roots stand for: folders, then owners.
    pub closed spec fn pools(&self) -> (Seq<Seq<char>>, Seq<Seq<char>>) {
        (texts_view(self.tables.dirs@), texts_view(self.tables.owners@))
    }

    /// An entry.
    pub fn entry(&self, i: usize) -> (e: &IdxEntry)
        requires
            self.wf(),
            i < self@.entries.len(),
        ensures
            entry_matches(*e, self@.entries[i as int], self.pools().0, self.pools().1),
    {
        &self.tables.entries[i]
    }

    /// All entries.
    pub fn entries(&self) -> (r: &[IdxEntry])
        requires
            self.wf(),
        ensures
            r@.len() == self@.entries.len(),
            forall|i: int|
                0 <= i < r@.len() ==> entry_matches(
                    #[trigger] r@[i],
                    self@.entries[i],
                    self.pools().0,
                    self.pools().1,
                ),
    {
        self.tables.entries.as_slice()
    }

    /// What is kept of a root.
    pub fn root_info(&self, pi: usize) -> (r: &RootInfo)
        requires
            self.wf(),
            pi < self@.roots.len(),
        ensures
            root_matches(*r, self@.roots[pi as int], self.pools().0),
    {
        &self.tables.roots[pi]
    }
}

/// `std::slice::from_ref`: a slice of the one given value.
pub assume_specification<T>[ std::slice::from_ref::<T> ](s: &T) -> (r: &[T])
    ensures
        r@ == seq![*s],
;

} // verus!
