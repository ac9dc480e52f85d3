//! The list of files in groups, by extension or by content: its rows and what a click on one of
//! them means.

use vstd::prelude::*;
use vstd::slice::slice_subrange;

use crate::categorize::last_index;
use crate::file_ops::pair;
use crate::list_view::{menu_action, menu_outcome, MenuItem};
use crate::model::{forest_view, lemma_children, Node, NodePath, NodeView};
use crate::ordering::{order_positions, ordered};
use crate::sorting::is_order;
use crate::text::{chars_of, less_ignore_ascii_case, owned, string_of, text_less};
use crate::tree_list::{action_option, copy_path, extended, lemma_text_order, same_path};
use crate::ui::{ActionView, TreeAction};

verus! {

/// What the list can be sorted by.
#[derive(Debug, Clone, Copy, PartialEq, Eq, Structural)]
pub enum SortKey {
    Name,
    Size,
    Modified,
    Path,
}

/// Which end of the order comes first.
#[derive(Debug, Clone, Copy, PartialEq, Eq, Structural)]
pub enum SortDir {
    Asc,
    Desc,
}

/// The other direction.
pub open spec fn flipped(d: SortDir) -> SortDir {
    match d {
        SortDir::Asc => SortDir::Desc,
        SortDir::Desc => SortDir::Asc,
    }
}

impl SortDir {
    fn toggled(self) -> (r: Self)
        ensures
            r == flipped(self),
    {
        match self {
            SortDir::Asc => SortDir::Desc,
            SortDir::Desc => SortDir::Asc,
        }
    }
}

/// How the list is sorted.
#[derive(Debug, Clone, Copy, PartialEq, Eq, Structural)]
pub struct SortState {
    pub key: SortKey,
    pub dir: SortDir,
}

impl Default for SortState {
    /// Largest first.
    fn default() -> (r: Self)
        ensures
            r == (SortState { key: SortKey::Size, dir: SortDir::Desc }),
    {
        SortState { key: SortKey::Size, dir: SortDir::Desc }
    }
}

/// How the list is sorted after a click on a heading: the current column turns round, another
/// one starts descending.
pub open spec fn clicked(s: SortState, key: SortKey) -> SortState {
    SortState {
        key,
        dir: if s.key == key {
            flipped(s.dir)
        } else {
            SortDir::Desc
        },
    }
}

impl SortState {
    /// A click on a heading.
    pub fn click(&mut self, key: SortKey)
        ensures
            *final(self) == clicked(*old(self), key),
    {
        if self.key == key {
            self.dir = self.dir.toggled();
        } else {
            self.key = key;
            self.dir = SortDir::Desc;
        }
    }
}

/// A third click on a heading undoes the second.
pub proof fn law_clicks_alternate(s: SortState, key: SortKey)
    ensures
        clicked(clicked(clicked(s, key), key), key) == clicked(s, key),
{
}

/// The real path of a node, empty where it has none.
pub open spec fn own_path(n: NodeView) -> Seq<char> {
    match n.full_path_override {
        Some(p) => p,
        None => Seq::empty(),
    }
}

/// The real path of a node, empty where it has none.
pub fn path_text(n: &Node) -> (r: String)
    ensures
        r@ == own_path(n@),
{
    match &n.full_path_override {
        Some(p) => owned(p.as_str()),
        None => String::new(),
    }
}

/// Whether one node comes before another in the order of a column, ascending.
pub open spec fn node_less(key: SortKey, a: NodeView, b: NodeView) -> bool {
    match key {
        SortKey::Name => text_less(a.name, b.name),
        SortKey::Size => a.logical_size < b.logical_size,
        SortKey::Modified => a.modified_ft < b.modified_ft,
        SortKey::Path => text_less(own_path(a), own_path(b)),
    }
}

fn node_before(a: &Node, b: &Node, key: SortKey) -> (r: bool)
    ensures
        r == node_less(key, a@, b@),
{
    match key {
        SortKey::Name => less_ignore_ascii_case(a.name.as_str(), b.name.as_str()),
        SortKey::Size => a.logical_size < b.logical_size,
        SortKey::Modified => a.modified_ft < b.modified_ft,
        SortKey::Path => {
            let pa = path_text(a);
            let pb = path_text(b);
            less_ignore_ascii_case(pa.as_str(), pb.as_str())
        },
    }
}

/// The order of the positions in a list of nodes by a column, ascending.
pub open spec fn by_column(kids: Seq<NodeView>, key: SortKey) -> spec_fn(usize, usize) -> bool {
    |a: usize, b: usize| node_less(key, kids[a as int], kids[b as int])
}

pub proof fn lemma_by_column(kids: Seq<NodeView>, key: SortKey)
    ensures
        is_order(by_column(kids, key)),
{
    let lt = by_column(kids, key);
    assert forall|a: usize, b: usize| #[trigger] lt(a, b) implies !lt(b, a) by {
        let (x, y) = (kids[a as int], kids[b as int]);
        lemma_text_order(x.name, y.name, y.name);
        lemma_text_order(own_path(x), own_path(y), own_path(y));
    }
    assert forall|a: usize, b: usize, c: usize|
        #![trigger lt(a, b), lt(b, c)]
        !lt(a, b) && !lt(b, c) implies !lt(a, c) by {
        let (x, y, z) = (kids[a as int], kids[b as int], kids[c as int]);
        lemma_text_order(x.name, y.name, z.name);
        lemma_text_order(own_path(x), own_path(y), own_path(z));
    }
}

/// The order in which a list of nodes is shown.
pub open spec fn child_order(kids: Seq<NodeView>, sort: SortState) -> Seq<usize> {
    ordered(kids.len(), by_column(kids, sort.key), sort.dir == SortDir::Desc)
}

fn sorted_child_order(children: &[Node], sort: SortState) -> (r: Vec<usize>)
    ensures
        r@ == child_order(forest_view(children@), sort),
        r@.len() == children@.len(),
        forall|k: int| 0 <= k < r@.len() ==> #[trigger] r@[k] < children@.len(),
{
    let key = sort.key;
    let less = |a: &usize, b: &usize| -> (o: bool)
        requires
            *a < children@.len() && *b < children@.len(),
        ensures
            o == node_less(
                key,
                forest_view(children@)[*a as int],
                forest_view(children@)[*b as int],
            ),
        { node_before(&children[*a], &children[*b], key) };
    let ghost kids = forest_view(children@);
    proof {
        lemma_by_column(kids, key);
    }
    order_positions(children.len(), &less, sort.dir == SortDir::Desc, Ghost(by_column(kids, key)))
}

/// A row of the list.
pub struct FlatRow {
    pub abs_path: NodePath,
    /// 0 for a group, 1 for a file of one.
    pub depth: u32,
    pub is_group: bool,
}

/// What a [`FlatRow`] holds.
#[verifier::ext_equal]
pub struct FlatView {
    pub abs_path: Seq<usize>,
    pub depth: u32,
    pub is_group: bool,
}

impl View for FlatRow {
    type V = FlatView;

    open spec fn view(&self) -> FlatView {
        FlatView { abs_path: self.abs_path@, depth: self.depth, is_group: self.is_group }
    }
}

/// What a list of rows holds.
pub open spec fn flat_view(v: Seq<FlatRow>) -> Seq<FlatView> {
    Seq::new(v.len(), |i: int| v[i]@)
}

/// The rows of the files of a group, in their order.
pub open spec fn file_rows(group: NodeView, path: Seq<usize>, sort: SortState) -> Seq<FlatView> {
    let order = child_order(group.children, sort);
    Seq::new(
        order.len(),
        |k: int| FlatView { abs_path: path.push(order[k]), depth: 1, is_group: false },
    )
}

/// The rows of a group: its own, and those of its files where it is expanded.
pub open spec fn group_rows(root: NodeView, i: usize, sort: SortState) -> Seq<FlatView> {
    let g = root.children[i as int];
    let path = seq![0usize, i];
    seq![FlatView { abs_path: path, depth: 0, is_group: true }] + (if g.expanded {
        file_rows(g, path, sort)
    } else {
        Seq::empty()
    })
}

/// The rows of the first `k` groups, as they are shown.
pub open spec fn rows_upto(root: NodeView, k: int, sort: SortState) -> Seq<FlatView>
    decreases k,
{
    if k <= 0 {
        Seq::empty()
    } else {
        rows_upto(root, k - 1, sort) + group_rows(root, child_order(root.children, sort)[k - 1], sort)
    }
}

/// All rows of the list.
pub open spec fn all_rows(root: NodeView, sort: SortState) -> Seq<FlatView> {
    rows_upto(root, child_order(root.children, sort).len() as int, sort)
}

fn push_files(group: &Node, path: &Vec<usize>, sort: SortState, rows: &mut Vec<FlatRow>)
    ensures
        flat_view(final(rows)@) == flat_view(old(rows)@) + file_rows(group@, path@, sort),
{
    let ghost start = flat_view(rows@);
    proof {
        lemma_children(*group);
    }
    let order = sorted_child_order(group.children.as_slice(), sort);
    let ghost all = file_rows(group@, path@, sort);
    let mut k: usize = 0;
    assert(flat_view(rows@) =~= start + all.take(0));
    while k < order.len()
        invariant
            k <= order.len(),
            order@ == child_order(group@.children, sort),
            all == file_rows(group@, path@, sort),
            flat_view(rows@) == start + all.take(k as int),
        decreases order.len() - k,
    {
        let ghost v = rows@;
        let row = FlatRow { abs_path: extended(path, order[k]), depth: 1, is_group: false };
        rows.push(row);
        assert(flat_view(rows@) =~= flat_view(v).push(row@));
        k += 1;
        assert(all.take(k as int) =~= all.take(k - 1).push(all[k - 1]));
        assert(flat_view(rows@) =~= start + all.take(k as int));
    }
    assert(all.take(k as int) =~= all);
}

/// All rows of the list: the groups in their order, each with its files where it is expanded.
pub fn collect_rows(root: &Node, sort: SortState) -> (rows: Vec<FlatRow>)
    ensures
        flat_view(rows@) == all_rows(root@, sort),
{
    proof {
        lemma_children(*root);
    }
    let order = sorted_child_order(root.children.as_slice(), sort);
    let mut rows: Vec<FlatRow> = Vec::new();
    let mut k: usize = 0;
    assert(flat_view(rows@) =~= rows_upto(root@, 0, sort));
    while k < order.len()
        invariant
            k <= order.len(),
            root@.children == forest_view(root.children@),
            order@ == child_order(root@.children, sort),
            forall|j: int| 0 <= j < order@.len() ==> #[trigger] order@[j] < root.children@.len(),
            flat_view(rows@) == rows_upto(root@, k as int, sort),
        decreases order.len() - k,
    {
        let i: usize = order[k];
        let g = &root.children[i];
        assert(root@.children[i as int] == g@);
        let mut path: Vec<usize> = Vec::new();
        path.push(0);
        path.push(i);
        assert(path@ =~= seq![0usize, i]);
        let ghost before = flat_view(rows@);
        let ghost v = rows@;
        let row = FlatRow { abs_path: copy_path(&path), depth: 0, is_group: true };
        rows.push(row);
        assert(flat_view(rows@) =~= flat_view(v).push(row@));
        if g.expanded {
            push_files(g, &path, sort, &mut rows);
        }
        assert(flat_view(rows@) =~= before + group_rows(root@, i, sort));
        k += 1;
    }
    rows
}

/// The rows of the list and what they were made for.
pub struct Cache {
    pub sort: SortState,
    pub version: u64,
    pub rows: Vec<FlatRow>,
}

/// What a [`Cache`] holds.
#[verifier::ext_equal]
pub struct CacheView {
    pub sort: SortState,
    pub version: u64,
    pub rows: Seq<FlatView>,
}

/// How the list is shown.
pub struct ViewState {
    pub sort: SortState,
    /// Goes up whenever a group is opened or closed.
    pub expand_version: u64,
    /// The row to scroll to, once.
    pub pending_scroll: Option<NodePath>,
    /// Goes up whenever a node leaves the tree.
    pub struct_version: u64,
    pub cache: Option<Cache>,
}

impl Default for ViewState {
    fn default() -> (r: Self)
        ensures
            r.sort == (SortState { key: SortKey::Size, dir: SortDir::Desc }),
            r.expand_version == 0,
            r.struct_version == 0,
            r.pending_scroll is None,
            r.cached() is None,
    {
        ViewState {
            sort: SortState { key: SortKey::Size, dir: SortDir::Desc },
            expand_version: 0,
            pending_scroll: None,
            struct_version: 0,
            cache: None,
        }
    }
}

/// Whether rows that were made have to be made again.
pub open spec fn is_outdated(
    cached: Option<CacheView>,
    sort: SortState,
    version: u64,
) -> bool {
    match cached {
        Some(c) => c.sort != sort || c.version != version,
        None => true,
    }
}

impl ViewState {
    /// The rows that were made, with the order and the version that they were made for.
    pub open spec fn cached(self) -> Option<CacheView> {
        match self.cache {
            Some(c) => Some(
                CacheView { sort: c.sort, version: c.version, rows: flat_view(c.rows@) },
            ),
            None => None,
        }
    }

    /// Makes the rows, where the order or what is expanded has changed since they were made.
    pub fn rebuild_view_cache(&mut self, root: &Node)
        ensures
            final(self).cached() == if is_outdated(
                old(self).cached(),
                old(self).sort,
                old(self).expand_version,
            ) {
                Some(
                    CacheView {
                        sort: old(self).sort,
                        version: old(self).expand_version,
                        rows: all_rows(root@, old(self).sort),
                    },
                )
            } else {
                old(self).cached()
            },
            final(self).sort == old(self).sort,
            final(self).expand_version == old(self).expand_version,
            final(self).pending_scroll == old(self).pending_scroll,
            final(self).struct_version == old(self).struct_version,
    {
        let stale = match &self.cache {
            Some(c) => c.sort != self.sort || c.version != self.expand_version,
            None => true,
        };
        if stale {
            let rows = collect_rows(root, self.sort);
            self.cache = Some(Cache { sort: self.sort, version: self.expand_version, rows });
        }
    }

    /// How many rows were made.
    pub fn row_count(&self) -> (n: usize)
        ensures
            n == match self.cached() {
                Some(c) => c.rows.len(),
                None => 0,
            },
    {
        match &self.cache {
            Some(c) => c.rows.len(),
            None => 0,
        }
    }

    /// A row that was made.
    pub fn row(&self, i: usize) -> (r: Option<&FlatRow>)
        ensures
            match r {
                Some(x) => self.cached() is Some && i < self.cached()->0.rows.len() && x@
                    == self.cached()->0.rows[i as int],
                None => self.cached() is None || i >= self.cached()->0.rows.len(),
            },
    {
        match &self.cache {
            Some(c) => if i < c.rows.len() {
                Some(&c.rows[i])
            } else {
                None
            },
            None => None,
        }
    }

    /// The first row for a path: where to scroll to.
    pub fn find_row(&self, target: &[usize]) -> (r: Option<usize>)
        ensures
            match self.cached() {
                Some(c) => match r {
                    Some(i) => row_at(c.rows, target@, 0) == Some(i as int),
                    None => row_at(c.rows, target@, 0) is None,
                },
                None => r is None,
            },
    {
        let rows: &Vec<FlatRow> = match &self.cache {
            Some(c) => &c.rows,
            None => return None,
        };
        let ghost rv = flat_view(rows@);
        let mut i: usize = 0;
        while i < rows.len()
            invariant
                i <= rows.len(),
                rv == flat_view(rows@),
                self.cached() is Some,
                self.cached()->0.rows == rv,
                row_at(rv, target@, i as int) == row_at(rv, target@, 0),
            decreases rows.len() - i,
        {
            assert(rv[i as int] == rows@[i as int]@);
            if same_path(rows[i].abs_path.as_slice(), target) {
                return Some(i);
            }
            i += 1;
        }
        None
    }

    /// What the clicks of one frame ask for.
    pub fn click_action(
        &self,
        left: Option<usize>,
        right: Option<usize>,
        request: Option<TreeAction>,
    ) -> (r: TreeAction)
        ensures
            r@ == click_outcome(
                match self.cached() {
                    Some(c) => c.rows,
                    None => Seq::empty(),
                },
                left,
                right,
                action_option(request),
            ),
    {
        if let Some(a) = request {
            return a;
        }
        if let Some(i) = left {
            if let Some(row) = self.row(i) {
                let p = copy_path(&row.abs_path);
                return if row.is_group {
                    TreeAction::ToggleExpand(p)
                } else {
                    TreeAction::Select(p)
                };
            }
        }
        if let Some(i) = right {
            if let Some(row) = self.row(i) {
                return TreeAction::Select(copy_path(&row.abs_path));
            }
        }
        TreeAction::Nothing
    }
}

/// The first row for a path.
pub open spec fn row_at(rows: Seq<FlatView>, target: Seq<usize>, k: int) -> Option<int>
    decreases rows.len() - k,
{
    if 0 <= k < rows.len() {
        if rows[k].abs_path == target {
            Some(k)
        } else {
            row_at(rows, target, k + 1)
        }
    } else {
        None
    }
}

/// What the clicks of one frame ask for. What was chosen in a menu comes first, then a left
/// click, which opens or closes a group and selects a file, then a right click, which selects.
pub open spec fn click_outcome(
    rows: Seq<FlatView>,
    left: Option<usize>,
    right: Option<usize>,
    request: Option<ActionView>,
) -> ActionView {
    match request {
        Some(a) => a,
        None => match left {
            Some(i) if i < rows.len() => if rows[i as int].is_group {
                ActionView::ToggleExpand(rows[i as int].abs_path)
            } else {
                ActionView::Select(rows[i as int].abs_path)
            },
            _ => match right {
                Some(i) if i < rows.len() => ActionView::Select(rows[i as int].abs_path),
                _ => ActionView::Nothing,
            },
        },
    }
}

/// What stands before the last backslash of a path; nothing where there is none.
pub open spec fn dir_part(path: Seq<char>) -> Seq<char> {
    let k = last_index(path, '\\');
    if k < 0 {
        Seq::empty()
    } else {
        path.take(k)
    }
}

/// The folder that a file stands in, as its row shows it.
pub fn dir_text(n: &Node) -> (r: String)
    ensures
        r@ == dir_part(own_path(n@)),
{
    let path = path_text(n);
    let v = chars_of(path.as_str());
    let mut k: usize = v.len();
    assert(v@.take(k as int) =~= v@);
    while k > 0
        invariant
            k <= v@.len(),
            v@ == own_path(n@),
            last_index(v@.take(k as int), '\\') == last_index(v@, '\\'),
        decreases k,
    {
        assert(v@.take(k as int).drop_last() =~= v@.take(k - 1));
        if v[k - 1] == '\\' {
            let s = string_of(slice_subrange(v.as_slice(), 0, k - 1));
            assert(s@ =~= v@.take(k - 1));
            return s;
        }
        k -= 1;
    }
    let s = String::new();
    assert(s@ =~= Seq::<char>::empty());
    s
}

/// The heading of a column and what a click on it sorts by.
pub open spec fn column_of(i: int) -> (Seq<char>, SortKey) {
    if i == 0 {
        ("名称"@, SortKey::Name)
    } else if i == 1 {
        ("大小"@, SortKey::Size)
    } else if i == 2 {
        ("修改时间"@, SortKey::Modified)
    } else {
        ("路径"@, SortKey::Path)
    }
}

/// The heading of a column, with an arrow where the list is sorted by it, and what a click on
/// it sorts by.
pub fn header_column(i: usize, sort: SortState) -> (r: (String, SortKey))
    requires
        i < 4,
    ensures
        r.1 == column_of(i as int).1,
        r.0@ == column_of(i as int).0 + if sort.key == r.1 {
            if sort.dir == SortDir::Asc {
                " ▲"@
            } else {
                " ▼"@
            }
        } else {
            ""@
        },
{
    let (label, key) = if i == 0 {
        ("名称", SortKey::Name)
    } else if i == 1 {
        ("大小", SortKey::Size)
    } else if i == 2 {
        ("修改时间", SortKey::Modified)
    } else {
        ("路径", SortKey::Path)
    };
    let arrow = if sort.key == key {
        if sort.dir == SortDir::Asc {
            " ▲"
        } else {
            " ▼"
        }
    } else {
        ""
    };
    (pair(label, arrow), key)
}

/// The entries of the menu of a group.
#[derive(Clone, Copy, Debug, PartialEq, Eq, Structural)]
pub enum GroupItem {
    CreateSymlink,
    CheckLock,
}

/// What an entry of the menu of a group asks for. Only groups of duplicates have a menu.
pub fn group_menu_action(
    item: GroupItem,
    is_duplicates: bool,
    abs_path: &Vec<usize>,
    name: &str,
) -> (r: Option<TreeAction>)
    ensures
        action_option(r) == if is_duplicates {
            Some(
                match item {
                    GroupItem::CreateSymlink => ActionView::RequestCreateSymlinkGroup {
                        abs_path: abs_path@,
                        name: name@,
                    },
                    GroupItem::CheckLock => ActionView::RequestCheckLockGroup {
                        abs_path: abs_path@,
                        name: name@,
                    },
                },
            )
        } else {
            None
        },
{
    if !is_duplicates {
        return None;
    }
    let abs_path = copy_path(abs_path);
    let name = owned(name);
    Some(
        match item {
            GroupItem::CreateSymlink => TreeAction::RequestCreateSymlinkGroup { abs_path, name },
            GroupItem::CheckLock => TreeAction::RequestCheckLockGroup { abs_path, name },
        },
    )
}

/// What an entry of the menu of a file asks for. A file of a group is not migrated by itself.
pub fn file_menu_action(item: MenuItem, abs_path: &Vec<usize>, name: &str, full_path: &str) -> (r:
    Option<TreeAction>)
    ensures
        action_option(r) == if item == MenuItem::CreateSymlink {
            None
        } else {
            Some(menu_outcome(item, false, name@, full_path@, abs_path@, None))
        },
{
    if item == MenuItem::CreateSymlink {
        return None;
    }
    Some(menu_action(item, false, name, full_path, abs_path, None))
}

/// Every row leads to a node: a group to a child of the root, a file to a child of a group.
pub proof fn law_rows_lead_to_nodes(root: NodeView, sort: SortState, j: int)
    requires
        root.children.len() <= usize::MAX,
        forall|i: int|
            0 <= i < root.children.len() ==> (#[trigger] root.children[i]).children.len()
                <= usize::MAX,
        0 <= j < all_rows(root, sort).len(),
    ensures
        ({
            let r = all_rows(root, sort)[j];
            crate::model::descend(root, r.abs_path.skip(1)) is Some && r.abs_path.len() == r.depth
                + 2 && r.abs_path[0] == 0 && r.is_group == (r.depth == 0)
        }),
{
    let order = child_order(root.children, sort);
    crate::ordering::law_every_position_is_shown(
        root.children.len(),
        by_column(root.children, sort.key),
        sort.dir == SortDir::Desc,
    );
    lemma_rows_lead(root, order.len() as int, sort, j);
}

proof fn lemma_rows_lead(root: NodeView, k: int, sort: SortState, j: int)
    requires
        forall|i: int|
            0 <= i < root.children.len() ==> (#[trigger] root.children[i]).children.len()
                <= usize::MAX,
        0 <= k <= child_order(root.children, sort).len(),
        forall|i: int|
            0 <= i < child_order(root.children, sort).len() ==> #[trigger] child_order(
                root.children,
                sort,
            )[i] < root.children.len(),
        0 <= j < rows_upto(root, k, sort).len(),
    ensures
        ({
            let r = rows_upto(root, k, sort)[j];
            crate::model::descend(root, r.abs_path.skip(1)) is Some && r.abs_path.len() == r.depth
                + 2 && r.abs_path[0] == 0 && r.is_group == (r.depth == 0)
        }),
    decreases k,
{
    if k > 0 {
        let before = rows_upto(root, k - 1, sort);
        if j < before.len() {
            lemma_rows_lead(root, k - 1, sort, j);
        } else {
            reveal_with_fuel(crate::model::descend, 3);
            let i = child_order(root.children, sort)[k - 1];
            let g = root.children[i as int];
            let r = rows_upto(root, k, sort)[j];
            assert(r == group_rows(root, i, sort)[j - before.len()]);
            crate::ordering::law_every_position_is_shown(
                g.children.len(),
                by_column(g.children, sort.key),
                sort.dir == SortDir::Desc,
            );
            assert(seq![0usize, i].skip(1) =~= seq![i]);
            assert(seq![i].skip(1) =~= Seq::<usize>::empty());
            if r.depth == 1 {
                let c = child_order(g.children, sort)[j - before.len() - 1];
                assert(r.abs_path =~= seq![0usize, i, c]);
                assert(r.abs_path.skip(1) =~= seq![i, c]);
                assert(seq![i, c].skip(1) =~= seq![c]);
                assert(seq![c].skip(1) =~= Seq::<usize>::empty());
            }
        }
    }
}

} // verus!
