//! The list of partitions and of what is expanded below them: its rows and what a click on one
//! of them means.

use vstd::prelude::*;
use vstd::string::*;

use crate::model::{
    descend, forest_view, lemma_children, Node, NodePath, NodeView, SortDir, SortKey, SortState,
};
use crate::ordering::{order_positions, ordered};
use crate::sorting::is_order;
use crate::text::{
    lemma_lex_asymmetric, lemma_lex_transitive, less_ignore_ascii_case, owned, text_less, trim_end,
    trim_end_char,
};
use crate::theme::{Color32, FILE_COLOR, FOLDER_PALETTE};
use crate::ui::{ActionView, TreeAction};

verus! {

/// Whether one node comes before another in the order of a column, ascending. There is no order
/// by path: the rows of a tree have none.
pub open spec fn node_less(key: SortKey, a: NodeView, b: NodeView) -> bool {
    match key {
        SortKey::Name => text_less(a.name, b.name),
        SortKey::Size => a.logical_size < b.logical_size,
        SortKey::Physical => a.physical_size < b.physical_size,
        SortKey::Modified => a.modified_ft < b.modified_ft,
        SortKey::Created => a.created_ft < b.created_ft,
        SortKey::Accessed => a.accessed_ft < b.accessed_ft,
        SortKey::Items => a.file_count + a.folder_count < b.file_count + b.folder_count,
        SortKey::Files => a.file_count < b.file_count,
        SortKey::Folders => a.folder_count < b.folder_count,
        SortKey::Attributes => a.attributes < b.attributes,
        SortKey::Reparse => a.reparse_tag < b.reparse_tag,
        SortKey::Reserved => !a.is_reserved && b.is_reserved,
        SortKey::Owner => text_less(a.owner, b.owner),
        SortKey::Path => false,
    }
}

fn node_before(a: &Node, b: &Node, key: SortKey) -> (r: bool)
    ensures
        r == node_less(key, a@, b@),
{
    match key {
        SortKey::Name => less_ignore_ascii_case(a.name.as_str(), b.name.as_str()),
        SortKey::Size => a.logical_size < b.logical_size,
        SortKey::Physical => a.physical_size < b.physical_size,
        SortKey::Modified => a.modified_ft < b.modified_ft,
        SortKey::Created => a.created_ft < b.created_ft,
        SortKey::Accessed => a.accessed_ft < b.accessed_ft,
        SortKey::Items => (a.file_count as u128 + a.folder_count as u128) < (b.file_count as u128
            + b.folder_count as u128),
        SortKey::Files => a.file_count < b.file_count,
        SortKey::Folders => a.folder_count < b.folder_count,
        SortKey::Attributes => a.attributes < b.attributes,
        SortKey::Reparse => a.reparse_tag < b.reparse_tag,
        SortKey::Reserved => !a.is_reserved && b.is_reserved,
        SortKey::Owner => less_ignore_ascii_case(a.owner.as_str(), b.owner.as_str()),
        SortKey::Path => false,
    }
}

/// The order of the positions in a list of nodes by a column, ascending.
pub open spec fn by_column(kids: Seq<NodeView>, key: SortKey) -> spec_fn(usize, usize) -> bool {
    |a: usize, b: usize| node_less(key, kids[a as int], kids[b as int])
}

pub proof fn lemma_by_column(kids: Seq<NodeView>, key: SortKey)
    ensures
        is_order(by_column(kids, key)),
{
    let lt = by_column(kids, key);
    assert forall|a: usize, b: usize| #[trigger] lt(a, b) implies !lt(b, a) by {
        let (x, y) = (kids[a as int], kids[b as int]);
        lemma_text_order(x.name, y.name, y.name);
        lemma_text_order(x.owner, y.owner, y.owner);
    }
    assert forall|a: usize, b: usize, c: usize|
        #![trigger lt(a, b), lt(b, c)]
        !lt(a, b) && !lt(b, c) implies !lt(a, c) by {
        let (x, y, z) = (kids[a as int], kids[b as int], kids[c as int]);
        lemma_text_order(x.name, y.name, z.name);
        lemma_text_order(x.owner, y.owner, z.owner);
    }
}

pub(crate) proof fn lemma_text_order(a: Seq<char>, b: Seq<char>, c: Seq<char>)
    ensures
        text_less(a, b) ==> !text_less(b, a),
        !text_less(a, b) && !text_less(b, c) ==> !text_less(a, c),
{
    let f = |s: Seq<char>| crate::text::folded(vstd::utf8::encode_utf8(s));
    lemma_lex_asymmetric(f(a), f(b));
    lemma_lex_transitive(f(a), f(b), f(c));
}

/// The order in which a list of nodes is shown.
pub open spec fn child_order(kids: Seq<NodeView>, sort: SortState) -> Seq<usize> {
    ordered(kids.len(), by_column(kids, sort.key), sort.dir == SortDir::Desc)
}

/// The order in which a list of nodes is shown. The nodes themselves stay where they are.
pub fn sorted_child_order(children: &[Node], sort: SortState) -> (r: Vec<usize>)
    ensures
        r@ == child_order(forest_view(children@), sort),
        r@.len() == children@.len(),
        forall|k: int| 0 <= k < r@.len() ==> #[trigger] r@[k] < children@.len(),
{
    let key = sort.key;
    let less = |a: &usize, b: &usize| -> (o: bool)
        requires
            *a < children@.len() && *b < children@.len(),
        ensures
            o == node_less(
                key,
                forest_view(children@)[*a as int],
                forest_view(children@)[*b as int],
            ),
        { node_before(&children[*a], &children[*b], key) };
    let ghost kids = forest_view(children@);
    proof {
        lemma_by_column(kids, key);
    }
    order_positions(children.len(), &less, sort.dir == SortDir::Desc, Ghost(by_column(kids, key)))
}

/// A row of the list.
pub enum Row {
    /// A partition.
    Disk { pi: usize },
    /// A node below a partition.
    Child {
        abs_path: NodePath,
        /// How many folders stand between it and its partition.
        depth: usize,
        /// The size of what it stands in, at least 1.
        parent_logical: u64,
        is_folder: bool,
    },
}

/// What a [`Row`] holds.
#[verifier::ext_equal]
pub enum RowView {
    Disk { pi: usize },
    Child { abs_path: Seq<usize>, depth: int, parent_logical: u64, is_folder: bool },
}

impl View for Row {
    type V = RowView;

    open spec fn view(&self) -> RowView {
        match self {
            Row::Disk { pi } => RowView::Disk { pi: *pi },
            Row::Child { abs_path, depth, parent_logical, is_folder } => RowView::Child {
                abs_path: abs_path@,
                depth: *depth as int,
                parent_logical: *parent_logical,
                is_folder: *is_folder,
            },
        }
    }
}

/// What a list of rows holds.
pub open spec fn rows_view(v: Seq<Row>) -> Seq<RowView> {
    Seq::new(v.len(), |i: int| v[i]@)
}

/// A size, at least 1.
pub open spec fn not_zero(n: u64) -> u64 {
    if n == 0 {
        1
    } else {
        n
    }
}

/// The rows below a node: its children in their order, each with the rows below it where it is
/// an expanded folder. NTFS metadata is shown only with `show_all`.
pub open spec fn rows_below(
    n: NodeView,
    path: Seq<usize>,
    show_all: bool,
    sort: SortState,
) -> Seq<RowView>
    decreases n, child_order(n.children, sort).len() + 1,
{
    rows_from(n, 0, path, show_all, sort)
}

/// The rows below a node from its `k`th child, as they are shown, on.
pub open spec fn rows_from(
    n: NodeView,
    k: int,
    path: Seq<usize>,
    show_all: bool,
    sort: SortState,
) -> Seq<RowView>
    decreases n, child_order(n.children, sort).len() - k,
{
    let order = child_order(n.children, sort);
    if 0 <= k < order.len() && order[k] < n.children.len() {
        let i = order[k];
        let c = n.children[i as int];
        rows_of(n, i, path, show_all, sort) + rows_from(n, k + 1, path, show_all, sort)
    } else {
        Seq::empty()
    }
}

/// The rows of one child of a node.
pub open spec fn rows_of(
    n: NodeView,
    i: usize,
    path: Seq<usize>,
    show_all: bool,
    sort: SortState,
) -> Seq<RowView>
    decreases n, 0int,
{
    if i < n.children.len() {
        let c = n.children[i as int];
        if !show_all && c.is_reserved {
            Seq::empty()
        } else {
            seq![
                RowView::Child {
                    abs_path: path.push(i),
                    depth: path.len() - 1,
                    parent_logical: not_zero(n.logical_size),
                    is_folder: c.is_folder(),
                },
            ] + (if c.is_folder() && c.expanded {
                rows_below(c, path.push(i), show_all, sort)
            } else {
                Seq::empty()
            })
        }
    } else {
        Seq::empty()
    }
}

/// The rows of a partition.
pub open spec fn disk_rows(
    partitions: Seq<NodeView>,
    pi: usize,
    show_all: bool,
    sort: SortState,
) -> Seq<RowView> {
    let p = partitions[pi as int];
    seq![RowView::Disk { pi }] + (if p.expanded {
        rows_below(p, seq![pi], show_all, sort)
    } else {
        Seq::empty()
    })
}

/// The rows of the first `k` partitions, as they are shown.
pub open spec fn disk_rows_upto(
    partitions: Seq<NodeView>,
    k: int,
    show_all: bool,
    sort: SortState,
) -> Seq<RowView>
    decreases k,
{
    if k <= 0 {
        Seq::empty()
    } else {
        disk_rows_upto(partitions, k - 1, show_all, sort) + disk_rows(
            partitions,
            child_order(partitions, sort)[k - 1],
            show_all,
            sort,
        )
    }
}

/// All rows of the list.
pub open spec fn all_rows(partitions: Seq<NodeView>, show_all: bool, sort: SortState) -> Seq<
    RowView,
> {
    disk_rows_upto(partitions, child_order(partitions, sort).len() as int, show_all, sort)
}

pub(crate) fn extended(path: &Vec<usize>, i: usize) -> (r: Vec<usize>)
    ensures
        r@ == path@.push(i),
{
    let mut r: Vec<usize> = Vec::new();
    let mut k: usize = 0;
    while k < path.len()
        invariant
            k <= path.len(),
            r@ == path@.take(k as int),
        decreases path.len() - k,
    {
        r.push(path[k]);
        k += 1;
        assert(path@.take(k as int) =~= path@.take(k - 1).push(path@[k - 1]));
    }
    assert(path@.take(k as int) =~= path@);
    r.push(i);
    r
}

/// A folder whose rows are listed, from the `next` place of its order on.
struct Listing<'a> {
    node: &'a Node,
    path: Vec<usize>,
    order: Vec<usize>,
    next: usize,
}

/// The order of a folder is that of its children.
spec fn listing_wf(l: Listing<'_>, sort: SortState) -> bool {
    &&& l.path@.len() > 0
    &&& l.order@ == child_order(l.node@.children, sort)
    &&& forall|j: int| 0 <= j < l.order@.len() ==> #[trigger] l.order@[j] < l.node.children@.len()
}

/// The rows that are still to be listed, those of the last folder first.
spec fn rows_left(todo: Seq<Listing<'_>>, show_all: bool, sort: SortState) -> Seq<RowView>
    decreases todo.len(),
{
    if todo.len() == 0 {
        Seq::empty()
    } else {
        let l = todo.last();
        rows_from(l.node@, l.next as int, l.path@, show_all, sort) + rows_left(
            todo.drop_last(),
            show_all,
            sort,
        )
    }
}

/// How many steps it takes to list everything below a node, from a place of its order on.
spec fn steps_from(n: NodeView, k: int, sort: SortState) -> nat
    decreases n, child_order(n.children, sort).len() - k,
{
    let order = child_order(n.children, sort);
    if 0 <= k < order.len() {
        1 + (if order[k] < n.children.len() {
            steps_from(n.children[order[k] as int], 0, sort)
        } else {
            0
        }) + steps_from(n, k + 1, sort)
    } else {
        1
    }
}

spec fn steps_left(todo: Seq<Listing<'_>>, sort: SortState) -> nat
    decreases todo.len(),
{
    if todo.len() == 0 {
        0
    } else {
        steps_from(todo.last().node@, todo.last().next as int, sort) + steps_left(
            todo.drop_last(),
            sort,
        )
    }
}

proof fn lemma_one_more(todo: Seq<Listing<'_>>, l: Listing<'_>, show_all: bool, sort: SortState)
    ensures
        rows_left(todo.push(l), show_all, sort) == rows_from(
            l.node@,
            l.next as int,
            l.path@,
            show_all,
            sort,
        ) + rows_left(todo, show_all, sort),
        steps_left(todo.push(l), sort) == steps_from(l.node@, l.next as int, sort) + steps_left(
            todo,
            sort,
        ),
{
    assert(todo.push(l).drop_last() =~= todo);
}

proof fn lemma_regroup(a: Seq<RowView>, b: Seq<RowView>, c: Seq<RowView>, d: Seq<RowView>)
    ensures
        a + ((b + c) + d) == (a + b) + (c + d),
{
    assert(a + ((b + c) + d) =~= (a + b) + (c + d));
}

proof fn lemma_row_first(a: Seq<RowView>, r: RowView, b: Seq<RowView>, c: Seq<RowView>)
    ensures
        (a + (seq![r] + b)) + c == a.push(r) + (b + c),
{
    assert((a + (seq![r] + b)) + c =~= a.push(r) + (b + c));
}

fn listing<'a>(node: &'a Node, path: Vec<usize>, sort: SortState) -> (l: Listing<'a>)
    requires
        path@.len() > 0,
    ensures
        listing_wf(l, sort),
        l.node == node,
        l.path == path,
        l.next == 0,
{
    proof {
        lemma_children(*node);
    }
    let order = sorted_child_order(node.children.as_slice(), sort);
    Listing { node, path, order, next: 0 }
}

fn collect_rows(
    n: &Node,
    path: Vec<usize>,
    show_all: bool,
    sort: SortState,
    rows: &mut Vec<Row>,
)
    requires
        path@.len() > 0,
    ensures
        rows_view(final(rows)@) == rows_view(old(rows)@) + rows_below(n@, path@, show_all, sort),
{
    let ghost start = rows_view(rows@);
    let ghost all = rows_below(n@, path@, show_all, sort);
    let mut todo: Vec<Listing<'_>> = Vec::new();
    let first = listing(n, path, sort);
    todo.push(first);
    proof {
        lemma_one_more(Seq::empty(), first, show_all, sort);
        assert(todo@ =~= Seq::empty().push(first));
        assert(rows_left(todo@, show_all, sort) =~= all);
    }
    while todo.len() > 0
        invariant
            rows_view(rows@) + rows_left(todo@, show_all, sort) == start + all,
            forall|i: int| 0 <= i < todo@.len() ==> #[trigger] listing_wf(todo@[i], sort),
        decreases steps_left(todo@, sort),
    {
        let ghost before = todo@;
        let ghost listed = rows_view(rows@);
        let top = match todo.pop() {
            Some(t) => t,
            None => vstd::pervasive::unreached(),
        };
        let ghost rest = todo@;
        proof {
            lemma_one_more(rest, top, show_all, sort);
            assert(before =~= rest.push(top));
            assert(listing_wf(before[before.len() - 1], sort));
            assert forall|i: int| 0 <= i < rest.len() implies #[trigger] listing_wf(
                rest[i],
                sort,
            ) by {
                assert(rest[i] == before[i]);
            }
            lemma_children(*top.node);
        }
        if top.next < top.order.len() {
            let k: usize = top.next;
            let i: usize = top.order[k];
            let node = top.node;
            let c = &node.children[i];
            assert(node@.children[i as int] == c@);
            let size: u64 = if node.logical_size == 0 {
                1
            } else {
                node.logical_size
            };
            let below = extended(&top.path, i);
            let depth: usize = top.path.len() - 1;
            let ghost own = rows_of(node@, i, top.path@, show_all, sort);
            let ghost after = rows_from(node@, k + 1, top.path@, show_all, sort);
            let again = Listing { node, path: top.path, order: top.order, next: k + 1 };
            todo.push(again);
            let ghost mid = todo@;
            let ghost left = rows_left(mid, show_all, sort);
            proof {
                lemma_one_more(rest, again, show_all, sort);
                lemma_regroup(listed, own, after, rows_left(rest, show_all, sort));
            }
            if show_all || !c.is_reserved {
                let is_folder = c.is_folder();
                let ghost v = rows@;
                let row = Row::Child {
                    abs_path: copy_path(&below),
                    depth,
                    parent_logical: size,
                    is_folder,
                };
                rows.push(row);
                assert(rows_view(rows@) =~= rows_view(v).push(row@));
                if is_folder && c.expanded {
                    let child = listing(c, below, sort);
                    todo.push(child);
                    proof {
                        lemma_one_more(mid, child, show_all, sort);
                        let deeper = rows_below(c@, child.path@, show_all, sort);
                        assert(own == seq![row@] + deeper);
                        lemma_row_first(listed, row@, deeper, left);
                    }
                } else {
                    assert(listed.push(row@) =~= listed + own);
                }
            } else {
                assert(listed + own =~= listed);
            }
        } else {
            assert(rows_left(before, show_all, sort) =~= rows_left(rest, show_all, sort));
        }
    }
    assert(rows_view(rows@) + Seq::<RowView>::empty() =~= rows_view(rows@));
}

/// All rows of the list: the partitions in their order, each with what is expanded below it.
pub fn list_rows(partitions: &[Node], show_all: bool, sort: SortState) -> (r: Vec<Row>)
    ensures
        rows_view(r@) == all_rows(forest_view(partitions@), show_all, sort),
{
    let ghost ps = forest_view(partitions@);
    let order = sorted_child_order(partitions, sort);
    let mut rows: Vec<Row> = Vec::new();
    let mut k: usize = 0;
    assert(rows_view(rows@) =~= disk_rows_upto(ps, 0, show_all, sort));
    while k < order.len()
        invariant
            k <= order.len(),
            ps == forest_view(partitions@),
            order@ == child_order(ps, sort),
            forall|j: int| 0 <= j < order@.len() ==> #[trigger] order@[j] < partitions@.len(),
            rows_view(rows@) == disk_rows_upto(ps, k as int, show_all, sort),
        decreases order.len() - k,
    {
        let pi: usize = order[k];
        let p = &partitions[pi];
        let ghost before = rows_view(rows@);
        let ghost v = rows@;
        rows.push(Row::Disk { pi });
        assert(ps[pi as int] == p@);
        assert(rows_view(rows@) =~= rows_view(v).push(RowView::Disk { pi }));
        if p.expanded {
            let mut path: Vec<usize> = Vec::new();
            path.push(pi);
            assert(path@ =~= seq![pi]);
            collect_rows(p, path, show_all, sort, &mut rows);
        }
        assert(rows_view(rows@) =~= before + disk_rows(ps, pi, show_all, sort));
        k += 1;
    }
    rows
}

/// Where a row stands: the path of its node.
pub open spec fn row_path(r: RowView) -> Seq<usize> {
    match r {
        RowView::Disk { pi } => seq![pi],
        RowView::Child { abs_path, .. } => abs_path,
    }
}

/// A copy of the path of a row.
pub fn path_of_row(r: &Row) -> (p: NodePath)
    ensures
        p@ == row_path(r@),
{
    match r {
        Row::Disk { pi } => {
            let mut p: Vec<usize> = Vec::new();
            p.push(*pi);
            assert(p@ =~= seq![*pi]);
            p
        },
        Row::Child { abs_path, .. } => copy_path(abs_path),
    }
}

/// A copy of a path.
pub fn copy_path(path: &Vec<usize>) -> (r: Vec<usize>)
    ensures
        r@ == path@,
{
    let mut r: Vec<usize> = Vec::new();
    let mut k: usize = 0;
    while k < path.len()
        invariant
            k <= path.len(),
            r@ == path@.take(k as int),
        decreases path.len() - k,
    {
        r.push(path[k]);
        k += 1;
        assert(path@.take(k as int) =~= path@.take(k - 1).push(path@[k - 1]));
    }
    assert(path@.take(k as int) =~= path@);
    r
}

/// Whether two paths are the same.
pub fn same_path(a: &[usize], b: &[usize]) -> (r: bool)
    ensures
        r == (a@ == b@),
{
    if a.len() != b.len() {
        return false;
    }
    let mut i: usize = 0;
    while i < a.len()
        invariant
            i <= a.len(),
            a@.len() == b@.len(),
            forall|k: int| 0 <= k < i ==> a@[k] == b@[k],
        decreases a.len() - i,
    {
        if a[i] != b[i] {
            return false;
        }
        i += 1;
    }
    assert(a@ =~= b@);
    true
}

/// The first row for a path.
pub open spec fn row_at(rows: Seq<RowView>, target: Seq<usize>, k: int) -> Option<int>
    decreases rows.len() - k,
{
    if 0 <= k < rows.len() {
        if row_path(rows[k]) == target {
            Some(k)
        } else {
            row_at(rows, target, k + 1)
        }
    } else {
        None
    }
}

/// The first row for a path: where to scroll to.
pub fn find_row(rows: &Vec<Row>, target: &[usize]) -> (r: Option<usize>)
    ensures
        match r {
            Some(i) => row_at(rows_view(rows@), target@, 0) == Some(i as int),
            None => row_at(rows_view(rows@), target@, 0) is None,
        },
{
    let ghost rv = rows_view(rows@);
    let mut i: usize = 0;
    while i < rows.len()
        invariant
            i <= rows.len(),
            rv == rows_view(rows@),
            row_at(rv, target@, i as int) == row_at(rv, target@, 0),
        decreases rows.len() - i,
    {
        let p = path_of_row(&rows[i]);
        assert(rv[i as int] == rows@[i as int]@);
        if same_path(p.as_slice(), target) {
            return Some(i);
        }
        i += 1;
    }
    None
}

/// What a left click on a row asks for: a partition or folder is opened or closed, a file
/// selected.
pub open spec fn left_click(r: RowView) -> ActionView {
    match r {
        RowView::Disk { pi } => ActionView::ToggleExpand(seq![pi]),
        RowView::Child { abs_path, is_folder, .. } => if is_folder {
            ActionView::ToggleExpand(abs_path)
        } else {
            ActionView::Select(abs_path)
        },
    }
}

/// What the clicks of one frame ask for. What was chosen in a menu comes first, then a left
/// click, then a right click, which only selects.
pub open spec fn click_outcome(
    rows: Seq<RowView>,
    left: Option<usize>,
    right: Option<usize>,
    request: Option<ActionView>,
) -> ActionView {
    match request {
        Some(a) => a,
        None => match left {
            Some(i) if i < rows.len() => left_click(rows[i as int]),
            _ => match right {
                Some(i) if i < rows.len() => ActionView::Select(row_path(rows[i as int])),
                _ => ActionView::Nothing,
            },
        },
    }
}

/// What an optional action holds.
pub open spec fn action_option(a: Option<TreeAction>) -> Option<ActionView> {
    match a {
        Some(x) => Some(x@),
        None => None,
    }
}

/// What the clicks of one frame ask for.
pub fn click_action(
    rows: &Vec<Row>,
    left: Option<usize>,
    right: Option<usize>,
    request: Option<TreeAction>,
) -> (r: TreeAction)
    ensures
        r@ == click_outcome(rows_view(rows@), left, right, action_option(request)),
{
    if let Some(a) = request {
        return a;
    }
    if let Some(i) = left {
        if i < rows.len() {
            assert(rows_view(rows@)[i as int] == rows@[i as int]@);
            let path = path_of_row(&rows[i]);
            return match &rows[i] {
                Row::Disk { .. } => TreeAction::ToggleExpand(path),
                Row::Child { is_folder, .. } => if *is_folder {
                    TreeAction::ToggleExpand(path)
                } else {
                    TreeAction::Select(path)
                },
            };
        }
    }
    if let Some(i) = right {
        if i < rows.len() {
            assert(rows_view(rows@)[i as int] == rows@[i as int]@);
            return TreeAction::Select(path_of_row(&rows[i]));
        }
    }
    TreeAction::Nothing
}

/// A path with one more name behind it.
pub open spec fn step_path(path: Seq<char>, name: Seq<char>) -> Seq<char> {
    if path.len() == 0 {
        name
    } else {
        path.push('\\') + name
    }
}

/// The path of the node that the steps lead to, or of the last one on the way. A node with a
/// real path of its own has that one.
pub open spec fn path_along(n: NodeView, steps: Seq<usize>, path: Seq<char>) -> Seq<char>
    decreases steps.len(),
{
    if steps.len() > 0 && steps[0] < n.children.len() {
        let c = n.children[steps[0] as int];
        path_along(c, steps.skip(1), step_path(path, c.name))
    } else {
        match n.full_path_override {
            Some(own) => own,
            None => path,
        }
    }
}

/// The full path of a node of the list.
pub open spec fn full_path(
    partitions: Seq<NodeView>,
    root_paths: Seq<Seq<char>>,
    path: Seq<usize>,
) -> Seq<char> {
    if path.len() == 0 {
        Seq::empty()
    } else {
        let pi = path[0];
        let root = if pi < root_paths.len() {
            trim_end(root_paths[pi as int], '\\')
        } else {
            Seq::empty()
        };
        if pi < partitions.len() {
            path_along(partitions[pi as int], path.skip(1), root)
        } else {
            root
        }
    }
}

/// The full path of a node of the list.
pub fn build_full_path(partitions: &[Node], root_paths: &[String], abs_path: &[usize]) -> (r:
    String)
    ensures
        r@ == full_path(
            forest_view(partitions@),
            crate::file_ops::strings_view(root_paths@),
            abs_path@,
        ),
{
    let ghost ps = forest_view(partitions@);
    let ghost roots = crate::file_ops::strings_view(root_paths@);
    if abs_path.len() == 0 {
        return String::new();
    }
    let pi: usize = abs_path[0];
    let mut path = if pi < root_paths.len() {
        assert(roots[pi as int] == root_paths@[pi as int]@);
        trim_end_char(root_paths[pi].as_str(), '\\')
    } else {
        String::new()
    };
    if pi >= partitions.len() {
        return path;
    }
    let mut cur: &Node = &partitions[pi];
    assert(ps[pi as int] == cur@);
    let mut k: usize = 1;
    let ghost goal = path_along(cur@, abs_path@.skip(1), path@);
    while k < abs_path.len()
        invariant_except_break
            path_along(cur@, abs_path@.skip(k as int), path@) == goal,
        invariant
            1 <= k <= abs_path@.len(),
        ensures
            goal == match cur@.full_path_override {
                Some(own) => own,
                None => path@,
            },
        decreases abs_path@.len() - k,
    {
        proof {
            lemma_children(*cur);
            assert(abs_path@.skip(k as int)[0] == abs_path@[k as int]);
            assert(abs_path@.skip(k as int).skip(1) =~= abs_path@.skip(k + 1));
        }
        let i: usize = abs_path[k];
        if i >= cur.children.len() {
            break;
        }
        let next: &Node = &cur.children[i];
        assert(cur@.children[i as int] == next@);
        if crate::file_ops::is_empty(path.as_str()) {
            path = owned(next.name.as_str());
        } else {
            path.push('\\');
            path.append(next.name.as_str());
        }
        cur = next;
        k += 1;
    }
    match &cur.full_path_override {
        Some(own) => owned(own.as_str()),
        None => path,
    }
}

/// The colour of the bar of a row.
pub fn depth_color(depth: usize, is_folder: bool) -> (r: Color32)
    ensures
        r == if is_folder {
            FOLDER_PALETTE@[depth as int % 6]
        } else {
            FILE_COLOR
        },
{
    if is_folder {
        FOLDER_PALETTE[depth % 6]
    } else {
        FILE_COLOR
    }
}

proof fn lemma_rows_lead(
    top: NodeView,
    n: NodeView,
    k: int,
    path: Seq<usize>,
    show_all: bool,
    sort: SortState,
)
    requires
        path.len() > 0,
        n.children.len() <= usize::MAX,
        descend(top, path.skip(1)) == Some(n),
        all_children_fit(n),
        0 <= k,
    ensures
        forall|j: int|
            0 <= j < rows_from(n, k, path, show_all, sort).len() ==> #[trigger] row_leads(
                top,
                rows_from(n, k, path, show_all, sort)[j],
                path[0],
            ),
    decreases n, child_order(n.children, sort).len() - k,
{
    let order = child_order(n.children, sort);
    let all = rows_from(n, k, path, show_all, sort);
    if 0 <= k < order.len() && order[k] < n.children.len() {
        let i = order[k];
        let c = n.children[i as int];
        let own = rows_of(n, i, path, show_all, sort);
        let rest = rows_from(n, k + 1, path, show_all, sort);
        lemma_rows_lead(top, n, k + 1, path, show_all, sort);
        let below = path.push(i);
        assert(below.skip(1) =~= path.skip(1).push(i));
        lemma_descend_push(top, path.skip(1), i, n);
        assert(all_children_fit(c));
        if c.is_folder() && c.expanded {
            lemma_rows_lead(top, c, 0, below, show_all, sort);
        }
        assert forall|j: int| 0 <= j < all.len() implies #[trigger] row_leads(
            top,
            all[j],
            path[0],
        ) by {
            if j < own.len() {
                assert(all[j] == own[j]);
                if j == 0 {
                    assert(row_path(own[0]) == below);
                } else {
                    let inner = rows_from(c, 0, below, show_all, sort);
                    assert(inner == rows_below(c, below, show_all, sort));
                    assert(own[j] == inner[j - 1]);
                    assert(row_leads(top, inner[j - 1], below[0]));
                }
            } else {
                assert(all[j] == rest[j - own.len()]);
            }
        }
    }
}

/// No node of a tree has more children than can be counted.
pub open spec fn all_children_fit(n: NodeView) -> bool
    decreases n,
{
    &&& n.children.len() <= usize::MAX
    &&& forall|i: int| 0 <= i < n.children.len() ==> all_children_fit(#[trigger] n.children[i])
}

proof fn lemma_descend_push(n: NodeView, path: Seq<usize>, i: usize, m: NodeView)
    requires
        descend(n, path) == Some(m),
        i < m.children.len(),
    ensures
        descend(n, path.push(i)) == Some(m.children[i as int]),
    decreases path.len(),
{
    if path.len() == 0 {
        reveal_with_fuel(descend, 2);
        assert(path.push(i).skip(1) =~= Seq::<usize>::empty());
    } else {
        assert(path.push(i).skip(1) =~= path.skip(1).push(i));
        assert(path.push(i)[0] == path[0]);
        lemma_descend_push(n.children[path[0] as int], path.skip(1), i, m);
    }
}

/// A row that is not a partition's own leads to a node of the partition with the given number,
/// and says rightly whether that is a folder.
pub open spec fn row_leads(top: NodeView, r: RowView, pi: usize) -> bool {
    match r {
        RowView::Disk { .. } => true,
        RowView::Child { abs_path, is_folder, .. } => {
            &&& abs_path.len() > 1
            &&& abs_path[0] == pi
            &&& descend(top, abs_path.skip(1)) is Some
            &&& is_folder == (descend(top, abs_path.skip(1))->0).is_folder()
        },
    }
}

/// Every row below a partition stands for a node of its tree.
pub proof fn law_rows_lead_to_nodes(
    partitions: Seq<NodeView>,
    pi: usize,
    show_all: bool,
    sort: SortState,
)
    requires
        pi < partitions.len(),
        all_children_fit(partitions[pi as int]),
    ensures
        forall|j: int|
            0 <= j < disk_rows(partitions, pi, show_all, sort).len() ==> #[trigger] row_leads(
                partitions[pi as int],
                disk_rows(partitions, pi, show_all, sort)[j],
                pi,
            ),
{
    let p = partitions[pi as int];
    let rows = disk_rows(partitions, pi, show_all, sort);
    let path = seq![pi];
    assert(path.skip(1) =~= Seq::<usize>::empty());
    lemma_rows_lead(p, p, 0, path, show_all, sort);
    assert forall|j: int| 0 <= j < rows.len() implies #[trigger] row_leads(p, rows[j], pi) by {
        if j > 0 {
            let inner = rows_from(p, 0, path, show_all, sort);
            assert(inner == rows_below(p, path, show_all, sort));
            assert(rows[j] == inner[j - 1]);
            assert(row_leads(p, inner[j - 1], path[0]));
        }
    }
}

} // verus!
