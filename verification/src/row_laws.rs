//! Which nodes have a row, and what stands in it.

use vstd::prelude::*;

use crate::export::tag_text;
use crate::format::{attributes_text, size_text};
use crate::list_view::{cells_of, column_of, InfoView};
use crate::model::{descend, NodeKind, NodeView, SortState};
use crate::order_laws::law_children_stand_in_order;
use crate::ordering::law_every_position_is_shown;
use crate::text::decimal;
use crate::text_laws::{is_bare, lemma_bare};
use crate::tree_list::{
    all_children_fit, all_rows, by_column, child_order, disk_rows, disk_rows_upto, full_path,
    path_along, rows_below, rows_from, rows_of, step_path, RowView,
};

verus! {

/// Whether what is reached from a node is to be seen below it: every folder on the way is
/// expanded, and nothing on the way or at its end belongs to the system, unless all is shown.
pub open spec fn is_seen(n: NodeView, steps: Seq<usize>, show_all: bool) -> bool
    decreases steps.len(),
{
    &&& steps.len() > 0
    &&& steps[0] < n.children.len()
    &&& show_all || !n.children[steps[0] as int].is_reserved
    &&& steps.len() > 1 ==> {
        let c = n.children[steps[0] as int];
        c.kind == NodeKind::Folder && c.expanded && is_seen(c, steps.skip(1), show_all)
    }
}

/// The size of the folder that something reached from a node stands in.
pub open spec fn size_around(n: NodeView, steps: Seq<usize>) -> u64
    decreases steps.len(),
{
    if steps.len() <= 1 {
        n.logical_size
    } else {
        size_around(n.children[steps[0] as int], steps.skip(1))
    }
}

/// What is reached from a node.
pub open spec fn seen_node(n: NodeView, steps: Seq<usize>) -> NodeView
    decreases steps.len(),
{
    if steps.len() == 0 {
        n
    } else {
        seen_node(n.children[steps[0] as int], steps.skip(1))
    }
}

/// Whether a row is that of what is reached from a node at `path`: it has its path, is as deep as
/// the path is long, and knows the size of the folder around it, which counts as 1 at least.
pub open spec fn is_row_of(
    r: RowView,
    n: NodeView,
    path: Seq<usize>,
    steps: Seq<usize>,
) -> bool {
    match r {
        RowView::Disk { .. } => false,
        RowView::Child { abs_path, depth, parent_logical, is_folder } => {
            &&& abs_path == path + steps
            &&& depth == path.len() + steps.len() - 2
            &&& size_around(n, steps) > 0 ==> parent_logical == size_around(n, steps)
            &&& size_around(n, steps) == 0 ==> parent_logical == 1
            &&& is_folder <==> seen_node(n, steps).kind == NodeKind::Folder
        },
    }
}

/// Whether rows are those of all that is to be seen below a node, and of nothing else, each once.
/// `at` says what each row is for.
pub open spec fn are_rows(
    rows: Seq<RowView>,
    n: NodeView,
    path: Seq<usize>,
    show_all: bool,
    at: Seq<Seq<usize>>,
) -> bool {
    &&& at.len() == rows.len()
    &&& forall|i: int|
        0 <= i < at.len() ==> is_seen(n, #[trigger] at[i], show_all) && is_row_of(
            rows[i],
            n,
            path,
            at[i],
        )
    &&& forall|i: int, j: int| 0 <= i < j < at.len() ==> #[trigger] at[i] != #[trigger] at[j]
    &&& forall|steps: Seq<usize>| #[trigger] is_seen(n, steps, show_all) ==> at.contains(steps)
}

pub proof fn lemma_seen_below(n: NodeView, i: usize, rest: Seq<usize>, show_all: bool)
    requires
        i < n.children.len(),
        show_all || !n.children[i as int].is_reserved,
        n.children[i as int].kind == NodeKind::Folder,
        n.children[i as int].expanded,
        is_seen(n.children[i as int], rest, show_all),
    ensures
        is_seen(n, seq![i] + rest, show_all),
        size_around(n, seq![i] + rest) == size_around(n.children[i as int], rest),
        seen_node(n, seq![i] + rest) == seen_node(n.children[i as int], rest),
{
    assert((seq![i] + rest).skip(1) =~= rest);
}

proof fn lemma_child_rows(
    n: NodeView,
    i: usize,
    path: Seq<usize>,
    show_all: bool,
    sort: SortState,
) -> (at: Seq<Seq<usize>>)
    requires
        all_children_fit(n),
        i < n.children.len(),
        path.len() > 0,
    ensures
        at.len() == rows_of(n, i, path, show_all, sort).len(),
        forall|k: int|
            0 <= k < at.len() ==> is_seen(n, #[trigger] at[k], show_all) && at[k][0] == i
                && is_row_of(rows_of(n, i, path, show_all, sort)[k], n, path, at[k]),
        forall|k: int, l: int| 0 <= k < l < at.len() ==> #[trigger] at[k] != #[trigger] at[l],
        forall|steps: Seq<usize>| #[trigger]
            is_seen(n, steps, show_all) && steps[0] == i ==> at.contains(steps),
    decreases n, 0int,
{
    let c = n.children[i as int];
    let rows = rows_of(n, i, path, show_all, sort);
    let own = seq![i];
    if !show_all && c.is_reserved {
        Seq::empty()
    } else {
        assert(path.push(i) =~= path + own);
        assert(own.skip(1) =~= Seq::<usize>::empty());
        assert(seen_node(c, own.skip(1)) == c);
        assert(seen_node(n, own) == c);
        if c.is_folder() && c.expanded {
            let below = path.push(i);
            assert(all_children_fit(c));
            let inner = lemma_rows_from(c, 0, below, show_all, sort);
            let order = child_order(c.children, sort);
            law_every_position_is_shown(
                c.children.len(),
                by_column(c.children, sort.key),
                sort.dir == crate::model::SortDir::Desc,
            );
            assert(order.skip(0) =~= order);
            let rest = Seq::new(inner.len(), |k: int| own + inner[k]);
            let at = seq![own] + rest;
            let inner_rows = rows_from(c, 0, below, show_all, sort);
            assert(rows_below(c, below, show_all, sort) == inner_rows);
            assert forall|k: int| 0 <= k < at.len() implies is_seen(n, #[trigger] at[k], show_all)
                && at[k][0] == i && is_row_of(rows[k], n, path, at[k]) by {
                if k > 0 {
                    assert(at[k] == own + inner[k - 1]);
                    lemma_seen_below(n, i, inner[k - 1], show_all);
                    assert(rows[k] == inner_rows[k - 1]);
                    assert(below + inner[k - 1] =~= path + at[k]);
                }
            }
            assert forall|k: int, l: int| 0 <= k < l < at.len() implies #[trigger] at[k]
                != #[trigger] at[l] by {
                assert(at[l] == own + inner[l - 1]);
                assert(inner[l - 1].len() > 0);
                if k > 0 {
                    assert(at[k] == own + inner[k - 1]);
                    assert(at[k].skip(1) =~= inner[k - 1]);
                    assert(at[l].skip(1) =~= inner[l - 1]);
                    assert(inner[k - 1] != inner[l - 1]);
                } else {
                    assert(at[k].len() == 1);
                }
            }
            assert forall|steps: Seq<usize>| #[trigger]
                is_seen(n, steps, show_all) && steps[0] == i implies at.contains(steps) by {
                if steps.len() == 1 {
                    assert(steps =~= own);
                    assert(at[0] == own);
                } else {
                    let tail = steps.skip(1);
                    assert(is_seen(c, tail, show_all));
                    assert(order.contains(tail[0]));
                    assert(inner.contains(tail));
                    let k = choose|k: int| 0 <= k < inner.len() && inner[k] == tail;
                    assert(own + tail =~= steps);
                    assert(at[k + 1] == steps);
                }
            }
            at
        } else {
            let at = seq![own];
            assert forall|steps: Seq<usize>| #[trigger]
                is_seen(n, steps, show_all) && steps[0] == i implies at.contains(steps) by {
                assert(steps =~= own);
                assert(at[0] == own);
            }
            at
        }
    }
}

proof fn lemma_rows_from(
    n: NodeView,
    k: int,
    path: Seq<usize>,
    show_all: bool,
    sort: SortState,
) -> (at: Seq<Seq<usize>>)
    requires
        all_children_fit(n),
        0 <= k <= child_order(n.children, sort).len(),
        path.len() > 0,
    ensures
        at.len() == rows_from(n, k, path, show_all, sort).len(),
        forall|i: int|
            0 <= i < at.len() ==> is_seen(n, #[trigger] at[i], show_all) && child_order(
                n.children,
                sort,
            ).skip(k).contains(at[i][0]) && is_row_of(
                rows_from(n, k, path, show_all, sort)[i],
                n,
                path,
                at[i],
            ),
        forall|i: int, j: int| 0 <= i < j < at.len() ==> #[trigger] at[i] != #[trigger] at[j],
        forall|steps: Seq<usize>| #[trigger]
            is_seen(n, steps, show_all) && child_order(n.children, sort).skip(k).contains(steps[0])
                ==> at.contains(steps),
    decreases n, child_order(n.children, sort).len() - k,
{
    let order = child_order(n.children, sort);
    law_every_position_is_shown(
        n.children.len(),
        by_column(n.children, sort.key),
        sort.dir == crate::model::SortDir::Desc,
    );
    if k == order.len() {
        assert(order.skip(k) =~= Seq::<usize>::empty());
        Seq::empty()
    } else {
        let i = order[k];
        let here = lemma_child_rows(n, i, path, show_all, sort);
        let more = lemma_rows_from(n, k + 1, path, show_all, sort);
        let at = here + more;
        let own = rows_of(n, i, path, show_all, sort);
        let rest = rows_from(n, k + 1, path, show_all, sort);
        let rows = rows_from(n, k, path, show_all, sort);
        assert(rows == own + rest);
        let late = order.skip(k + 1);
        let now = order.skip(k);
        assert(!late.contains(i)) by {
            if late.contains(i) {
                let j = choose|j: int| 0 <= j < late.len() && late[j] == i;
                law_children_stand_in_order(n.children, sort, k, k + 1 + j);
            }
        }
        assert(now[0] == i);
        assert forall|x: usize| #[trigger] late.contains(x) implies now.contains(x) by {
            let j = choose|j: int| 0 <= j < late.len() && late[j] == x;
            assert(now[j + 1] == x);
        }
        assert forall|a: int| 0 <= a < at.len() implies is_seen(n, #[trigger] at[a], show_all)
            && order.skip(k).contains(at[a][0]) && is_row_of(rows[a], n, path, at[a]) by {
            if a < here.len() {
                assert(at[a] == here[a]);
                assert(rows[a] == own[a]);
            } else {
                assert(at[a] == more[a - here.len()]);
                assert(rows[a] == rest[a - here.len()]);
            }
        }
        assert forall|a: int, b: int| 0 <= a < b < at.len() implies #[trigger] at[a]
            != #[trigger] at[b] by {
            if b < here.len() {
                assert(at[a] == here[a] && at[b] == here[b]);
            } else if a < here.len() {
                assert(at[a] == here[a] && at[b] == more[b - here.len()]);
                assert(at[a][0] == i);
            } else {
                assert(at[a] == more[a - here.len()] && at[b] == more[b - here.len()]);
            }
        }
        assert forall|steps: Seq<usize>| #[trigger]
            is_seen(n, steps, show_all) && order.skip(k).contains(steps[0]) implies at.contains(
            steps,
        ) by {
            if steps[0] == i {
                assert(here.contains(steps));
                let a = choose|a: int| 0 <= a < here.len() && here[a] == steps;
                assert(at[a] == steps);
            } else {
                let j = choose|j: int| 0 <= j < now.len() && now[j] == steps[0];
                assert(late[j - 1] == steps[0]);
                assert(more.contains(steps));
                let a = choose|a: int| 0 <= a < more.len() && more[a] == steps;
                assert(at[here.len() + a] == steps);
            }
        }
        at
    }
}

/// A partition has a row, and where it is expanded everything that is to be seen below it has
/// just one row each: every child of an expanded folder, but for the system's own where they are
/// not to be shown. Each row has the path, the depth and the kind of its node.
pub proof fn law_all_that_is_seen_has_a_row(
    partitions: Seq<NodeView>,
    pi: usize,
    show_all: bool,
    sort: SortState,
)
    requires
        pi < partitions.len(),
        all_children_fit(partitions[pi as int]),
    ensures
        disk_rows(partitions, pi, show_all, sort).len() > 0,
        disk_rows(partitions, pi, show_all, sort)[0] == (RowView::Disk { pi }),
        !partitions[pi as int].expanded ==> disk_rows(partitions, pi, show_all, sort).len() == 1,
        partitions[pi as int].expanded ==> exists|at: Seq<Seq<usize>>|
            are_rows(
                disk_rows(partitions, pi, show_all, sort).skip(1),
                partitions[pi as int],
                seq![pi],
                show_all,
                at,
            ),
{
    let p = partitions[pi as int];
    let rows = disk_rows(partitions, pi, show_all, sort);
    if p.expanded {
        let at = lemma_rows_from(p, 0, seq![pi], show_all, sort);
        let below = rows_from(p, 0, seq![pi], show_all, sort);
        assert(rows.skip(1) =~= below);
        let order = child_order(p.children, sort);
        law_every_position_is_shown(
            p.children.len(),
            by_column(p.children, sort.key),
            sort.dir == crate::model::SortDir::Desc,
        );
        assert(order.skip(0) =~= order);
        assert forall|steps: Seq<usize>| #[trigger] is_seen(p, steps, show_all) implies at.contains(
            steps,
        ) by {
            assert(order.contains(steps[0]));
        }
        assert(are_rows(rows.skip(1), p, seq![pi], show_all, at));
    }
}

/// The rows of every partition stand together somewhere in the list.
pub proof fn law_partitions_have_their_rows(
    partitions: Seq<NodeView>,
    show_all: bool,
    sort: SortState,
    pi: usize,
)
    requires
        partitions.len() <= usize::MAX,
        pi < partitions.len(),
    ensures
        exists|a: Seq<RowView>, b: Seq<RowView>|
            all_rows(partitions, show_all, sort) == #[trigger] (a + disk_rows(
                partitions,
                pi,
                show_all,
                sort,
            ) + b),
{
    let order = child_order(partitions, sort);
    law_every_position_is_shown(
        partitions.len(),
        by_column(partitions, sort.key),
        sort.dir == crate::model::SortDir::Desc,
    );
    assert(order.contains(pi));
    let k = choose|k: int| 0 <= k < order.len() && order[k] == pi;
    let b = lemma_rows_upto(partitions, show_all, sort, k + 1, order.len() as int);
    let a = disk_rows_upto(partitions, k, show_all, sort);
    assert(all_rows(partitions, show_all, sort) == a + disk_rows(partitions, pi, show_all, sort)
        + b);
}

proof fn lemma_rows_upto(
    partitions: Seq<NodeView>,
    show_all: bool,
    sort: SortState,
    k: int,
    n: int,
) -> (rest: Seq<RowView>)
    requires
        0 <= k <= n,
    ensures
        disk_rows_upto(partitions, n, show_all, sort) == disk_rows_upto(
            partitions,
            k,
            show_all,
            sort,
        ) + rest,
    decreases n - k,
{
    let front = disk_rows_upto(partitions, k, show_all, sort);
    if k == n {
        assert(front + Seq::<RowView>::empty() =~= front);
        Seq::empty()
    } else {
        let rest = lemma_rows_upto(partitions, show_all, sort, k, n - 1);
        let last = disk_rows(partitions, child_order(partitions, sort)[n - 1], show_all, sort);
        assert(front + rest + last =~= front + (rest + last));
        rest + last
    }
}

/// A root path and names below it, a backslash between them; without a root path the names
/// alone.
pub open spec fn joined(root: Seq<char>, names: Seq<Seq<char>>) -> Seq<char>
    decreases names.len(),
{
    if names.len() == 0 {
        root
    } else {
        let front = joined(root, names.drop_last());
        if front.len() == 0 {
            names.last()
        } else {
            front + seq!['\\'] + names.last()
        }
    }
}

/// The names on the way from a node, that of the node itself left out.
pub open spec fn names_along(n: NodeView, steps: Seq<usize>) -> Seq<Seq<char>>
    decreases steps.len(),
{
    if steps.len() == 0 {
        Seq::empty()
    } else {
        let c = n.children[steps[0] as int];
        seq![c.name] + names_along(c, steps.skip(1))
    }
}

proof fn lemma_joined_front(root: Seq<char>, first: Seq<char>, rest: Seq<Seq<char>>)
    ensures
        joined(root, seq![first] + rest) == joined(step_path(root, first), rest),
    decreases rest.len(),
{
    let all = seq![first] + rest;
    if rest.len() == 0 {
        assert(all.drop_last() =~= Seq::<Seq<char>>::empty());
        assert(joined(root, all.drop_last()) == root);
        assert(root + seq!['\\'] + first =~= root.push('\\') + first);
    } else {
        lemma_joined_front(root, first, rest.drop_last());
        assert(all.drop_last() =~= seq![first] + rest.drop_last());
        assert(all.last() == rest.last());
    }
}

proof fn lemma_path_along(n: NodeView, steps: Seq<usize>, root: Seq<char>)
    requires
        descend(n, steps) is Some,
    ensures
        path_along(n, steps, root) == match descend(n, steps)->0.full_path_override {
            Some(own) => own,
            None => joined(root, names_along(n, steps)),
        },
    decreases steps.len(),
{
    if steps.len() > 0 {
        let c = n.children[steps[0] as int];
        lemma_path_along(c, steps.skip(1), step_path(root, c.name));
        lemma_joined_front(root, c.name, names_along(c, steps.skip(1)));
    }
}

/// The path of a node is that of its partition without the backslashes at its end, and the names
/// down to it, a backslash between them; a node with a path of its own has that one.
pub proof fn law_path_is_made_of_names(
    partitions: Seq<NodeView>,
    root_paths: Seq<Seq<char>>,
    path: Seq<usize>,
    folder: Seq<char>,
)
    requires
        path.len() > 0,
        path[0] < partitions.len(),
        path[0] < root_paths.len(),
        is_bare(folder, root_paths[path[0] as int]),
        descend(partitions[path[0] as int], path.skip(1)) is Some,
    ensures
        full_path(partitions, root_paths, path) == match descend(
            partitions[path[0] as int],
            path.skip(1),
        )->0.full_path_override {
            Some(own) => own,
            None => joined(folder, names_along(partitions[path[0] as int], path.skip(1))),
        },
{
    lemma_bare(folder, root_paths[path[0] as int]);
    lemma_path_along(partitions[path[0] as int], path.skip(1), folder);
}

/// Whether the text of a row under a heading is the given one. The two columns of bars have no
/// text.
pub open spec fn cell_under(cells: Seq<Seq<char>>, heading: Seq<char>, text: Seq<char>) -> bool {
    &&& cells.len() == 14
    &&& exists|i: int| 0 <= i < 16 && i != 1 && i != 2 && #[trigger] column_of(i).0 == heading
    &&& forall|i: int|
        0 <= i < 16 && i != 1 && i != 2 && #[trigger] column_of(i).0 == heading ==> cells[if i == 0 {
            0
        } else {
            i - 2
        }] == text
}

/// Under each heading of the list stands what the heading names: under the size the logical
/// size, under the size on disk the physical one, under each time that time, and so on. A click
/// on a heading sorts by what stands under it.
pub proof fn law_cells_stand_under_their_headings(
    i: InfoView,
    modified: Seq<char>,
    created: Seq<char>,
    accessed: Seq<char>,
)
    ensures
        ({
            let cells = cells_of(i, modified, created, accessed);
            let dash = "—"@;
            &&& cells[0].len() >= i.name.len()
            &&& cells[0].skip(cells[0].len() - i.name.len()) == i.name
            &&& cell_under(cells, "逻辑大小"@, size_text(i.logical_size as nat))
            &&& cell_under(cells, "物理大小"@, size_text(i.physical_size as nat))
            &&& modified.len() > 0 ==> cell_under(cells, "修改时间"@, modified)
            &&& created.len() > 0 ==> cell_under(cells, "创建时间"@, created)
            &&& accessed.len() > 0 ==> cell_under(cells, "访问时间"@, accessed)
            &&& modified.len() == 0 ==> cell_under(cells, "修改时间"@, dash)
            &&& created.len() == 0 ==> cell_under(cells, "创建时间"@, dash)
            &&& accessed.len() == 0 ==> cell_under(cells, "访问时间"@, dash)
            &&& i.is_folder ==> {
                &&& cell_under(cells, "项目"@, decimal((i.file_count + i.folder_count) as nat))
                &&& cell_under(cells, "文件"@, decimal(i.file_count as nat))
                &&& cell_under(cells, "文件夹"@, decimal(i.folder_count as nat))
            }
            &&& !i.is_folder ==> {
                &&& cell_under(cells, "项目"@, dash)
                &&& cell_under(cells, "文件"@, dash)
                &&& cell_under(cells, "文件夹"@, dash)
            }
            &&& cell_under(cells, "属性"@, attributes_text(i.attributes))
            &&& i.reparse_tag != 0 ==> cell_under(cells, "重解析点"@, tag_text(i.reparse_tag))
            &&& i.reparse_tag == 0 ==> cell_under(cells, "重解析点"@, dash)
            &&& i.is_reserved ==> cell_under(cells, "保留"@, "是"@)
            &&& !i.is_reserved ==> cell_under(cells, "保留"@, dash)
            &&& i.owner.len() > 0 ==> cell_under(cells, "所有者"@, i.owner)
            &&& i.owner.len() == 0 ==> cell_under(cells, "所有者"@, dash)
            &&& i.dir_path is Some ==> cell_under(cells, "路径"@, i.dir_path->0)
        }),
{
    lemma_headings();
    lemma_tag(i.reparse_tag);
    let cells = cells_of(i, modified, created, accessed);
    assert(cells[0].skip(cells[0].len() - i.name.len()) =~= i.name);
    assert(column_of(0).0 == "名称"@);
    assert(column_of(1).0 == "父占比"@);
    assert(column_of(2).0 == "总占比"@);
    assert(column_of(3).0 == "逻辑大小"@);
    assert(column_of(4).0 == "修改时间"@);
    assert(column_of(5).0 == "物理大小"@);
    assert(column_of(6).0 == "创建时间"@);
    assert(column_of(7).0 == "访问时间"@);
    assert(column_of(8).0 == "项目"@);
    assert(column_of(9).0 == "文件"@);
    assert(column_of(10).0 == "文件夹"@);
    assert(column_of(11).0 == "属性"@);
    assert(column_of(12).0 == "重解析点"@);
    assert(column_of(13).0 == "保留"@);
    assert(column_of(14).0 == "所有者"@);
    assert(column_of(15).0 == "路径"@);
}

proof fn lemma_tag(tag: u32)
    ensures
        tag_text(tag).len() == 0 <==> tag == 0,
{
    crate::export_laws::law_tag_reads_back(tag);
}

/// No two headings are the same.
proof fn lemma_headings()
    ensures
        forall|i: int, j: int|
            0 <= i < 16 && 0 <= j < 16 && #[trigger] column_of(i).0 == #[trigger] column_of(j).0
                ==> i == j,
{
    reveal_strlit("名称");
    reveal_strlit("父占比");
    reveal_strlit("总占比");
    reveal_strlit("逻辑大小");
    reveal_strlit("修改时间");
    reveal_strlit("物理大小");
    reveal_strlit("创建时间");
    reveal_strlit("访问时间");
    reveal_strlit("项目");
    reveal_strlit("文件");
    reveal_strlit("文件夹");
    reveal_strlit("属性");
    reveal_strlit("重解析点");
    reveal_strlit("保留");
    reveal_strlit("所有者");
    reveal_strlit("路径");
    assert forall|i: int, j: int|
        0 <= i < 16 && 0 <= j < 16 && #[trigger] column_of(i).0 == #[trigger] column_of(j).0 implies i
        == j by {
        let (a, b) = (column_of(i).0, column_of(j).0);
        assert(a[0] == b[0] && a.len() == b.len());
    }
}

} // verus!
