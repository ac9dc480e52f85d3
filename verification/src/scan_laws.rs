//! That a walk over folders keeps all that it reads.

use vstd::prelude::*;

use crate::model::{file_total, logical_total, physical_total, total, totals_fit, NodeView};
use crate::model_laws::law_folder_is_made_of_its_children;
use crate::scan::{drive_letter, drive_root, leaves_of, subdirs_of, ItemView};
use crate::scan_model::{
    accepted, closed_up, entries_in, task_done, task_node, task_with, tasks_of, ReplyView, ScanView,
    Stage, TaskView,
};

verus! {

/// A path is the root of a drive where it is a letter, a colon and a slash of either kind. The
/// letter is taken for a capital, and nothing else is a drive.
pub proof fn law_root_of_a_drive(path: Seq<char>, c: char)
    ensures
        drive_root(path) == Some(c) <==> path.len() == 3 && path[1] == ':' && (path[2] == '\\'
            || path[2] == '/') && drive_letter(path) == Some(c),
        drive_letter(path) == Some(c) ==> 'A' <= c <= 'Z' && path.len() > 0 && (path[0] == c
            || path[0] as int == c as int + 32),
        path.len() > 0 && 'A' <= c <= 'Z' && (path[0] == c || path[0] as int == c as int + 32)
            ==> drive_letter(path) == Some(c),
{
}

/// What the nodes that wait in the first `k` directories of a walk come to.
pub open spec fn waiting_in(tasks: Seq<TaskView>, k: int, f: spec_fn(NodeView) -> int) -> int
    decreases k,
{
    if k <= 0 {
        0
    } else {
        waiting_in(tasks, k - 1, f) + total(tasks[k - 1].children, f)
    }
}

/// What all that a walk has read so far comes to: the nodes that wait in its directories, and the
/// tree once it is made.
pub open spec fn read_so_far(s: ScanView, f: spec_fn(NodeView) -> int) -> int {
    waiting_in(s.tasks, s.tasks.len() as int, f) + match s.root {
        Some(n) => f(n),
        None => 0,
    }
}

proof fn lemma_waiting_update(
    tasks: Seq<TaskView>,
    i: int,
    t: TaskView,
    k: int,
    f: spec_fn(NodeView) -> int,
)
    requires
        0 <= i < tasks.len(),
        0 <= k <= tasks.len(),
    ensures
        waiting_in(tasks.update(i, t), k, f) == waiting_in(tasks, k, f) + if i < k {
            total(t.children, f) - total(tasks[i].children, f)
        } else {
            0
        },
    decreases k,
{
    if k > 0 {
        lemma_waiting_update(tasks, i, t, k - 1, f);
    }
}

proof fn lemma_waiting_more(
    a: Seq<TaskView>,
    b: Seq<TaskView>,
    k: int,
    f: spec_fn(NodeView) -> int,
)
    requires
        0 <= k <= b.len(),
        forall|j: int| 0 <= j < b.len() ==> (#[trigger] b[j]).children.len() == 0,
    ensures
        waiting_in(a + b, a.len() + k, f) == waiting_in(a, a.len() as int, f),
    decreases k,
{
    if k > 0 {
        lemma_waiting_more(a, b, k - 1, f);
        assert((a + b)[a.len() + k - 1] == b[k - 1]);
        assert(b[k - 1].children.len() == 0);
    } else {
        lemma_waiting_front(a, b, a.len() as int, f);
    }
}

proof fn lemma_waiting_front(
    a: Seq<TaskView>,
    b: Seq<TaskView>,
    k: int,
    f: spec_fn(NodeView) -> int,
)
    requires
        0 <= k <= a.len(),
    ensures
        waiting_in(a + b, k, f) == waiting_in(a, k, f),
    decreases k,
{
    if k > 0 {
        lemma_waiting_front(a, b, k - 1, f);
    }
}

proof fn lemma_concat(a: Seq<NodeView>, b: Seq<NodeView>, f: spec_fn(NodeView) -> int)
    ensures
        total(a + b, f) == total(a, f) + total(b, f),
    decreases b.len(),
{
    if b.len() == 0 {
        assert(a + b =~= a);
    } else {
        lemma_concat(a, b.drop_last(), f);
        assert((a + b).drop_last() =~= a + b.drop_last());
    }
}

/// A figure of a folder is the sum of that figure over its children.
spec fn adds_up(f: spec_fn(NodeView) -> int) -> bool {
    forall|t: TaskView| totals_fit(t.children) ==> f(#[trigger] task_node(t)) == total(t.children, f)
}

proof fn lemma_closed_up(s: ScanView, i: int, f: spec_fn(NodeView) -> int)
    requires
        adds_up(f),
        s.root is None,
        0 <= i < s.tasks.len(),
        !closed_up(s, i).failed,
        !s.failed,
    ensures
        read_so_far(closed_up(s, i), f) == read_so_far(s, f),
    decreases i,
{
    let t = s.tasks[i];
    let n = s.tasks.len() as int;
    let done = task_done(t);
    let after = s.tasks.update(i, done);
    lemma_waiting_update(s.tasks, i, done, n, f);
    assert(total(done.children, f) == 0);
    assert(f(task_node(t)) == total(t.children, f));
    match t.parent {
        None => {},
        Some(p) => {
            if 0 <= p < i {
                let up = task_with(s.tasks[p], task_node(t));
                lemma_waiting_update(after, p, up, n, f);
                assert(up.children.drop_last() =~= s.tasks[p].children);
                let next = ScanView { tasks: after.update(p, up), ..s };
                if up.pending == 0 {
                    lemma_closed_up(next, p, f);
                }
            }
        },
    }
}

proof fn lemma_accepted(s: ScanView, i: int, items: Seq<ItemView>, f: spec_fn(NodeView) -> int)
    requires
        adds_up(f),
        s.root is None,
        !s.failed,
        0 <= i < s.tasks.len(),
        s.tasks[i].stage == Stage::Taken,
        !accepted(s, i, ReplyView::Read(items)).failed,
    ensures
        read_so_far(accepted(s, i, ReplyView::Read(items)), f) == read_so_far(s, f) + total(
            leaves_of(items, s.tasks[i].depth, s.seen),
            f,
        ),
{
    let t = s.tasks[i];
    let n = s.tasks.len() as int;
    let leaves = leaves_of(items, t.depth, s.seen);
    let e = entries_in(s, i, items);
    lemma_concat(t.children, leaves, f);
    lemma_waiting_update(
        s.tasks,
        i,
        TaskView { children: t.children + leaves, ..t },
        n,
        f,
    );
    let subs = subdirs_of(items);
    if subs.len() == 0 {
        lemma_closed_up(e, i, f);
    } else {
        let w = TaskView { stage: Stage::Waiting, pending: subs.len() as int, ..e.tasks[i] };
        lemma_waiting_update(e.tasks, i, w, n, f);
        let b = tasks_of(subs, i, e.tasks[i].depth + 1);
        lemma_waiting_more(e.tasks.update(i, w), b, b.len() as int, f);
    }
}

proof fn lemma_figures_add_up()
    ensures
        adds_up(|n: NodeView| n.logical_size as int),
        adds_up(|n: NodeView| n.physical_size as int),
        adds_up(|n: NodeView| n.files()),
{
    assert forall|t: TaskView| totals_fit(t.children) implies (#[trigger] task_node(t)).logical_size
        == logical_total(t.children) && task_node(t).physical_size == physical_total(t.children)
        && task_node(t).files() == file_total(t.children) by {
        law_folder_is_made_of_its_children(
            t.name,
            t.color,
            t.children,
            t.modified_ft,
            t.created_ft,
            t.accessed_ft,
            t.attrs,
            0,
            false,
            Seq::empty(),
        );
    }
}

/// Nothing that a walk reads is lost and nothing is counted twice: with the entries of a directory
/// the size, the space and the number of files that the walk has read grow by just what these
/// entries come to, however many folders are closed on that account.
pub proof fn law_walk_keeps_what_it_reads(s: ScanView, i: int, items: Seq<ItemView>)
    requires
        s.root is None,
        !s.failed,
        0 <= i < s.tasks.len(),
        s.tasks[i].stage == Stage::Taken,
        !accepted(s, i, ReplyView::Read(items)).failed,
    ensures
        ({
            let r = accepted(s, i, ReplyView::Read(items));
            let leaves = leaves_of(items, s.tasks[i].depth, s.seen);
            let size = |n: NodeView| n.logical_size as int;
            let space = |n: NodeView| n.physical_size as int;
            let files = |n: NodeView| n.files();
            &&& read_so_far(r, size) == read_so_far(s, size) + logical_total(leaves)
            &&& read_so_far(r, space) == read_so_far(s, space) + physical_total(leaves)
            &&& read_so_far(r, files) == read_so_far(s, files) + file_total(leaves)
            &&& r.counter == s.counter + items.len()
        }),
{
    lemma_figures_add_up();
    lemma_accepted(s, i, items, |n: NodeView| n.logical_size as int);
    lemma_accepted(s, i, items, |n: NodeView| n.physical_size as int);
    lemma_accepted(s, i, items, |n: NodeView| n.files());
    lemma_counter(entries_in(s, i, items), i);
}

proof fn lemma_counter(s: ScanView, i: int)
    requires
        0 <= i < s.tasks.len(),
    ensures
        closed_up(s, i).counter == s.counter,
    decreases i,
{
    let t = s.tasks[i];
    match t.parent {
        None => {},
        Some(p) => {
            if 0 <= p < i {
                let up = task_with(s.tasks[p], task_node(t));
                let next = ScanView {
                    tasks: s.tasks.update(i, task_done(t)).update(p, up),
                    ..s
                };
                if up.pending == 0 && totals_fit(t.children) {
                    lemma_counter(next, p);
                }
            }
        },
    }
}

} // verus!
