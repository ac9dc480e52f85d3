//! A walk over a directory tree as a whole: which directories are open, and how the tree comes
//! together from the leaves up.

use vstd::prelude::*;

use crate::dir_enum::DirEntryView;
use crate::model::{folder_view, totals_fit, NodeView};
use crate::scan::{depth_color, leaf_of, leaves_of, seen_after_all, subdirs_of, ItemView};
use crate::theme::Color32;
use crate::tree_laws::{consistent, law_new_folder_is_consistent};

verus! {

/// How far a directory is.
#[derive(Clone, Copy, Debug, PartialEq, Eq, Structural)]
pub enum Stage {
    /// It waits to be read.
    Queued,
    /// It is being read.
    Taken,
    /// It was read; some directory below it is not done.
    Waiting,
    /// Its node is made.
    Finished,
}

/// A directory of the walk.
#[verifier::ext_equal]
pub struct TaskView {
    pub name: Seq<char>,
    pub color: Color32,
    pub modified_ft: u64,
    pub created_ft: u64,
    pub accessed_ft: u64,
    pub attrs: u32,
    pub depth: int,
    /// The directory it stands in; none for the root.
    pub parent: Option<int>,
    /// How many directories right below it are not done.
    pub pending: int,
    /// The nodes that are made so far.
    pub children: Seq<NodeView>,
    pub stage: Stage,
}

/// The state of a walk.
#[verifier::ext_equal]
pub struct ScanView {
    pub tasks: Seq<TaskView>,
    /// The directories that wait to be read, in order.
    pub queue: Seq<int>,
    /// The numbers of the files counted so far.
    pub seen: Set<u64>,
    pub root: Option<NodeView>,
    /// How many entries were read.
    pub counter: int,
    /// Something went wrong that makes the result useless.
    pub failed: bool,
}

/// The node of a directory that is done.
pub open spec fn task_node(t: TaskView) -> NodeView {
    folder_view(
        t.name,
        t.color,
        t.children,
        t.modified_ft,
        t.created_ft,
        t.accessed_ft,
        t.attrs,
        0,
        false,
        Seq::empty(),
    )
}

/// A directory whose node was made.
pub open spec fn task_done(t: TaskView) -> TaskView {
    TaskView { stage: Stage::Finished, children: Seq::empty(), ..t }
}

/// A directory that got the node of one below it.
pub open spec fn task_with(t: TaskView, n: NodeView) -> TaskView {
    TaskView { children: t.children.push(n), pending: t.pending - 1, ..t }
}

/// The walk with the node of a directory made and handed up, and so on as long as that was the
/// last one its parent waited for.
pub open spec fn closed_up(s: ScanView, i: int) -> ScanView
    decreases i,
{
    let t = s.tasks[i];
    if !totals_fit(t.children) {
        ScanView { failed: true, ..s }
    } else {
        match t.parent {
            None => ScanView {
                tasks: s.tasks.update(i, task_done(t)),
                root: Some(task_node(t)),
                ..s
            },
            Some(p) => if 0 <= p < i {
                let up = task_with(s.tasks[p], task_node(t));
                let next = ScanView {
                    tasks: s.tasks.update(i, task_done(t)).update(p, up),
                    ..s
                };
                if up.pending == 0 {
                    closed_up(next, p)
                } else {
                    next
                }
            } else {
                s
            },
        }
    }
}

/// The directory of an entry.
pub open spec fn task_of(e: DirEntryView, parent: int, depth: int) -> TaskView {
    TaskView {
        name: e.name,
        color: depth_color(depth),
        modified_ft: e.modified_ft,
        created_ft: e.created_ft,
        accessed_ft: e.accessed_ft,
        attrs: e.attrs,
        depth,
        parent: Some(parent),
        pending: 0,
        children: Seq::empty(),
        stage: Stage::Queued,
    }
}

/// The directories below a directory.
pub open spec fn tasks_of(subs: Seq<DirEntryView>, parent: int, depth: int) -> Seq<TaskView> {
    Seq::new(subs.len(), |k: int| task_of(subs[k], parent, depth))
}

/// The walk with the directories below a directory opened.
pub open spec fn opened(s: ScanView, i: int, subs: Seq<DirEntryView>) -> ScanView {
    let t = TaskView { stage: Stage::Waiting, pending: subs.len() as int, ..s.tasks[i] };
    ScanView {
        tasks: s.tasks.update(i, t) + tasks_of(subs, i, s.tasks[i].depth + 1),
        queue: s.queue + Seq::new(subs.len(), |k: int| s.tasks.len() + k),
        ..s
    }
}

/// The walk with the entries of a directory taken in.
pub open spec fn entries_in(s: ScanView, i: int, items: Seq<ItemView>) -> ScanView {
    let t = s.tasks[i];
    ScanView {
        tasks: s.tasks.update(
            i,
            TaskView { children: t.children + leaves_of(items, t.depth, s.seen), ..t },
        ),
        seen: seen_after_all(items, s.seen),
        counter: s.counter + items.len(),
        ..s
    }
}

/// What came of reading a directory.
#[verifier::ext_equal]
pub enum ReplyView {
    /// Its entries.
    Read(Seq<ItemView>),
    /// It could not be read.
    Unreadable,
    /// Reading it broke off.
    Failed,
}

/// The walk after a directory was read. A directory that cannot be read counts as empty, but for
/// the root: a walk that cannot read its root has failed, as one where reading broke off.
pub open spec fn accepted(s: ScanView, i: int, reply: ReplyView) -> ScanView {
    if s.failed || !(0 <= i < s.tasks.len()) || s.tasks[i].stage != Stage::Taken {
        s
    } else {
        match reply {
            ReplyView::Failed => ScanView { failed: true, ..s },
            ReplyView::Unreadable => if s.tasks[i].parent is None {
                ScanView { failed: true, ..s }
            } else {
                closed_up(s, i)
            },
            ReplyView::Read(items) => if s.counter + items.len() > u64::MAX {
                ScanView { failed: true, ..s }
            } else if subdirs_of(items).len() == 0 {
                closed_up(entries_in(s, i, items), i)
            } else {
                opened(entries_in(s, i, items), i, subdirs_of(items))
            },
        }
    }
}

/// Progress is reported each time this many entries are read.
pub const PROGRESS_STEP_ENTRIES: u64 = 5000;

/// How many of the first `k` directories stand right below directory `q` and are not done.
pub open spec fn open_below(tasks: Seq<TaskView>, q: int, k: int) -> int
    decreases k,
{
    if k <= 0 {
        0
    } else {
        open_below(tasks, q, k - 1) + if tasks[k - 1].parent == Some(q) && tasks[k - 1].stage
            != Stage::Finished {
            1int
        } else {
            0int
        }
    }
}

/// How many of the first `k` directories are not read yet.
pub open spec fn unread(tasks: Seq<TaskView>, k: int) -> int
    decreases k,
{
    if k <= 0 {
        0
    } else {
        unread(tasks, k - 1) + if tasks[k - 1].stage == Stage::Queued || tasks[k - 1].stage
            == Stage::Taken {
            1int
        } else {
            0int
        }
    }
}

/// Every directory but the first stands in an earlier one, and the queue names directories.
pub open spec fn shaped(s: ScanView) -> bool {
    &&& s.tasks.len() > 0
    &&& forall|i: int|
        #![trigger s.tasks[i]]
        0 <= i < s.tasks.len() ==> {
            &&& 0 <= s.tasks[i].depth <= i
            &&& match s.tasks[i].parent {
                Some(p) => 0 <= p < i,
                None => i == 0,
            }
        }
    &&& forall|k: int| 0 <= k < s.queue.len() ==> 0 <= #[trigger] s.queue[k] < s.tasks.len()
    &&& 0 <= s.counter <= u64::MAX
}

/// A directory is as far as what stands below it says.
pub open spec fn settled(s: ScanView, i: int) -> bool {
    let t = s.tasks[i];
    let open = open_below(s.tasks, i, s.tasks.len() as int);
    if t.stage == Stage::Waiting {
        t.pending == open && open > 0
    } else {
        open == 0
    }
}

/// What holds between the steps of a walk that has not failed.
pub open spec fn coherent(s: ScanView) -> bool {
    &&& forall|i: int| 0 <= i < s.tasks.len() ==> #[trigger] settled(s, i)
    &&& s.root is Some <==> s.tasks[0].stage == Stage::Finished
    &&& s.root matches Some(n) ==> consistent(n)
    &&& all_consistent(s)
}

/// The totals of all nodes made so far are right.
pub open spec fn all_consistent(s: ScanView) -> bool {
    forall|i: int, k: int|
        0 <= i < s.tasks.len() && 0 <= k < s.tasks[i].children.len() ==> consistent(
            #[trigger] s.tasks[i].children[k],
        )
}

/// The queue holds those directories that wait to be read, each once.
pub open spec fn queued_right(s: ScanView) -> bool {
    &&& s.queue.no_duplicates()
    &&& forall|i: int|
        0 <= i < s.tasks.len() ==> (s.tasks[i].stage == Stage::Queued <==> #[trigger] s.queue.contains(
            i,
        ))
}

/// What holds between the steps of a walk.
pub open spec fn scan_wf(s: ScanView) -> bool {
    shaped(s) && (!s.failed ==> coherent(s) && queued_right(s))
}

proof fn lemma_open_update(tasks: Seq<TaskView>, i: int, t: TaskView, q: int, k: int)
    requires
        0 <= i < tasks.len(),
        0 <= k <= tasks.len(),
        t.parent == tasks[i].parent,
    ensures
        open_below(tasks.update(i, t), q, k) == open_below(tasks, q, k) + if i < k
            && tasks[i].parent == Some(q) {
            (if t.stage != Stage::Finished {
                1int
            } else {
                0int
            }) - (if tasks[i].stage != Stage::Finished {
                1int
            } else {
                0int
            })
        } else {
            0int
        },
    decreases k,
{
    if k > 0 {
        lemma_open_update(tasks, i, t, q, k - 1);
    }
}

proof fn lemma_open_counts(tasks: Seq<TaskView>, q: int, i: int, k: int)
    requires
        0 <= i < k <= tasks.len(),
        tasks[i].parent == Some(q),
        tasks[i].stage != Stage::Finished,
    ensures
        open_below(tasks, q, k) >= 1,
    decreases k,
{
    if i < k - 1 {
        lemma_open_counts(tasks, q, i, k - 1);
    } else {
        lemma_open_positive(tasks, q, k - 1);
    }
}

proof fn lemma_open_positive(tasks: Seq<TaskView>, q: int, k: int)
    ensures
        open_below(tasks, q, k) >= 0,
    decreases k,
{
    if k > 0 {
        lemma_open_positive(tasks, q, k - 1);
    }
}

proof fn lemma_open_zero(tasks: Seq<TaskView>, q: int, k: int)
    requires
        0 <= k <= tasks.len(),
        forall|i: int| 0 <= i < k ==> (#[trigger] tasks[i]).parent != Some(q),
    ensures
        open_below(tasks, q, k) == 0,
    decreases k,
{
    if k > 0 {
        lemma_open_zero(tasks, q, k - 1);
    }
}

proof fn lemma_open_extends(a: Seq<TaskView>, b: Seq<TaskView>, q: int, k: int)
    requires
        0 <= k <= a.len(),
    ensures
        open_below(a + b, q, k) == open_below(a, q, k),
    decreases k,
{
    if k > 0 {
        lemma_open_extends(a, b, q, k - 1);
        assert((a + b)[k - 1] == a[k - 1]);
    }
}

/// Everything is settled but for directory `i`, below which nothing is open.
pub open spec fn settled_but(s: ScanView, i: int) -> bool {
    &&& shaped(s)
    &&& 0 <= i < s.tasks.len()
    &&& forall|q: int| 0 <= q < s.tasks.len() && q != i ==> #[trigger] settled(s, q)
    &&& open_below(s.tasks, i, s.tasks.len() as int) == 0
    &&& s.tasks[i].stage == Stage::Taken || s.tasks[i].stage == Stage::Waiting
    &&& s.root is None
    &&& s.tasks[0].stage != Stage::Finished
    &&& all_consistent(s)
}

/// The parent of a directory that is not done waits for it.
pub proof fn lemma_parent_waits(s: ScanView, i: int, p: int)
    requires
        settled_but(s, i),
        s.tasks[i].parent == Some(p),
    ensures
        0 <= p < i,
        s.tasks[p].stage == Stage::Waiting,
        s.tasks[p].pending >= 1,
        s.tasks[p].pending == open_below(s.tasks, p, s.tasks.len() as int),
{
    assert(s.tasks[i] == s.tasks[i]);
    lemma_open_counts(s.tasks, p, i, s.tasks.len() as int);
    assert(settled(s, p));
}

/// The step from a directory that is done to its parent.
pub open spec fn handed_up(s: ScanView, i: int, p: int) -> ScanView {
    ScanView {
        tasks: s.tasks.update(i, task_done(s.tasks[i])).update(
            p,
            task_with(s.tasks[p], task_node(s.tasks[i])),
        ),
        ..s
    }
}

/// Handing a node up keeps everything settled but for the parent.
pub proof fn lemma_handed_up(s: ScanView, i: int, p: int)
    requires
        settled_but(s, i),
        s.tasks[i].parent == Some(p),
        totals_fit(s.tasks[i].children),
    ensures
        ({
            let next = handed_up(s, i, p);
            if next.tasks[p].pending == 0 {
                settled_but(next, p)
            } else {
                shaped(next) && coherent(next)
            }
        }),
{
    lemma_parent_waits(s, i, p);
    let next = handed_up(s, i, p);
    let n = s.tasks.len() as int;
    let t = s.tasks[i];
    let mid = s.tasks.update(i, task_done(t));
    let up = task_with(s.tasks[p], task_node(t));
    assert forall|q: int| 0 <= q < n implies open_below(next.tasks, q, n) == #[trigger] open_below(
        s.tasks,
        q,
        n,
    ) - if q == p {
        1int
    } else {
        0int
    } by {
        lemma_open_update(s.tasks, i, task_done(t), q, n);
        lemma_open_update(mid, p, up, q, n);
    }
    assert forall|q: int| 0 <= q < n && q != p implies #[trigger] settled(next, q) by {
        assert(open_below(next.tasks, q, n) == open_below(s.tasks, q, n));
        if q != i {
            assert(settled(s, q));
        }
    }
    assert(open_below(next.tasks, p, n) == open_below(s.tasks, p, n) - 1);
    assert(shaped(next)) by {
        assert forall|j: int| #![trigger next.tasks[j]] 0 <= j < next.tasks.len() implies {
            &&& 0 <= next.tasks[j].depth <= j
            &&& match next.tasks[j].parent {
                Some(p) => 0 <= p < j,
                None => j == 0,
            }
        } by {
            assert(0 <= s.tasks[j].depth <= j);
        }
    }
    law_new_folder_is_consistent(
        t.name,
        t.color,
        t.children,
        t.modified_ft,
        t.created_ft,
        t.accessed_ft,
        t.attrs,
        0,
        false,
        Seq::empty(),
    );
    assert(all_consistent(next)) by {
        assert forall|j: int, k: int|
            0 <= j < next.tasks.len() && 0 <= k < next.tasks[j].children.len() implies consistent(
            #[trigger] next.tasks[j].children[k],
        ) by {
            if j == p {
                if k < s.tasks[p].children.len() {
                    assert(consistent(s.tasks[p].children[k]));
                }
            } else if j != i {
                assert(consistent(s.tasks[j].children[k]));
            }
        }
    }
    if up.pending != 0 {
        assert(settled(next, p));
    }
}

/// Finishing the root completes the walk.
pub proof fn lemma_root_done(s: ScanView)
    requires
        settled_but(s, 0),
        totals_fit(s.tasks[0].children),
    ensures
        ({
            let next = ScanView {
                tasks: s.tasks.update(0, task_done(s.tasks[0])),
                root: Some(task_node(s.tasks[0])),
                ..s
            };
            shaped(next) && coherent(next)
        }),
{
    let t = s.tasks[0];
    let next = ScanView {
        tasks: s.tasks.update(0, task_done(t)),
        root: Some(task_node(t)),
        ..s
    };
    let n = s.tasks.len() as int;
    assert(s.tasks[0].parent is None);
    assert forall|q: int| 0 <= q < n implies #[trigger] settled(next, q) by {
        lemma_open_update(s.tasks, 0, task_done(t), q, n);
        if q != 0 {
            assert(settled(s, q));
        }
    }
    assert(shaped(next)) by {
        assert forall|j: int| #![trigger next.tasks[j]] 0 <= j < next.tasks.len() implies {
            &&& 0 <= next.tasks[j].depth <= j
            &&& match next.tasks[j].parent {
                Some(p) => 0 <= p < j,
                None => j == 0,
            }
        } by {
            assert(0 <= s.tasks[j].depth <= j);
        }
    }
    law_new_folder_is_consistent(
        t.name,
        t.color,
        t.children,
        t.modified_ft,
        t.created_ft,
        t.accessed_ft,
        t.attrs,
        0,
        false,
        Seq::empty(),
    );
    assert(all_consistent(next)) by {
        assert forall|j: int, k: int|
            0 <= j < next.tasks.len() && 0 <= k < next.tasks[j].children.len() implies consistent(
            #[trigger] next.tasks[j].children[k],
        ) by {
            if j != 0 {
                assert(consistent(s.tasks[j].children[k]));
            }
        }
    }
}

/// A directory that is being read has nothing open below it.
pub proof fn lemma_taken_is_settled_but(s: ScanView, i: int)
    requires
        scan_wf(s),
        !s.failed,
        0 <= i < s.tasks.len(),
        s.tasks[i].stage == Stage::Taken,
    ensures
        settled_but(s, i),
{
    assert(settled(s, i));
    if s.tasks[0].stage == Stage::Finished {
        lemma_all_done_below(s, i);
    }
}

/// Where the root is done, everything is.
proof fn lemma_all_done_below(s: ScanView, i: int)
    requires
        shaped(s),
        coherent(s),
        s.tasks[0].stage == Stage::Finished,
        0 <= i < s.tasks.len(),
    ensures
        s.tasks[i].stage == Stage::Finished,
    decreases i,
{
    if i > 0 {
        assert(s.tasks[i].parent is Some);
        let p = s.tasks[i].parent->0;
        lemma_all_done_below(s, p);
        assert(settled(s, p));
        if s.tasks[i].stage != Stage::Finished {
            lemma_open_counts(s.tasks, p, i, s.tasks.len() as int);
        }
    }
}

proof fn lemma_unread_zero(tasks: Seq<TaskView>, i: int, k: int)
    requires
        0 <= i < k <= tasks.len(),
        unread(tasks, k) == 0,
    ensures
        tasks[i].stage != Stage::Queued && tasks[i].stage != Stage::Taken,
    decreases k,
{
    lemma_unread_positive(tasks, k - 1);
    if i < k - 1 {
        lemma_unread_zero(tasks, i, k - 1);
    }
}

proof fn lemma_unread_positive(tasks: Seq<TaskView>, k: int)
    ensures
        unread(tasks, k) >= 0,
    decreases k,
{
    if k > 0 {
        lemma_unread_positive(tasks, k - 1);
    }
}

proof fn lemma_all_finished(s: ScanView, i: int)
    requires
        shaped(s),
        coherent(s),
        unread(s.tasks, s.tasks.len() as int) == 0,
        0 <= i < s.tasks.len(),
    ensures
        s.tasks[i].stage == Stage::Finished,
    decreases s.tasks.len() - i,
{
    let n = s.tasks.len() as int;
    lemma_unread_zero(s.tasks, i, n);
    if s.tasks[i].stage == Stage::Waiting {
        assert(settled(s, i));
        assert(exists|j: int|
            i < j < n && #[trigger] s.tasks[j].parent == Some(i) && s.tasks[j].stage
                != Stage::Finished) by {
            lemma_open_witness(s, i, n);
        }
        let j = choose|j: int|
            i < j < n && #[trigger] s.tasks[j].parent == Some(i) && s.tasks[j].stage
                != Stage::Finished;
        lemma_all_finished(s, j);
    }
}

proof fn lemma_open_witness(s: ScanView, q: int, k: int)
    requires
        shaped(s),
        0 <= k <= s.tasks.len(),
        open_below(s.tasks, q, k) > 0,
    ensures
        exists|j: int|
            q < j < k && #[trigger] s.tasks[j].parent == Some(q) && s.tasks[j].stage
                != Stage::Finished,
    decreases k,
{
    let t = s.tasks[k - 1];
    if t.parent == Some(q) && t.stage != Stage::Finished {
        assert(s.tasks[k - 1].parent == Some(q));
    } else {
        lemma_open_witness(s, q, k - 1);
        let j = choose|j: int|
            q < j < k - 1 && #[trigger] s.tasks[j].parent == Some(q) && s.tasks[j].stage
                != Stage::Finished;
        assert(s.tasks[j].parent == Some(q));
    }
}

/// A walk that has not failed and has nothing left to read has made its tree, and the totals of
/// that tree are right.
pub proof fn law_walk_is_complete(s: ScanView)
    requires
        scan_wf(s),
        !s.failed,
        unread(s.tasks, s.tasks.len() as int) == 0,
    ensures
        s.root is Some,
        consistent(s.root->0),
{
    lemma_all_finished(s, 0);
}

proof fn lemma_unread_update(tasks: Seq<TaskView>, i: int, t: TaskView, k: int)
    requires
        0 <= i < tasks.len(),
        0 <= k <= tasks.len(),
    ensures
        unread(tasks.update(i, t), k) == unread(tasks, k) + if i < k {
            (if t.stage == Stage::Queued || t.stage == Stage::Taken {
                1int
            } else {
                0int
            }) - (if tasks[i].stage == Stage::Queued || tasks[i].stage == Stage::Taken {
                1int
            } else {
                0int
            })
        } else {
            0int
        },
    decreases k,
{
    if k > 0 {
        lemma_unread_update(tasks, i, t, k - 1);
    }
}

proof fn lemma_unread_extends(a: Seq<TaskView>, b: Seq<TaskView>, k: int)
    requires
        0 <= k <= a.len(),
    ensures
        unread(a + b, k) == unread(a, k),
    decreases k,
{
    if k > 0 {
        lemma_unread_extends(a, b, k - 1);
        assert((a + b)[k - 1] == a[k - 1]);
    }
}

/// Replacing a directory by one with the same stage, or by one that is not queued where it was
/// not, keeps the queue right.
proof fn lemma_queue_kept(s: ScanView, r: ScanView)
    requires
        queued_right(s),
        r.queue == s.queue,
        r.tasks.len() == s.tasks.len(),
        forall|j: int|
            0 <= j < s.tasks.len() ==> (s.tasks[j].stage == Stage::Queued <==> (
            #[trigger] r.tasks[j]).stage == Stage::Queued),
    ensures
        queued_right(r),
{
    assert forall|j: int| 0 <= j < r.tasks.len() implies (r.tasks[j].stage == Stage::Queued
        <==> #[trigger] r.queue.contains(j)) by {
        assert(s.queue.contains(j) == r.queue.contains(j));
        assert(r.tasks[j].stage == Stage::Queued <==> s.tasks[j].stage == Stage::Queued);
    }
}

/// Closing a directory keeps the walk right.
pub proof fn lemma_closed_up(s: ScanView, i: int)
    requires
        settled_but(s, i),
        !s.failed,
        queued_right(s),
    ensures
        scan_wf(closed_up(s, i)),
        closed_up(s, i).tasks.len() == s.tasks.len(),
        closed_up(s, i).queue == s.queue,
        closed_up(s, i).counter == s.counter,
        !closed_up(s, i).failed ==> unread(closed_up(s, i).tasks, s.tasks.len() as int) == unread(
            s.tasks,
            s.tasks.len() as int,
        ) - if s.tasks[i].stage == Stage::Taken {
            1int
        } else {
            0int
        },
    decreases i,
{
    let t = s.tasks[i];
    let n = s.tasks.len() as int;
    if totals_fit(t.children) {
        match t.parent {
            None => {
                assert(i == 0);
                lemma_root_done(s);
                lemma_unread_update(s.tasks, 0, task_done(t), n);
                lemma_queue_kept(s, closed_up(s, i));
            },
            Some(p) => {
                lemma_parent_waits(s, i, p);
                lemma_handed_up(s, i, p);
                let next = handed_up(s, i, p);
                let mid = s.tasks.update(i, task_done(t));
                lemma_unread_update(s.tasks, i, task_done(t), n);
                lemma_unread_update(mid, p, task_with(s.tasks[p], task_node(t)), n);
                lemma_queue_kept(s, next);
                if next.tasks[p].pending == 0 {
                    lemma_closed_up(next, p);
                }
            },
        }
    }
}

proof fn lemma_leaves_consistent(items: Seq<ItemView>, depth: int, seen: Set<u64>)
    ensures
        forall|k: int|
            0 <= k < leaves_of(items, depth, seen).len() ==> consistent(
                #[trigger] leaves_of(items, depth, seen)[k],
            ),
    decreases items.len(),
{
    if items.len() > 0 {
        lemma_leaves_consistent(items.drop_last(), depth, seen);
        let e = items.last().0;
        let before = seen_after_all(items.drop_last(), seen);
        if e.is_dir {
            let none = Seq::<NodeView>::empty();
            assert(totals_fit(none));
            law_new_folder_is_consistent(
                e.name,
                depth_color(depth + 1),
                none,
                e.modified_ft,
                e.created_ft,
                e.accessed_ft,
                e.attrs,
                items.last().1,
                false,
                Seq::empty(),
            );
        }
        assert(consistent(leaf_of(items.last(), depth, before)));
        let rest = leaves_of(items.drop_last(), depth, seen);
        let all = leaves_of(items, depth, seen);
        assert forall|k: int| 0 <= k < all.len() implies consistent(#[trigger] all[k]) by {
            if k < rest.len() {
                assert(all[k] == rest[k]);
            }
        }
    }
}

/// Taking entries in keeps everything settled but for the directory itself.
pub proof fn lemma_entries_in(s: ScanView, i: int, items: Seq<ItemView>)
    requires
        settled_but(s, i),
        !s.failed,
        queued_right(s),
        s.counter + items.len() <= u64::MAX,
    ensures
        settled_but(entries_in(s, i, items), i),
        queued_right(entries_in(s, i, items)),
        !entries_in(s, i, items).failed,
        unread(entries_in(s, i, items).tasks, s.tasks.len() as int) == unread(
            s.tasks,
            s.tasks.len() as int,
        ),
{
    let r = entries_in(s, i, items);
    let n = s.tasks.len() as int;
    let t = s.tasks[i];
    let leaves = leaves_of(items, t.depth, s.seen);
    assert forall|q: int| 0 <= q < n implies open_below(r.tasks, q, n) == #[trigger] open_below(
        s.tasks,
        q,
        n,
    ) by {
        lemma_open_update(s.tasks, i, r.tasks[i], q, n);
    }
    lemma_unread_update(s.tasks, i, r.tasks[i], n);
    assert forall|q: int| 0 <= q < n && q != i implies #[trigger] settled(r, q) by {
        assert(settled(s, q));
        assert(open_below(r.tasks, q, n) == open_below(s.tasks, q, n));
    }
    assert(open_below(r.tasks, i, n) == open_below(s.tasks, i, n));
    assert forall|j: int| #![trigger r.tasks[j]] 0 <= j < r.tasks.len() implies {
        &&& 0 <= r.tasks[j].depth <= j
        &&& match r.tasks[j].parent {
            Some(p) => 0 <= p < j,
            None => j == 0,
        }
    } by {
        assert(0 <= s.tasks[j].depth <= j);
    }
    lemma_leaves_consistent(items, t.depth, s.seen);
    assert forall|j: int, k: int|
        0 <= j < r.tasks.len() && 0 <= k < r.tasks[j].children.len() implies consistent(
        #[trigger] r.tasks[j].children[k],
    ) by {
        if j == i {
            if k < t.children.len() {
                assert(consistent(s.tasks[i].children[k]));
            } else {
                assert(consistent(leaves[k - t.children.len()]));
            }
        } else {
            assert(consistent(s.tasks[j].children[k]));
        }
    }
    lemma_queue_kept(s, r);
}

proof fn lemma_open_of_new(
    tasks: Seq<TaskView>,
    subs: Seq<DirEntryView>,
    i: int,
    depth: int,
    q: int,
    k: int,
)
    requires
        0 <= k <= subs.len(),
        0 <= i < tasks.len(),
    ensures
        open_below(tasks + tasks_of(subs, i, depth), q, tasks.len() + k) == open_below(
            tasks,
            q,
            tasks.len() as int,
        ) + if q == i {
            k
        } else {
            0
        },
        unread(tasks + tasks_of(subs, i, depth), tasks.len() + k) == unread(
            tasks,
            tasks.len() as int,
        ) + k,
    decreases k,
{
    let all = tasks + tasks_of(subs, i, depth);
    if k == 0 {
        lemma_open_extends(tasks, tasks_of(subs, i, depth), q, tasks.len() as int);
        lemma_unread_extends(tasks, tasks_of(subs, i, depth), tasks.len() as int);
    } else {
        lemma_open_of_new(tasks, subs, i, depth, q, k - 1);
        assert(all[tasks.len() + k - 1] == task_of(subs[k - 1], i, depth));
    }
}

/// Opening the directories below a directory keeps the walk right.
pub proof fn lemma_opened(s: ScanView, i: int, subs: Seq<DirEntryView>)
    requires
        settled_but(s, i),
        !s.failed,
        queued_right(s),
        s.tasks[i].stage == Stage::Taken,
        subs.len() > 0,
    ensures
        scan_wf(opened(s, i, subs)),
        !opened(s, i, subs).failed,
        unread(opened(s, i, subs).tasks, (s.tasks.len() + subs.len()) as int) == unread(
            s.tasks,
            s.tasks.len() as int,
        ) - 1 + subs.len(),
{
    let r = opened(s, i, subs);
    let n = s.tasks.len() as int;
    let m = subs.len() as int;
    let depth = s.tasks[i].depth + 1;
    let t = TaskView { stage: Stage::Waiting, pending: subs.len() as int, ..s.tasks[i] };
    let mid = s.tasks.update(i, t);
    let new = tasks_of(subs, i, depth);
    assert(r.tasks == mid + new);
    assert forall|q: int| 0 <= q < n + m implies #[trigger] settled(r, q) by {
        lemma_open_of_new(mid, subs, i, depth, q, m);
        if q < n {
            lemma_open_update(s.tasks, i, t, q, n);
            assert(r.tasks[q] == mid[q]);
            if q != i {
                assert(settled(s, q));
            }
        } else {
            assert(r.tasks[q] == new[q - n]);
            assert forall|j: int| 0 <= j < n implies (#[trigger] mid[j]).parent != Some(q) by {
                assert(s.tasks[j].parent == mid[j].parent);
            }
            lemma_open_zero(mid, q, n);
        }
    }
    lemma_open_of_new(mid, subs, i, depth, i, m);
    lemma_unread_update(s.tasks, i, t, n);
    assert(shaped(r)) by {
        assert forall|j: int| #![trigger r.tasks[j]] 0 <= j < r.tasks.len() implies {
            &&& 0 <= r.tasks[j].depth <= j
            &&& match r.tasks[j].parent {
                Some(p) => 0 <= p < j,
                None => j == 0,
            }
        } by {
            assert(0 <= s.tasks[i].depth <= i);
            if j < n {
                assert(r.tasks[j] == mid[j]);
                assert(0 <= s.tasks[j].depth <= j);
            } else {
                assert(r.tasks[j] == new[j - n]);
            }
        }
        assert forall|k: int| 0 <= k < r.queue.len() implies 0 <= #[trigger] r.queue[k]
            < r.tasks.len() by {
            if k < s.queue.len() {
                assert(r.queue[k] == s.queue[k]);
            }
        }
    }
    assert(all_consistent(r)) by {
        assert forall|j: int, k: int|
            0 <= j < r.tasks.len() && 0 <= k < r.tasks[j].children.len() implies consistent(
            #[trigger] r.tasks[j].children[k],
        ) by {
            if j < n {
                assert(r.tasks[j] == mid[j]);
                assert(consistent(s.tasks[j].children[k]));
            } else {
                assert(r.tasks[j] == new[j - n]);
            }
        }
    }
    assert(r.tasks[0] == mid[0]);
    assert(queued_right(r)) by {
        let more = Seq::new(subs.len(), |k: int| s.tasks.len() + k);
        assert(r.queue == s.queue + more);
        assert(r.queue.no_duplicates()) by {
            assert forall|a: int, b: int|
                0 <= a < r.queue.len() && 0 <= b < r.queue.len() && a != b implies r.queue[a]
                != r.queue[b] by {
                if a < s.queue.len() {
                    assert(r.queue[a] == s.queue[a] && s.queue[a] < n);
                }
                if b < s.queue.len() {
                    assert(r.queue[b] == s.queue[b] && s.queue[b] < n);
                }
            }
        }
        assert forall|j: int| 0 <= j < r.tasks.len() implies (r.tasks[j].stage == Stage::Queued
            <==> #[trigger] r.queue.contains(j)) by {
            if j < n {
                assert(r.tasks[j] == mid[j]);
                assert(s.queue.contains(j) == r.queue.contains(j)) by {
                    if s.queue.contains(j) {
                        let k = choose|k: int| 0 <= k < s.queue.len() && s.queue[k] == j;
                        assert(r.queue[k] == j);
                    }
                    if r.queue.contains(j) {
                        let k = choose|k: int| 0 <= k < r.queue.len() && r.queue[k] == j;
                        assert(k < s.queue.len());
                        assert(s.queue[k] == j);
                    }
                }
                assert(s.tasks[j].stage == Stage::Queued <==> s.queue.contains(j));
            } else {
                assert(r.tasks[j] == new[j - n]);
                assert(r.queue[s.queue.len() + (j - n)] == j);
            }
        }
    }
}

/// Every step keeps the walk right.
pub proof fn law_accepting_keeps_the_walk_right(s: ScanView, i: int, reply: ReplyView)
    requires
        scan_wf(s),
    ensures
        scan_wf(accepted(s, i, reply)),
{
    if !s.failed && 0 <= i < s.tasks.len() && s.tasks[i].stage == Stage::Taken {
        lemma_taken_is_settled_but(s, i);
        match reply {
            ReplyView::Failed => {},
            ReplyView::Unreadable => {
                lemma_closed_up(s, i);
            },
            ReplyView::Read(items) => {
                if s.counter + items.len() <= u64::MAX {
                    lemma_entries_in(s, i, items);
                    if subdirs_of(items).len() == 0 {
                        lemma_closed_up(entries_in(s, i, items), i);
                    } else {
                        lemma_opened(entries_in(s, i, items), i, subdirs_of(items));
                    }
                }
            },
        }
    }
}

/// No failure is lost: reading that broke off makes the walk fail, as does a root that cannot be
/// read, and a walk that has failed stays so.
pub proof fn law_failures_are_final(s: ScanView, i: int, reply: ReplyView)
    requires
        scan_wf(s),
    ensures
        s.failed ==> accepted(s, i, reply).failed,
        0 <= i < s.tasks.len() && s.tasks[i].stage == Stage::Taken && reply is Failed ==> accepted(
            s,
            i,
            reply,
        ).failed,
        s.tasks[0].stage == Stage::Taken && reply is Unreadable ==> accepted(s, 0, reply).failed,
{
}

/// A directory that is not done may change how far it is, as long as nothing waits on it.
pub proof fn lemma_stage_change(s: ScanView, i: int, t: TaskView)
    requires
        shaped(s),
        coherent(s),
        0 <= i < s.tasks.len(),
        s.tasks[i].stage == Stage::Queued,
        t == (TaskView { stage: Stage::Taken, ..s.tasks[i] }),
    ensures
        coherent(ScanView { tasks: s.tasks.update(i, t), queue: s.queue.skip(1), ..s }),
        unread(s.tasks.update(i, t), s.tasks.len() as int) == unread(
            s.tasks,
            s.tasks.len() as int,
        ),
{
    let r = ScanView { tasks: s.tasks.update(i, t), queue: s.queue.skip(1), ..s };
    let n = s.tasks.len() as int;
    lemma_unread_update(s.tasks, i, t, n);
    assert forall|q: int| 0 <= q < n implies #[trigger] settled(r, q) by {
        lemma_open_update(s.tasks, i, t, q, n);
        assert(settled(s, q));
    }
    assert forall|j: int, k: int|
        0 <= j < r.tasks.len() && 0 <= k < r.tasks[j].children.len() implies consistent(
        #[trigger] r.tasks[j].children[k],
    ) by {
        assert(consistent(s.tasks[j].children[k]));
    }
}

/// A walk with one directory that waits to be read is right.
pub proof fn lemma_single_task(s: ScanView)
    requires
        s.tasks.len() == 1,
        s.tasks[0].parent is None,
        s.tasks[0].depth == 0,
        s.tasks[0].children.len() == 0,
        s.tasks[0].stage == Stage::Queued,
        s.queue == seq![0int],
        s.root is None,
        s.counter == 0,
    ensures
        scan_wf(s),
        unread(s.tasks, 1) == 1,
{
    reveal_with_fuel(unread, 2);
    reveal_with_fuel(open_below, 2);
    assert(s.queue[0] == 0);
    assert(s.queue.contains(0));
    assert forall|i: int| 0 <= i < s.tasks.len() implies #[trigger] settled(s, i) by {
        assert(i == 0);
    }
}

/// A directory that is not read counts.
pub proof fn lemma_unread_counts(tasks: Seq<TaskView>, i: int, k: int)
    requires
        0 <= i < k <= tasks.len(),
        tasks[i].stage == Stage::Queued || tasks[i].stage == Stage::Taken,
    ensures
        unread(tasks, k) >= 1,
    decreases k,
{
    lemma_unread_positive(tasks, k - 1);
    if i < k - 1 {
        lemma_unread_counts(tasks, i, k - 1);
    }
}

} // verus!
