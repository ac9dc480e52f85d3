//! The walk over a directory tree, step by step: it hands out directories to read, takes what
//! was read and puts the tree together.

use std::collections::hash_map::RandomState;
use std::collections::VecDeque;

use vstd::prelude::*;

use crate::dir_enum::{dir_entries_view, RawDirEntry};
use crate::model::{forest_view, totals_in_range, Node, NodeView};
use crate::scan::{
    dash_contents, depth_color, items_view, leaves_of, new_id_set, sort_items, DirItem, Sorted,
};
use crate::scan_model::{
    accepted, closed_up, entries_in, handed_up, law_walk_is_complete, lemma_closed_up,
    lemma_entries_in, lemma_handed_up, lemma_opened, lemma_parent_waits,
    lemma_taken_is_settled_but, opened, queued_right, scan_wf, settled_but, task_done, task_node,
    task_of, task_with, tasks_of, unread, ReplyView, ScanView, Stage, TaskView,
    PROGRESS_STEP_ENTRIES,
};
use crate::text::owned;
use crate::theme::{folder_color, Color32};

verus! {

/// A directory of the walk.
struct ScanTask {
    name: String,
    color: Color32,
    modified_ft: u64,
    created_ft: u64,
    accessed_ft: u64,
    attrs: u32,
    depth: usize,
    parent: Option<usize>,
    pending: usize,
    children: Vec<Node>,
    stage: Stage,
}

/// What a directory of the walk holds.
spec fn task_view(t: ScanTask) -> TaskView {
    TaskView {
        name: t.name@,
        color: t.color,
        modified_ft: t.modified_ft,
        created_ft: t.created_ft,
        accessed_ft: t.accessed_ft,
        attrs: t.attrs,
        depth: t.depth as int,
        parent: match t.parent {
            Some(p) => Some(p as int),
            None => None,
        },
        pending: t.pending as int,
        children: forest_view(t.children@),
        stage: t.stage,
    }
}

spec fn tasks_view(v: Seq<ScanTask>) -> Seq<TaskView> {
    Seq::new(v.len(), |i: int| task_view(v[i]))
}

spec fn queue_view(v: Seq<usize>) -> Seq<int> {
    Seq::new(v.len(), |i: int| v[i] as int)
}

spec fn root_view(r: Option<Node>) -> Option<NodeView> {
    match r {
        Some(n) => Some(n@),
        None => None,
    }
}

/// A walk over a directory tree.
pub struct Walk {
    tasks: Vec<ScanTask>,
    queue: VecDeque<usize>,
    seen: dashmap::DashSet<u64, RandomState>,
    root: Option<Node>,
    counter: u64,
    /// How many directories are not read yet.
    unread: usize,
    failed: bool,
}

impl View for Walk {
    type V = ScanView;

    closed spec fn view(&self) -> ScanView {
        ScanView {
            tasks: tasks_view(self.tasks@),
            queue: queue_view(self.queue@),
            seen: dash_contents(self.seen),
            root: root_view(self.root),
            counter: self.counter as int,
            failed: self.failed,
        }
    }
}

/// The directory that a walk starts with.
pub open spec fn root_task(name: Seq<char>, modified_ft: u64, attrs: u32) -> TaskView {
    TaskView {
        name,
        color: depth_color(0),
        modified_ft,
        created_ft: 0,
        accessed_ft: 0,
        attrs,
        depth: 0,
        parent: None,
        pending: 0,
        children: Seq::empty(),
        stage: Stage::Queued,
    }
}

/// A walk that has not begun.
pub open spec fn new_walk(name: Seq<char>, modified_ft: u64, attrs: u32) -> ScanView {
    ScanView {
        tasks: seq![root_task(name, modified_ft, attrs)],
        queue: seq![0int],
        seen: Set::empty(),
        root: None,
        counter: 0,
        failed: false,
    }
}

/// The walk with the first directory of the queue taken.
pub open spec fn taken(s: ScanView) -> ScanView {
    if s.queue.len() == 0 {
        s
    } else {
        let i = s.queue[0];
        ScanView {
            tasks: s.tasks.update(i, TaskView { stage: Stage::Taken, ..s.tasks[i] }),
            queue: s.queue.skip(1),
            ..s
        }
    }
}

/// What to report when a directory was read: how many entries were read before it, each time a
/// step is passed.
pub open spec fn progress_of(s: ScanView, i: int, reply: ReplyView) -> Option<u64> {
    match reply {
        ReplyView::Read(items) if !s.failed && 0 <= i < s.tasks.len() && s.tasks[i].stage == Stage::Taken
            && s.counter + items.len() <= u64::MAX && s.counter / (PROGRESS_STEP_ENTRIES as int)
            != (s.counter + items.len()) / (PROGRESS_STEP_ENTRIES as int) => Some(
            s.counter as u64,
        ),
        _ => None,
    }
}

/// What came of reading a directory.
pub enum DirReply {
    /// Its entries.
    Read(Vec<DirItem>),
    /// It could not be read.
    Unreadable,
    /// Reading it broke off.
    Failed,
}

impl View for DirReply {
    type V = ReplyView;

    open spec fn view(&self) -> ReplyView {
        match self {
            DirReply::Read(items) => ReplyView::Read(items_view(items@)),
            DirReply::Unreadable => ReplyView::Unreadable,
            DirReply::Failed => ReplyView::Failed,
        }
    }
}

/// Whether a directory is being read, as a number.
spec fn taken_now(s: ScanView, i: int) -> int {
    if s.tasks[i].stage == Stage::Taken {
        1
    } else {
        0
    }
}

proof fn lemma_taken(s: ScanView)
    requires
        scan_wf(s),
        s.queue.len() > 0,
    ensures
        scan_wf(taken(s)),
        !s.failed ==> unread(taken(s).tasks, s.tasks.len() as int) == unread(
            s.tasks,
            s.tasks.len() as int,
        ),
{
    let i = s.queue[0];
    let r = taken(s);
    let n = s.tasks.len() as int;
    assert(0 <= s.queue[0] < s.tasks.len());
    assert forall|j: int| #![trigger r.tasks[j]] 0 <= j < r.tasks.len() implies {
        &&& 0 <= r.tasks[j].depth <= j
        &&& match r.tasks[j].parent {
            Some(p) => 0 <= p < j,
            None => j == 0,
        }
    } by {
        assert(0 <= s.tasks[j].depth <= j);
    }
    assert forall|k: int| 0 <= k < r.queue.len() implies 0 <= #[trigger] r.queue[k]
        < r.tasks.len() by {
        assert(r.queue[k] == s.queue[k + 1]);
    }
    if !s.failed {
        assert(s.queue.contains(i));
        assert(s.tasks[i].stage == Stage::Queued);
        crate::scan_model::lemma_stage_change(s, i, r.tasks[i]);
        assert forall|j: int| 0 <= j < r.tasks.len() implies (r.tasks[j].stage == Stage::Queued
            <==> #[trigger] r.queue.contains(j)) by {
            assert(s.tasks[j].stage == Stage::Queued <==> s.queue.contains(j));
            if r.queue.contains(j) {
                let k = choose|k: int| 0 <= k < r.queue.len() && r.queue[k] == j;
                assert(s.queue[k + 1] == j);
                assert(j != i);
                assert(s.queue.contains(j));
            }
            if j != i && s.queue.contains(j) {
                let k = choose|k: int| 0 <= k < s.queue.len() && s.queue[k] == j;
                assert(k > 0);
                assert(r.queue[k - 1] == j);
            }
        }
        assert(r.queue.no_duplicates()) by {
            assert forall|a: int, b: int|
                0 <= a < r.queue.len() && 0 <= b < r.queue.len() && a != b implies r.queue[a]
                != r.queue[b] by {
                assert(r.queue[a] == s.queue[a + 1] && r.queue[b] == s.queue[b + 1]);
            }
        }
    }
}

impl Walk {
    /// The walk is right, and the directories that are not read are counted right.
    pub closed spec fn wf(&self) -> bool {
        &&& scan_wf(self@)
        &&& !self.failed ==> self.unread == unread(self@.tasks, self@.tasks.len() as int)
    }

    /// A walk that starts with the given directory.
    pub fn new(name: String, modified_ft: u64, attrs: u32) -> (r: Self)
        ensures
            r.wf(),
            r@ == new_walk(name@, modified_ft, attrs),
    {
        let mut tasks: Vec<ScanTask> = Vec::new();
        let none: Vec<Node> = Vec::new();
        tasks.push(
            ScanTask {
                name,
                color: folder_color(0),
                modified_ft,
                created_ft: 0,
                accessed_ft: 0,
                attrs,
                depth: 0,
                parent: None,
                pending: 0,
                children: none,
                stage: Stage::Queued,
            },
        );
        let mut queue: VecDeque<usize> = VecDeque::new();
        queue.push_back(0);
        let r = Walk {
            tasks,
            queue,
            seen: new_id_set(),
            root: None,
            counter: 0,
            unread: 1,
            failed: false,
        };
        proof {
            assert(task_view(r.tasks@[0]) =~= root_task(name@, modified_ft, attrs));
            assert(r@.tasks =~= seq![root_task(name@, modified_ft, attrs)]);
            assert(r@.queue =~= seq![0int]);
            crate::scan_model::lemma_single_task(r@);
        }
        r
    }

    /// Takes the next directory to read: its number and depth.
    pub fn next(&mut self) -> (r: Option<(usize, usize)>)
        requires
            old(self).wf(),
        ensures
            final(self).wf(),
            final(self)@ == taken(old(self)@),
            match r {
                Some((i, depth)) => old(self)@.queue.len() > 0 && i == old(self)@.queue[0] && i
                    < final(self)@.tasks.len() && depth == final(self)@.tasks[i as int].depth,
                None => old(self)@.queue.len() == 0,
            },
    {
        let ghost s = self@;
        match self.queue.pop_front() {
            Some(i) => {
                proof {
                    assert(s.queue[0] == i);
                    lemma_taken(s);
                }
                self.tasks[i].stage = Stage::Taken;
                let depth: usize = self.tasks[i].depth;
                proof {
                    assert(self@.tasks =~= taken(s).tasks);
                    assert(self@.queue =~= taken(s).queue);
                }
                Some((i, depth))
            },
            None => None,
        }
    }

    /// Whether the walk is over: it failed, or everything is read.
    pub fn is_over(&self) -> (r: bool)
        requires
            self.wf(),
        ensures
            r == (self@.failed || unread(self@.tasks, self@.tasks.len() as int) == 0),
    {
        self.failed || self.unread == 0
    }

    /// How many directories the walk knows.
    pub fn dir_count(&self) -> (n: usize)
        ensures
            n == self@.tasks.len(),
    {
        self.tasks.len()
    }

    /// The name of a directory.
    pub fn dir_name(&self, i: usize) -> (r: &str)
        requires
            i < self@.tasks.len(),
        ensures
            r@ == self@.tasks[i as int].name,
    {
        self.tasks[i].name.as_str()
    }

    fn close_up(&mut self, task: usize)
        requires
            settled_but(old(self)@, task as int),
            queued_right(old(self)@),
            !old(self)@.failed,
            old(self).unread == unread(old(self)@.tasks, old(self)@.tasks.len() as int) - taken_now(
                old(self)@,
                task as int,
            ),
        ensures
            final(self).wf(),
            final(self)@ == closed_up(old(self)@, task as int),
    {
        let ghost start = self@;
        proof {
            lemma_closed_up(start, task as int);
        }
        let mut cur: usize = task;
        loop
            invariant_except_break
                settled_but(self@, cur as int),
                !self@.failed,
                closed_up(self@, cur as int) == closed_up(start, task as int),
            invariant
                scan_wf(closed_up(start, task as int)),
                closed_up(start, task as int).tasks.len() == start.tasks.len(),
                !closed_up(start, task as int).failed ==> self.unread == unread(
                    closed_up(start, task as int).tasks,
                    start.tasks.len() as int,
                ),
            ensures
                self@ == closed_up(start, task as int),
            decreases cur,
        {
            let ghost s = self@;
            let i: usize = cur;
            assert(s.tasks[i as int] == task_view(self.tasks@[i as int]));
            if !totals_in_range(self.tasks[i].children.as_slice()) {
                self.failed = true;
                assert(self@.tasks =~= s.tasks);
                break;
            }
            let mut kids: Vec<Node> = Vec::new();
            let ghost own = self.tasks@[i as int];
            std::mem::swap(&mut kids, &mut self.tasks[i].children);
            let node = Node::new_folder_with_meta(
                owned(self.tasks[i].name.as_str()),
                self.tasks[i].color,
                kids,
                self.tasks[i].modified_ft,
                self.tasks[i].created_ft,
                self.tasks[i].accessed_ft,
                self.tasks[i].attrs,
                0,
                false,
                String::new(),
            );
            assert(node@ == task_node(s.tasks[i as int]));
            self.tasks[i].stage = Stage::Finished;
            proof {
                assert(task_view(self.tasks@[i as int]) =~= task_done(s.tasks[i as int]));
                assert(tasks_view(self.tasks@) =~= s.tasks.update(
                    i as int,
                    task_done(s.tasks[i as int]),
                ));
            }
            match self.tasks[i].parent {
                None => {
                    self.root = Some(node);
                    assert(self@ =~= closed_up(s, i as int));
                    break;
                },
                Some(p) => {
                    proof {
                        lemma_parent_waits(s, i as int, p as int);
                        lemma_handed_up(s, i as int, p as int);
                        assert(s.tasks[p as int] == task_view(self.tasks@[p as int]));
                    }
                    let ghost above = self.tasks@[p as int];
                    self.tasks[p].children.push(node);
                    self.tasks[p].pending = self.tasks[p].pending - 1;
                    proof {
                        assert(forest_view(self.tasks@[p as int].children@) =~= forest_view(
                            above.children@,
                        ).push(node@));
                        assert(task_view(self.tasks@[p as int]) =~= task_with(
                            s.tasks[p as int],
                            task_node(s.tasks[i as int]),
                        ));
                        assert(self@.tasks =~= handed_up(s, i as int, p as int).tasks);
                        assert(self@ =~= handed_up(s, i as int, p as int));
                    }
                    if self.tasks[p].pending != 0 {
                        break;
                    }
                    cur = p;
                },
            }
        }
    }

    fn open_dirs(&mut self, task: usize, subs: Vec<RawDirEntry>)
        requires
            settled_but(old(self)@, task as int),
            queued_right(old(self)@),
            !old(self)@.failed,
            old(self)@.tasks[task as int].stage == Stage::Taken,
            old(self).unread == unread(old(self)@.tasks, old(self)@.tasks.len() as int) - 1,
            subs@.len() > 0,
        ensures
            final(self)@ == opened(old(self)@, task as int, dir_entries_view(subs@)),
            final(self).unread == old(self).unread + subs@.len(),
    {
        let ghost start = self@;
        let ghost sv = dir_entries_view(subs@);
        let n: usize = subs.len();
        let depth: usize = self.tasks[task].depth;
        let base: usize = self.tasks.len();
        proof {
            assert(start.tasks[task as int] == task_view(self.tasks@[task as int]));
            assert(0 <= start.tasks[task as int].depth <= task);
        }
        self.tasks[task].stage = Stage::Waiting;
        self.tasks[task].pending = n;
        let ghost t = TaskView {
            stage: Stage::Waiting,
            pending: n as int,
            ..start.tasks[task as int]
        };
        proof {
            assert(task_view(self.tasks@[task as int]) =~= t);
            assert(tasks_view(self.tasks@) =~= start.tasks.update(task as int, t));
        }
        let ghost mid = tasks_view(self.tasks@);
        let mut rest = reversed(subs);
        let ghost mut k: int = 0;
        let color: Color32 = folder_color(depth + 1);
        assert(mid + tasks_of(sv.take(0), task as int, depth + 1) =~= mid);
        assert(start.queue + Seq::new(0, |k: int| base + k) =~= start.queue);
        while rest.len() > 0
            invariant
                0 <= k <= n,
                k + rest@.len() == n,
                n == sv.len(),
                base == start.tasks.len(),
                mid.len() == base,
                task < base,
                self.tasks@.len() == base + k,
                depth < usize::MAX,
                color == depth_color(depth + 1),
                forall|j: int| 0 <= j < rest@.len() ==> (#[trigger] rest@[j])@ == sv[n - 1 - j],
                tasks_view(self.tasks@) == mid + tasks_of(sv.take(k), task as int, depth + 1),
                self@.queue == start.queue + Seq::new(k as nat, |k: int| base + k),
                self@.seen == start.seen,
                self@.root == start.root,
                self@.counter == start.counter,
                self@.failed == start.failed,
                self.unread == old(self).unread,
            decreases rest@.len(),
        {
            let ghost before = self.tasks@;
            let ghost q = self@.queue;
            match rest.pop() {
                Some(e) => {
                    let id: usize = self.tasks.len();
                    let none: Vec<Node> = Vec::new();
                    let new = ScanTask {
                        name: e.name,
                        color,
                        modified_ft: e.modified_ft,
                        created_ft: e.created_ft,
                        accessed_ft: e.accessed_ft,
                        attrs: e.attrs,
                        depth: depth + 1,
                        parent: Some(task),
                        pending: 0,
                        children: none,
                        stage: Stage::Queued,
                    };
                    self.tasks.push(new);
                    self.queue.push_back(id);
                    proof {
                        assert(e@ == sv[k]);
                        assert(forest_view(none@) =~= Seq::<NodeView>::empty());
                        assert(task_view(new) =~= task_of(sv[k], task as int, depth + 1));
                        assert(tasks_view(self.tasks@) =~= tasks_view(before).push(
                            task_view(new),
                        ));
                        assert(mid + tasks_of(sv.take(k + 1), task as int, depth + 1) =~= (mid
                            + tasks_of(sv.take(k), task as int, depth + 1)).push(task_view(new)));
                        assert(self@.queue =~= q.push(id as int));
                        assert(start.queue + Seq::new((k + 1) as nat, |k: int| base + k) =~= (
                        start.queue + Seq::new(k as nat, |k: int| base + k)).push(base + k));
                        k = k + 1;
                    }
                },
                None => {},
            }
        }
        let total: usize = self.tasks.len();
        proof {
            assert(sv.take(k) =~= sv);
            assert(total == base + n);
            assert(self@ =~= opened(start, task as int, sv));
            lemma_opened(start, task as int, sv);
            lemma_unread_bounded(tasks_view(self.tasks@), (base + n) as int);
        }
        self.unread = self.unread + n;
        assert(self@ =~= opened(start, task as int, sv));
    }

    /// Takes what came of a directory that is being read. Gives the progress to report.
    pub fn accept(&mut self, task: usize, reply: DirReply) -> (progress: Option<u64>)
        requires
            old(self).wf(),
        ensures
            final(self).wf(),
            final(self)@ == accepted(old(self)@, task as int, reply@),
            progress == progress_of(old(self)@, task as int, reply@),
    {
        let ghost s = self@;
        if self.failed || task >= self.tasks.len() || self.tasks[task].stage != Stage::Taken {
            return None;
        }
        assert(s.tasks[task as int] == task_view(self.tasks@[task as int]));
        proof {
            lemma_taken_is_settled_but(s, task as int);
            crate::scan_model::lemma_unread_counts(s.tasks, task as int, s.tasks.len() as int);
        }
        match reply {
            DirReply::Failed => {
                self.failed = true;
                assert(self@ =~= (ScanView { failed: true, ..s }));
                None
            },
            DirReply::Unreadable => {
                if self.tasks[task].parent.is_none() {
                    self.failed = true;
                    assert(self@ =~= (ScanView { failed: true, ..s }));
                    return None;
                }
                self.unread = self.unread - 1;
                assert(self@ =~= s);
                self.close_up(task);
                None
            },
            DirReply::Read(items) => {
                let ghost iv = items_view(items@);
                let n: u64 = items.len() as u64;
                if n > u64::MAX - self.counter {
                    self.failed = true;
                    assert(self@ =~= (ScanView { failed: true, ..s }));
                    return None;
                }
                let before: u64 = self.counter;
                let after: u64 = before + n;
                let progress = if before / PROGRESS_STEP_ENTRIES != after / PROGRESS_STEP_ENTRIES {
                    Some(before)
                } else {
                    None
                };
                self.counter = after;
                let depth: usize = self.tasks[task].depth;
                assert(0 <= s.tasks[task as int].depth <= task);
                let sorted = sort_items(items, depth, &mut self.seen);
                let Sorted { leaves, subdirs } = sorted;
                let ghost own = self.tasks@[task as int];
                let mut leaves = leaves;
                self.tasks[task].children.append(&mut leaves);
                self.unread = self.unread - 1;
                proof {
                    let lv = leaves_of(iv, depth as int, s.seen);
                    assert(forest_view(self.tasks@[task as int].children@) =~= forest_view(
                        own.children@,
                    ) + lv);
                    assert(task_view(self.tasks@[task as int])
                        =~= entries_in(s, task as int, iv).tasks[task as int]);
                    assert(self@.tasks =~= entries_in(s, task as int, iv).tasks);
                    assert(self@ =~= entries_in(s, task as int, iv));
                    lemma_entries_in(s, task as int, iv);
                    assert(dir_entries_view(subdirs@).len() == subdirs@.len());
                }
                if subdirs.len() == 0 {
                    self.close_up(task);
                } else {
                    let ghost mid = self@;
                    proof {
                        lemma_opened(mid, task as int, dir_entries_view(subdirs@));
                    }
                    self.open_dirs(task, subdirs);
                }
                progress
            },
        }
    }

    /// The tree, once the walk is over. A walk that failed, or is not over, gives an error.
    pub fn finish(self) -> (r: Result<Node, String>)
        requires
            self.wf(),
        ensures
            match r {
                Ok(n) => !self@.failed && self@.root == Some(n@),
                Err(e) => (self@.failed || self@.root is None) && e@
                    == "扫描过程中发生内部错误（部分目录未能处理，已记录日志）"@,
            },
            !self@.failed && unread(self@.tasks, self@.tasks.len() as int) == 0 ==> r is Ok,
    {
        proof {
            if !self@.failed && unread(self@.tasks, self@.tasks.len() as int) == 0 {
                law_walk_is_complete(self@);
            }
        }
        if self.failed {
            return Err(owned("扫描过程中发生内部错误（部分目录未能处理，已记录日志）"));
        }
        match self.root {
            Some(n) => Ok(n),
            None => Err(owned("扫描过程中发生内部错误（部分目录未能处理，已记录日志）")),
        }
    }
}

fn reversed(v: Vec<RawDirEntry>) -> (r: Vec<RawDirEntry>)
    ensures
        r@.len() == v@.len(),
        forall|k: int| 0 <= k < r@.len() ==> #[trigger] r@[k] == v@[v@.len() - 1 - k],
{
    let ghost all = v@;
    let mut v = v;
    let mut r: Vec<RawDirEntry> = Vec::new();
    while v.len() > 0
        invariant
            r@.len() + v@.len() == all.len(),
            forall|k: int| 0 <= k < v@.len() ==> #[trigger] v@[k] == all[k],
            forall|k: int| 0 <= k < r@.len() ==> #[trigger] r@[k] == all[all.len() - 1 - k],
        decreases v@.len(),
    {
        if let Some(x) = v.pop() {
            r.push(x);
        }
    }
    r
}

proof fn lemma_unread_bounded(tasks: Seq<TaskView>, k: int)
    requires
        0 <= k,
    ensures
        unread(tasks, k) <= k,
    decreases k,
{
    if k > 0 {
        lemma_unread_bounded(tasks, k - 1);
    }
}

} // verus!
