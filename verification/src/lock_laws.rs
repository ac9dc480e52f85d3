//! That a question who holds something open is answered for what was asked, and how a search
//! through a folder goes on.

use vstd::prelude::*;

use crate::file_ops::{LockerView, OccupancyView};
use crate::layered_probe::{
    advanced, files_found, folder_count, folders_held, has_pid, layer_checked, layer_listed, merged,
    probe_started, without_pid, without_service, EntryFound,
};
use crate::lock_check::{answered, requested, PanelView};
use crate::session::RequestView;

verus! {

/// A question about a file, or about a group of files, is asked about just these files, up to
/// two thousand of a group, and its answer is the answer to that question: what was found, or
/// what went wrong, with what had been said before and with how many files there are.
pub proof fn law_answer_belongs_to_its_question(
    p: PanelView,
    request: RequestView,
    feedback: Option<Seq<char>>,
    members: Seq<Seq<char>>,
    renamed: OccupancyView,
    found: Result<Seq<LockerView>, Seq<char>>,
)
    requires
        request.is_group ==> members.len() > 0,
        request.is_group || !request.is_folder,
    ensures
        ({
            let (q, ask) = requested(p, request, feedback, members, renamed);
            let r = answered(q, found);
            &&& ask is Some
            &&& !request.is_group ==> ask->0 == seq![request.full_path]
            &&& request.is_group ==> ask->0.is_prefix_of(members)
            &&& request.is_group && members.len() <= 2000 ==> ask->0 == members
            &&& request.is_group && members.len() > 2000 ==> ask->0.len() == 2000
            &&& q.result is Some && q.result->0.loading && q.result->0.request == request
            &&& q.pending is Some && q.probe is None
            &&& r.pending is None && r.probe is None
            &&& r.result is Some
            &&& r.result->0.request == request
            &&& r.result->0.action_feedback == feedback
            &&& !r.result->0.loading
            &&& r.result->0.rename_probe is None
            &&& r.result->0.checked_count == if request.is_group {
                members.len()
            } else {
                1
            }
            &&& r.result->0.truncated <==> request.is_group && members.len() >= 2000
            &&& found is Ok ==> r.result->0.procs == found->Ok_0 && r.result->0.error is None
            &&& found is Err ==> r.result->0.procs.len() == 0 && r.result->0.error == Some(
                found->Err_0,
            )
        }),
{
    let (q, ask) = requested(p, request, feedback, members, renamed);
    if request.is_group && members.len() <= 2000 {
        assert(members.take(members.len() as int) =~= members);
    }
}

/// A question about a folder is answered at once by whether it could be renamed, and one about a
/// group without files by an error. Nothing is asked then.
pub proof fn law_folder_is_answered_at_once(
    p: PanelView,
    request: RequestView,
    feedback: Option<Seq<char>>,
    members: Seq<Seq<char>>,
    renamed: OccupancyView,
)
    requires
        request.is_group && members.len() == 0 || !request.is_group && request.is_folder,
    ensures
        ({
            let (q, ask) = requested(p, request, feedback, members, renamed);
            &&& ask is None
            &&& q.pending == p.pending
            &&& q.probe is None
            &&& q.result is Some
            &&& q.result->0.request == request
            &&& q.result->0.action_feedback == feedback
            &&& !q.result->0.loading
            &&& q.result->0.procs.len() == 0
            &&& request.is_group <==> q.result->0.error is Some
            &&& !request.is_group ==> q.result->0.rename_probe == Some(renamed)
            &&& request.is_group ==> q.result->0.rename_probe is None
        }),
{
}

/// An answer that nobody waits for changes nothing.
pub proof fn law_late_answer_changes_nothing(
    p: PanelView,
    found: Result<Seq<LockerView>, Seq<char>>,
)
    requires
        p.pending is None,
    ensures
        answered(p, found) == p,
{
}

/// A search begins at the folder that was asked about, with no process found yet.
pub proof fn law_search_begins_at_the_folder(p: PanelView)
    requires
        p.result is Some,
        p.result->0.request.is_folder,
    ensures
        ({
            let (q, ask) = advanced(probe_started(p));
            &&& ask == Some(seq![p.result->0.request.full_path])
            &&& probe_started(p).probe is Some
            &&& probe_started(p).probe->0.procs.len() == 0
            &&& probe_started(p).probe->0.layer == 0
            &&& probe_started(p).result == p.result
            &&& probe_started(p).pending == p.pending
        }),
{
}

/// A search goes on where folders are left and no layer is being asked about, and only there.
/// Without folders it is over.
pub proof fn law_search_goes_on_while_folders_are_left(p: PanelView)
    requires
        p.probe is Some,
    ensures
        advanced(p).1 is Some <==> p.probe->0.pending is None && p.probe->0.frontier.len() > 0,
        advanced(p).1 is Some ==> advanced(p).1->0 == p.probe->0.frontier,
        advanced(p).0.probe is Some,
        advanced(p).0.probe->0.procs == p.probe->0.procs,
        p.probe->0.pending is None && p.probe->0.frontier.len() == 0
            ==> advanced(p).0.probe->0.exhausted,
{
}

proof fn lemma_files_found(v: Seq<EntryFound>, k: int, path: Seq<char>)
    requires
        0 <= k <= v.len(),
    ensures
        files_found(v, k).contains(path) <==> exists|i: int|
            0 <= i < k && #[trigger] v[i] == (EntryFound::File { path }),
        files_found(v, k).len() + folder_count(v, k) == k,
        folders_held(v, k).len() <= folder_count(v, k),
    decreases k,
{
    if k > 0 {
        lemma_files_found(v, k - 1, path);
        let all = files_found(v, k);
        let before = files_found(v, k - 1);
        if all.contains(path) {
            let j = choose|j: int| 0 <= j < all.len() && all[j] == path;
            if j < before.len() {
                assert(before[j] == path);
                assert(before.contains(path));
            } else {
                assert(v[k - 1] == (EntryFound::File { path }));
            }
        }
        if exists|i: int| 0 <= i < k && #[trigger] v[i] == (EntryFound::File { path }) {
            let i = choose|i: int| 0 <= i < k && #[trigger] v[i] == (EntryFound::File { path });
            if i < k - 1 {
                assert(before.contains(path));
                let j = choose|j: int| 0 <= j < before.len() && before[j] == path;
                assert(all[j] == path);
            } else {
                assert(all.last() == path);
                assert(all[all.len() - 1] == path);
            }
        }
    }
}

/// The files of a layer are all asked about, and nothing else is. A layer without files is over
/// at once. Every entry of a layer is a file or a folder that was tried.
pub proof fn law_files_of_a_layer_are_asked_about(p: PanelView, v: Seq<EntryFound>, path: Seq<char>)
    requires
        p.probe is Some,
        v.len() <= usize::MAX,
    ensures
        ({
            let (q, ask) = layer_listed(p, v);
            &&& ask is Some <==> exists|i: int| 0 <= i < v.len() && (#[trigger] v[i]) is File
            &&& ask is Some ==> (ask->0.contains(path) <==> exists|i: int|
                0 <= i < v.len() && #[trigger] v[i] == (EntryFound::File { path }))
            &&& q.probe is Some
            &&& q.probe->0.procs == p.probe->0.procs
            &&& q.probe->0.root_full_path == p.probe->0.root_full_path
            &&& ask is Some ==> q.probe->0.pending is Some && {
                let w = q.probe->0.pending->0;
                w.files_checked + w.subfolders_checked == v.len() && w.files_checked == ask->0.len()
                    && w.subfolders_locked <= w.subfolders_checked
            }
            &&& ask is None ==> q.probe->0.pending is None && q.probe->0.last_layer_stats is Some
        }),
{
    let n = v.len() as int;
    lemma_files_found(v, n, path);
    let files = files_found(v, n);
    if files.len() > 0 {
        lemma_files_found(v, n, files[0]);
        assert(files.contains(files[0]));
        let i = choose|i: int| 0 <= i < n && #[trigger] v[i] == (EntryFound::File { path: files[0] });
        assert(v[i] is File);
    }
    if exists|i: int| 0 <= i < v.len() && (#[trigger] v[i]) is File {
        let i = choose|i: int| 0 <= i < v.len() && (#[trigger] v[i]) is File;
        lemma_files_found(v, n, v[i]->File_path);
        assert(v[i] == (EntryFound::File { path: v[i]->File_path }));
        assert(files.contains(v[i]->File_path));
    }
}

proof fn lemma_merged(ps: Seq<LockerView>, found: Seq<LockerView>, k: int, pid: u32)
    requires
        0 <= k <= found.len(),
    ensures
        ps.is_prefix_of(merged(ps, found, k)),
        has_pid(merged(ps, found, k), pid) <==> has_pid(ps, pid) || exists|i: int|
            0 <= i < k && (#[trigger] found[i]).pid == pid,
    decreases k,
{
    if k > 0 {
        lemma_merged(ps, found, k - 1, pid);
        let before = merged(ps, found, k - 1);
        let all = merged(ps, found, k);
        assert(ps =~= all.take(ps.len() as int));
        if has_pid(before, pid) {
            let i = choose|i: int| 0 <= i < before.len() && (#[trigger] before[i]).pid == pid;
            assert(all[i].pid == pid);
        }
        if has_pid(all, pid) {
            let i = choose|i: int| 0 <= i < all.len() && (#[trigger] all[i]).pid == pid;
            if i < before.len() {
                assert(before[i].pid == pid);
            } else {
                assert(found[k - 1].pid == pid);
            }
        }
        if found[k - 1].pid == pid && !has_pid(before, pid) {
            assert(all[all.len() - 1].pid == pid);
        }
    } else {
        assert(ps =~= ps.take(ps.len() as int));
    }
}

/// When a layer was asked about, the processes that were known stay, those that were found come
/// behind them, and no others; and the search goes on with the folders of the layer.
pub proof fn law_layer_adds_its_processes(p: PanelView, found: Option<Seq<LockerView>>, pid: u32)
    requires
        p.probe is Some,
        p.probe->0.pending is Some,
    ensures
        ({
            let q = layer_checked(p, found).probe;
            let w = p.probe->0.pending->0;
            &&& q is Some
            &&& p.probe->0.procs.is_prefix_of(q->0.procs)
            &&& has_pid(q->0.procs, pid) <==> has_pid(p.probe->0.procs, pid) || found is Some
                && has_pid(found->0, pid)
            &&& q->0.frontier == w.next_frontier
            &&& q->0.exhausted <==> w.next_frontier.len() == 0
            &&& q->0.layer == w.layer
            &&& q->0.pending is None
            &&& q->0.last_layer_stats is Some
            &&& q->0.last_layer_stats->0.files_checked == w.files_checked
            &&& q->0.last_layer_stats->0.subfolders_checked == w.subfolders_checked
            &&& q->0.last_layer_stats->0.subfolders_locked == w.subfolders_locked
        }),
{
    let ps = p.probe->0.procs;
    match found {
        Some(f) => {
            lemma_merged(ps, f, f.len() as int, pid);
        },
        None => {
            assert(ps =~= ps.take(ps.len() as int));
        },
    }
}

/// A process that ended is forgotten, and all others stay in their order.
pub proof fn law_ended_process_is_forgotten(ps: Seq<LockerView>, pid: u32, k: int)
    requires
        0 <= k <= ps.len(),
    ensures
        without_pid(ps, pid, k) == ps.take(k).filter(|p: LockerView| p.pid != pid),
    decreases k,
{
    reveal(Seq::filter);
    if k > 0 {
        law_ended_process_is_forgotten(ps, pid, k - 1);
        assert(ps.take(k).drop_last() =~= ps.take(k - 1));
        assert(ps.take(k).last() == ps[k - 1]);
    } else {
        assert(ps.take(0) =~= Seq::<LockerView>::empty());
    }
}

/// The processes of a service that was stopped are forgotten, and all others stay in their order.
pub proof fn law_stopped_service_is_forgotten(ps: Seq<LockerView>, name: Seq<char>, k: int)
    requires
        0 <= k <= ps.len(),
    ensures
        without_service(ps, name, k) == ps.take(k).filter(
            |p: LockerView| p.service_name != Some(name),
        ),
    decreases k,
{
    reveal(Seq::filter);
    if k > 0 {
        law_stopped_service_is_forgotten(ps, name, k - 1);
        assert(ps.take(k).drop_last() =~= ps.take(k - 1));
        assert(ps.take(k).last() == ps[k - 1]);
    } else {
        assert(ps.take(0) =~= Seq::<LockerView>::empty());
    }
}

} // verus!
