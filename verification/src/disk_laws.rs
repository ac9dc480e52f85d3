//! What the steps that touch the disk, processes and services come to.

use vstd::prelude::*;

use crate::bytes::utf16_lossy;
use crate::file_ops::{
    delete_outcome, extended_path, kill_step, link_step, lock_step, locker_of, registered_paths,
    rename_step, service_step, symlink_node, temp_name, CallReply, KillFacts, KillStepView,
    LinkStepView, LockFacts, LockStepView, OccupancyView, RawProcess, RenameFacts, RenameStepView,
    ServiceFacts, ServiceStepView, ShellReply,
};
use crate::model::{NodeKind, NodeView};
use crate::text::trim_end;
use crate::text_laws::law_trim_end_takes_the_end;

verus! {

/// A path is deleted just where it is not empty and the shell says that it did so and was not
/// stopped. The shell is asked where it did not answer yet, but not for an empty path.
pub proof fn law_deleting_is_what_the_shell_did(path: Seq<char>, reply: Option<ShellReply>)
    ensures
        delete_outcome(path, reply) == Some(Ok::<(), Seq<char>>(())) <==> path.len() > 0 && reply
            == Some(ShellReply::Done { code: 0, aborted: false }),
        delete_outcome(path, reply) is None <==> path.len() > 0 && reply is None,
{
}

/// A link is asked for first with the flag that needs no special rights, bit 1, and again without
/// it where the system does not know the flag, error 87. Bit 0 is set for a directory. The link
/// is made just where one of the two calls made it.
pub proof fn law_link_is_asked_for_twice_at_most(
    is_dir: bool,
    first: Option<CallReply>,
    second: Option<CallReply>,
)
    ensures
        first is None ==> link_step(is_dir, first, second) is Call,
        first == Some(CallReply::Failed(87)) && second is None ==> link_step(
            is_dir,
            first,
            second,
        ) is Call,
        link_step(is_dir, first, second) is Call ==> {
            let flags = link_step(is_dir, first, second)->Call_0;
            &&& first is None || first == Some(CallReply::Failed(87)) && second is None
            &&& flags / 2 == if first is None {
                1int
            } else {
                0int
            }
            &&& flags % 2 == if is_dir {
                1int
            } else {
                0int
            }
        },
        link_step(is_dir, first, second) == LinkStepView::Done(Ok(())) <==> first == Some(
            CallReply::Succeeded,
        ) || first == Some(CallReply::Failed(87)) && second == Some(CallReply::Succeeded),
{
}

/// The long form of a path is the path behind `\\?\`; that of a path on another machine has `UNC\`
/// in place of its two backslashes; and a path in the long form stays.
pub proof fn law_long_form_keeps_the_path(path: Seq<char>, rest: Seq<char>)
    ensures
        extended_path(seq!['\\', '\\', '?', '\\'] + rest) == seq!['\\', '\\', '?', '\\'] + rest,
        path.len() < 2 || path[0] != '\\' || path[1] != '\\' ==> extended_path(path) == seq![
            '\\',
            '\\',
            '?',
            '\\',
        ] + path,
        rest.len() > 0 && rest[0] != '?' && rest[0] != '\\' ==> extended_path(
            seq!['\\', '\\'] + rest,
        ) == seq!['\\', '\\', '?', '\\', 'U', 'N', 'C', '\\'] + rest,
{
    reveal_strlit("\\\\?\\");
    reveal_strlit("\\\\");
    reveal_strlit("\\\\?\\UNC\\");
    let long = seq!['\\', '\\', '?', '\\'];
    assert("\\\\?\\"@ =~= long);
    assert("\\\\"@ =~= seq!['\\', '\\']);
    assert("\\\\?\\UNC\\"@ =~= seq!['\\', '\\', '?', '\\', 'U', 'N', 'C', '\\']);
    assert(long =~= (long + rest).take(4));
    if "\\\\"@.is_prefix_of(path) {
        assert(path.take(2)[0] == path[0] && path.take(2)[1] == path[1]);
        assert("\\\\"@[0] == '\\' && "\\\\"@[1] == '\\');
    }
    if "\\\\?\\"@.is_prefix_of(path) {
        assert(path.take(4)[0] == path[0] && path.take(4)[1] == path[1]);
    }
    if rest.len() > 0 && rest[0] != '?' && rest[0] != '\\' {
        let p = seq!['\\', '\\'] + rest;
        assert(p.take(2) =~= seq!['\\', '\\']);
        if long.is_prefix_of(p) {
            assert(p.take(4)[2] == p[2]);
            assert(p[2] == rest[0]);
        }
        assert(p.skip(2) =~= rest);
    }
}

/// Every path that is not empty is named to the system, in its long form and in the order of the
/// paths, and nothing else is.
pub proof fn law_all_paths_are_named(paths: Seq<&str>, path: Seq<char>)
    ensures
        registered_paths(paths).len() <= paths.len(),
        registered_paths(paths).contains(path) <==> exists|i: int|
            0 <= i < paths.len() && (#[trigger] paths[i])@.len() > 0 && extended_path(paths[i]@)
                == path,
        (forall|i: int| 0 <= i < paths.len() ==> (#[trigger] paths[i])@.len() > 0)
            ==> registered_paths(paths).len() == paths.len() && forall|i: int|
            0 <= i < paths.len() ==> #[trigger] registered_paths(paths)[i] == extended_path(
                paths[i]@,
            ),
    decreases paths.len(),
{
    if paths.len() > 0 {
        let front = paths.drop_last();
        law_all_paths_are_named(front, path);
        let all = registered_paths(paths);
        let rest = registered_paths(front);
        if all.contains(path) {
            let k = choose|k: int| 0 <= k < all.len() && all[k] == path;
            if k < rest.len() {
                assert(rest[k] == path);
                assert(rest.contains(path));
                let i = choose|i: int|
                    0 <= i < front.len() && (#[trigger] front[i])@.len() > 0 && extended_path(
                        front[i]@,
                    ) == path;
                assert(paths[i] == front[i]);
            } else {
                assert(paths[paths.len() - 1]@.len() > 0);
            }
        }
        if exists|i: int|
            0 <= i < paths.len() && (#[trigger] paths[i])@.len() > 0 && extended_path(paths[i]@)
                == path {
            let i = choose|i: int|
                0 <= i < paths.len() && (#[trigger] paths[i])@.len() > 0 && extended_path(paths[i]@)
                    == path;
            if i < front.len() {
                assert(front[i] == paths[i]);
                assert(rest.contains(path));
                let k = choose|k: int| 0 <= k < rest.len() && rest[k] == path;
                assert(all[k] == path);
            } else {
                assert(all.last() == path);
                assert(all[all.len() - 1] == path);
            }
        }
        if forall|i: int| 0 <= i < paths.len() ==> (#[trigger] paths[i])@.len() > 0 {
            assert forall|i: int| 0 <= i < front.len() implies (#[trigger] front[i])@.len() > 0 by {
                assert(paths[i] == front[i]);
            }
            assert(paths[paths.len() - 1]@.len() > 0);
            assert forall|i: int| 0 <= i < paths.len() implies #[trigger] all[i] == extended_path(
                paths[i]@,
            ) by {
                if i < front.len() {
                    assert(all[i] == rest[i]);
                    assert(front[i] == paths[i]);
                }
            }
        }
    }
}

/// Whether a name is what the system gives, without the zeros behind it.
pub open spec fn is_system_name(name: Seq<char>, u: Seq<u16>) -> bool {
    &&& name.is_prefix_of(utf16_lossy(u))
    &&& name.len() > 0 ==> name.last() != '\0'
    &&& forall|i: int|
        name.len() <= i < utf16_lossy(u).len() ==> #[trigger] utf16_lossy(u)[i] == '\0'
}

/// A process that the system speaks of keeps its number and its names. One without a service has
/// none, and one without a name is called by its number.
pub proof fn law_process_keeps_its_names(p: RawProcess)
    ensures
        locker_of(p).pid == p.pid,
        is_system_name(locker_of(p).app_name, p.app_name@) || is_system_name(
            Seq::empty(),
            p.app_name@,
        ),
        locker_of(p).app_name.len() > 0,
        locker_of(p).service_name is None <==> is_system_name(Seq::empty(), p.service_name@),
        locker_of(p).service_name is Some ==> is_system_name(
            locker_of(p).service_name->0,
            p.service_name@,
        ),
{
    reveal_strlit("(PID ");
    law_trim_end_takes_the_end(utf16_lossy(p.app_name@), '\0');
    law_trim_end_takes_the_end(utf16_lossy(p.service_name@), '\0');
    lemma_no_name(p.app_name@);
    lemma_no_name(p.service_name@);
}

proof fn lemma_no_name(u: Seq<u16>)
    ensures
        trim_end(utf16_lossy(u), '\0').len() == 0 <==> is_system_name(Seq::empty(), u),
{
    let t = utf16_lossy(u);
    law_trim_end_takes_the_end(t, '\0');
    assert(Seq::<char>::empty() =~= t.take(0));
    let n = trim_end(t, '\0').len();
    if n > 0 {
        assert(trim_end(t, '\0')[n - 1] == t[n - 1]);
    }
}

/// Who holds files is asked in order: a session is started, the files are named, the number of
/// processes is asked for, and then the processes, as many as there are. Each question is asked
/// once, after those before it went well; an error of the last two kinds ends it.
pub proof fn law_holders_are_asked_for_in_order(paths: Seq<&str>, f: LockFacts)
    requires
        exists|i: int| 0 <= i < paths.len() && (#[trigger] paths[i])@.len() > 0,
    ensures
        f.started is None <==> lock_step(paths, f) is StartSession,
        f.started == Some(0u32) && f.registered is None <==> lock_step(paths, f) is Register,
        lock_step(paths, f) is Register ==> lock_step(paths, f)->Register_0 == registered_paths(
            paths,
        ),
        f.started == Some(0u32) && f.registered == Some(0u32) && f.probed is None <==> lock_step(
            paths,
            f,
        ) is Probe,
        f.started == Some(0u32) && f.registered == Some(0u32) && f.probed is Some ==> {
            let (code, needed) = f.probed->0;
            &&& code != 0 && code != 234 ==> lock_step(paths, f) is Done && lock_step(
                paths,
                f,
            )->Done_0 is Err
            &&& (code == 0 || code == 234) && needed == 0 ==> lock_step(paths, f)
                == LockStepView::Done(Ok(Seq::empty()))
            &&& (code == 0 || code == 234) && needed > 0 && f.listed is None ==> lock_step(paths, f)
                == LockStepView::List(needed)
            &&& (code == 0 || code == 234) && needed > 0 && f.listed is Some && (f.listed->0).0 == 0
                ==> {
                let raw = (f.listed->0).1@;
                &&& lock_step(paths, f) is Done
                &&& lock_step(paths, f)->Done_0 is Ok
                &&& lock_step(paths, f)->Done_0->Ok_0.len() == raw.len()
                &&& forall|i: int|
                    0 <= i < raw.len() ==> (#[trigger] lock_step(paths, f)->Done_0->Ok_0[i]).pid
                        == raw[i].pid
            }
            &&& (code == 0 || code == 234) && needed > 0 && f.listed is Some && (f.listed->0).0 != 0
                ==> lock_step(paths, f) is Done && lock_step(paths, f)->Done_0 is Err
        },
        f.started is Some && f.started != Some(0u32) || f.registered is Some && f.registered != Some(
            0u32,
        ) && f.started == Some(0u32) ==> lock_step(paths, f) is Done && lock_step(
            paths,
            f,
        )->Done_0 is Err,
{
    let i = choose|i: int| 0 <= i < paths.len() && (#[trigger] paths[i])@.len() > 0;
    law_all_paths_are_named(paths, extended_path(paths[i]@));
    assert(registered_paths(paths).contains(extended_path(paths[i]@)));
    assert(registered_paths(paths).len() > 0);
}

/// Nothing is asked where there is nothing to ask about.
pub proof fn law_no_paths_have_no_holders(paths: Seq<&str>, f: LockFacts)
    requires
        paths.len() == 0,
    ensures
        lock_step(paths, f) == LockStepView::Done(Ok(Seq::empty())),
{
}

/// A folder is taken for held just where renaming it failed with error 32 or 33, and for free just
/// where it was renamed and got its name back. The other name begins with its own, and differs.
pub proof fn law_folder_is_tried_by_its_name(f: RenameFacts)
    requires
        f.supported,
        f.has_parent,
        f.file_name is Some,
    ensures
        f.renamed is None <==> rename_step(f) is Rename,
        rename_step(f) is Rename ==> {
            let other = rename_step(f)->Rename_0;
            let name = f.file_name->0@;
            name.is_prefix_of(other) && other.len() > name.len()
        },
        rename_step(f) == RenameStepView::Done(OccupancyView::Locked) <==> f.renamed is Some
            && f.renamed->0 is Err && (f.renamed->0->Err_0.code == Some(32i32)
            || f.renamed->0->Err_0.code == Some(33i32)),
        rename_step(f) == RenameStepView::Done(OccupancyView::Free) <==> f.renamed is Some
            && f.renamed->0 is Ok && f.renamed_back is Some && f.renamed_back->0 is Ok,
{
    reveal_strlit(".diskforge_lockcheck_");
    let name = f.file_name->0@;
    let other = temp_name(name, f.nonce);
    assert(name =~= other.take(name.len() as int));
}

/// A link in place of a node has the node's times, colour and owner, nothing below it, the mark
/// and the tag of a symbolic link, and the mark of a directory where it is one. Where the node
/// carried a path, the link carries its own.
pub proof fn law_link_takes_the_place_of_its_node(
    path: Seq<char>,
    name: Seq<char>,
    is_dir: bool,
    old: NodeView,
    size: u64,
)
    ensures
        ({
            let n = symlink_node(path, name, is_dir, old, size);
            &&& n.name == name
            &&& n.kind == if is_dir {
                NodeKind::Folder
            } else {
                NodeKind::File
            }
            &&& n.children.len() == 0
            &&& n.created_ft == old.created_ft
            &&& n.accessed_ft == old.accessed_ft
            &&& n.modified_ft == old.modified_ft
            &&& n.color == old.color
            &&& n.owner == old.owner
            &&& n.reparse_tag == 0xA000_000C
            &&& n.attributes == if is_dir {
                0x410u32
            } else {
                0x400u32
            }
            &&& !is_dir ==> n.logical_size == size && n.physical_size == size
            &&& is_dir ==> n.logical_size == 0 && n.physical_size == 0
            &&& n.file_count == 0 && n.folder_count == 0
            &&& old.full_path_override is Some ==> n.full_path_override == Some(path)
            &&& old.full_path_override is None ==> n.full_path_override is None
        }),
{
    let lt = |a: NodeView, b: NodeView| crate::model::child_before(a, b);
    assert(crate::sorting::stable_sort(Seq::<NodeView>::empty(), lt) =~= Seq::<NodeView>::empty());
}

/// A process is opened and then ended, and it has ended just where both went well. There is no
/// process with number 0.
pub proof fn law_process_is_opened_and_ended(pid: u32, f: KillFacts)
    requires
        f.supported,
    ensures
        kill_step(pid, f) is Open <==> pid != 0 && f.opened is None,
        kill_step(pid, f) is End <==> pid != 0 && f.opened is Some && f.opened->0 is Ok
            && f.ended is None,
        kill_step(pid, f) == KillStepView::Done(Ok(())) <==> pid != 0 && f.opened is Some
            && f.opened->0 is Ok && f.ended is Some && f.ended->0 is Ok,
{
}

/// A service is stopped through the manager of services: the manager is opened, then the
/// service, and then it is told to stop. It has been told just where all three went well.
pub proof fn law_service_is_opened_and_stopped(name: Seq<char>, f: ServiceFacts)
    requires
        f.supported,
    ensures
        service_step(name, f) is OpenManager <==> name.len() > 0 && f.manager is None,
        service_step(name, f) is OpenService <==> name.len() > 0 && f.manager is Some
            && f.manager->0 is Ok && f.service is None,
        service_step(name, f) is Stop <==> name.len() > 0 && f.manager is Some && f.manager->0 is Ok
            && f.service is Some && f.service->0 is Ok && f.stopped is None,
        service_step(name, f) == ServiceStepView::Done(Ok(())) <==> name.len() > 0
            && f.manager is Some && f.manager->0 is Ok && f.service is Some && f.service->0 is Ok
            && f.stopped is Some && f.stopped->0 is Ok,
{
}

} // verus!
