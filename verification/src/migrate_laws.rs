//! Where migrated data goes, and how a migration runs from its first step to its last.

use vstd::prelude::*;

use crate::file_ops::{lockers_text, lockers_view, mirrored_path, FolderOccupancy};
use crate::migrate::{
    file_step, folder_step, has_hash, replace_step, retry_step, went_well, FileFacts, FileStepView,
    FolderFacts, FolderStepView, ReplaceFacts, ReplaceStepView, RetryFacts, RetryStepView,
};
use crate::text::{trim_end, trim_start};
use crate::text_laws::{
    is_bare, lemma_bare, law_trim_end_takes_the_end, law_trim_start_takes_the_start,
};

verus! {

/// The path at the target that a step of migrating a file looks at, writes, reads, clears away
/// or links to.
pub open spec fn place_in(step: FileStepView) -> Option<Seq<char>> {
    match step {
        FileStepView::LookAt(p) => Some(p),
        FileStepView::HashTarget(p) => Some(p),
        FileStepView::Copy(p) => Some(p),
        FileStepView::HashCopy(p) => Some(p),
        FileStepView::Clean(p, _) => Some(p),
        FileStepView::Replace(p) => Some(p),
        FileStepView::Done(Ok(p)) => Some(p),
        _ => None,
    }
}

/// The folder that a step of migrating a file makes or clears away.
pub open spec fn folder_in(step: FileStepView) -> Option<Seq<char>> {
    match step {
        FileStepView::MakeDir(d) => Some(d),
        FileStepView::Clean(_, d) => Some(d),
        _ => None,
    }
}

/// The place of a migrated file goes by its content. Whatever is known so far, the path that a
/// step speaks of is the base folder without the backslashes at its end, the fingerprint of the
/// source and the file's name, a backslash between them; and the folder made or cleared away is
/// the one named by the fingerprint, never the base folder itself.
pub proof fn law_file_goes_by_its_content(
    base: Seq<char>,
    folder: Seq<char>,
    f: FileFacts,
    hash: Seq<char>,
    name: Seq<char>,
)
    requires
        is_bare(folder, base),
        has_hash(f.source_hash, hash),
        f.file_name is Some,
        f.file_name->0@ == name,
    ensures
        place_in(file_step(base, f)) is Some ==> place_in(file_step(base, f))->0 == folder + seq![
            '\\',
        ] + hash + seq!['\\'] + name,
        folder_in(file_step(base, f)) is Some ==> folder_in(file_step(base, f))->0 == folder + seq![
            '\\',
        ] + hash,
        folder_in(file_step(base, f)) is Some ==> folder_in(file_step(base, f))->0.len()
            > folder.len(),
{
    lemma_bare(folder, base);
    assert(folder.push('\\') + hash =~= folder + seq!['\\'] + hash);
    assert((folder.push('\\') + hash).push('\\') + name =~= folder + seq!['\\'] + hash + seq!['\\']
        + name);
}

/// Two files with different fingerprints of one length never share a place or a folder,
/// whatever they are called and however far the two migrations have come.
pub proof fn law_different_contents_have_different_places(
    base: Seq<char>,
    f: FileFacts,
    g: FileFacts,
    a: Seq<char>,
    b: Seq<char>,
)
    requires
        has_hash(f.source_hash, a),
        has_hash(g.source_hash, b),
        a.len() == b.len(),
        a != b,
    ensures
        place_in(file_step(base, f)) is Some && place_in(file_step(base, g)) is Some ==> place_in(
            file_step(base, f),
        ) != place_in(file_step(base, g)),
        folder_in(file_step(base, f)) is Some && folder_in(file_step(base, g)) is Some
            ==> folder_in(file_step(base, f)) != folder_in(file_step(base, g)),
{
    let t = trim_end(base, '\\');
    law_trim_end_takes_the_end(base, '\\');
    if f.file_name is Some && g.file_name is Some {
        let (m, n) = (f.file_name->0@, g.file_name->0@);
        law_file_goes_by_its_content(base, t, f, a, m);
        law_file_goes_by_its_content(base, t, g, b, n);
        let k = t.len() as int + 1;
        assert((t + seq!['\\'] + a + seq!['\\'] + m).subrange(k, k + a.len()) =~= a);
        assert((t + seq!['\\'] + b + seq!['\\'] + n).subrange(k, k + a.len()) =~= b);
        assert((t + seq!['\\'] + a).subrange(k, k + a.len()) =~= a);
        assert((t + seq!['\\'] + b).subrange(k, k + a.len()) =~= b);
    }
}

/// Every step of migrating a file asks for something that is not known yet, and everything that
/// has to come before it went well.
pub proof fn law_file_steps_come_in_order(base: Seq<char>, f: FileFacts)
    ensures
        f.source_hash is None <==> file_step(base, f) is HashSource,
        file_step(base, f) is LookAt ==> f.target_exists is None,
        file_step(base, f) is HashTarget ==> f.target_exists == Some(true) && f.target_hash is None,
        file_step(base, f) is MakeDir ==> f.target_exists == Some(false) && f.dir_made is None,
        file_step(base, f) is Copy ==> f.target_exists == Some(false) && went_well(f.dir_made)
            && f.copied is None,
        file_step(base, f) is HashCopy ==> f.target_exists == Some(false) && went_well(f.copied)
            && f.copy_hash is None,
        file_step(base, f) is Replace ==> f.replaced is None,
        file_step(base, f) is Clean ==> f.target_exists == Some(false) && went_well(f.dir_made)
            && f.copied is Some && !f.cleaned,
{
}

/// A file that is not at the target yet is moved: it is looked for, its folder is made, it is
/// copied, the copy is read, and where the copy has the fingerprint of the source the link is
/// put in its place and the place told.
pub proof fn law_file_is_moved(base: Seq<char>, f: FileFacts, hash: Seq<char>)
    requires
        has_hash(f.source_hash, hash),
        f.file_name is Some,
    ensures
        f.target_exists is None ==> file_step(base, f) is LookAt,
        f.target_exists == Some(false) && f.dir_made is None ==> file_step(base, f) is MakeDir,
        f.target_exists == Some(false) && went_well(f.dir_made) && f.copied is None ==> file_step(
            base,
            f,
        ) is Copy,
        f.target_exists == Some(false) && went_well(f.dir_made) && went_well(f.copied)
            && f.copy_hash is None ==> file_step(base, f) is HashCopy,
        f.target_exists == Some(false) && went_well(f.dir_made) && went_well(f.copied) && has_hash(
            f.copy_hash,
            hash,
        ) && f.replaced is None ==> file_step(base, f) is Replace,
        f.target_exists == Some(false) && went_well(f.dir_made) && went_well(f.copied) && has_hash(
            f.copy_hash,
            hash,
        ) && went_well(f.replaced) ==> file_step(base, f) is Done && file_step(base, f)->Done_0 is Ok,
{
}

/// A file whose content is at the target already is not copied again: what is there is read, and
/// where it has the fingerprint of the source the link is put in its place. Where it has another
/// nothing is touched.
pub proof fn law_file_at_the_target_is_used(base: Seq<char>, f: FileFacts, hash: Seq<char>)
    requires
        has_hash(f.source_hash, hash),
        f.file_name is Some,
        f.target_exists == Some(true),
    ensures
        f.target_hash is None ==> file_step(base, f) is HashTarget,
        has_hash(f.target_hash, hash) && f.replaced is None ==> file_step(base, f) is Replace,
        has_hash(f.target_hash, hash) && went_well(f.replaced) ==> file_step(base, f) is Done
            && file_step(base, f)->Done_0 is Ok,
        f.target_hash is Some && !has_hash(f.target_hash, hash) ==> file_step(base, f) is Done
            && file_step(base, f)->Done_0 is Err,
        !(file_step(base, f) is Copy) && !(file_step(base, f) is MakeDir) && !(file_step(
            base,
            f,
        ) is Clean),
{
}

/// Whether something was done and went wrong.
pub open spec fn went_wrong(r: Option<Result<(), String>>) -> bool {
    match r {
        Some(Err(_)) => true,
        _ => false,
    }
}

/// Migrating a file fails for a reason: something that was done went wrong, the path has no name
/// for a file, or what is at the target differs from the source.
pub proof fn law_failed_file_has_a_reason(base: Seq<char>, f: FileFacts, hash: Seq<char>)
    requires
        has_hash(f.source_hash, hash),
        f.file_name is Some,
        file_step(base, f) is Done,
        file_step(base, f)->Done_0 is Err,
    ensures
        f.target_exists == Some(true) && f.target_hash is Some && !has_hash(f.target_hash, hash)
            || went_wrong(f.dir_made) || went_wrong(f.copied) || f.copy_hash is Some && !has_hash(
            f.copy_hash,
            hash,
        ) || went_wrong(f.replaced),
{
}

/// The path at the target that a step of migrating a folder speaks of.
pub open spec fn folder_place_in(step: FolderStepView) -> Option<Seq<char>> {
    match step {
        FolderStepView::LookAt(p) => Some(p),
        FolderStepView::MakeParent(p) => Some(p),
        FolderStepView::Copy(p) => Some(p),
        FolderStepView::CountCopy(p) => Some(p),
        FolderStepView::Clean(p) => Some(p),
        FolderStepView::Replace(p) => Some(p),
        FolderStepView::Done(Ok(p)) => Some(p),
        _ => None,
    }
}

/// The place of a migrated folder goes by its path: the base folder without the backslashes at
/// its end, the drive letter as a capital, and the path on the drive, a backslash between them.
pub proof fn law_folder_goes_by_its_path(
    base: Seq<char>,
    folder: Seq<char>,
    drive: char,
    gap: Seq<char>,
    rest: Seq<char>,
    f: FolderFacts,
)
    requires
        is_bare(folder, base),
        'A' <= drive <= 'Z',
        forall|i: int| 0 <= i < gap.len() ==> #[trigger] gap[i] == '\\',
        rest.len() > 0,
        rest[0] != '\\',
    ensures
        folder_place_in(folder_step(seq![drive, ':'] + gap + rest, base, f)) is Some
            ==> folder_place_in(folder_step(seq![drive, ':'] + gap + rest, base, f))->0 == folder
            + seq!['\\', drive, '\\'] + rest,
        mirrored_path(seq![drive, ':'] + gap + rest, base) == Ok::<Seq<char>, Seq<char>>(
            folder + seq!['\\', drive, '\\'] + rest,
        ),
{
    let path = seq![drive, ':'] + gap + rest;
    lemma_bare(folder, base);
    assert(path.skip(2) =~= gap + rest);
    let got = trim_start(gap + rest, '\\');
    law_trim_start_takes_the_start(gap + rest, '\\');
    let k = (gap + rest).len() - got.len();
    if k < gap.len() {
        assert((gap + rest)[k] == gap[k]);
        assert((gap + rest).skip(k)[0] == gap[k]);
    }
    if k > gap.len() {
        assert((gap + rest)[gap.len() as int] == rest[0]);
    }
    assert(k == gap.len());
    assert(got =~= rest);
    assert(folder.push('\\').push(drive).push('\\') + rest =~= folder + seq!['\\', drive, '\\']
        + rest);
}

/// Folders whose paths do not start with a drive, and whole drives, are not moved.
pub proof fn law_only_folders_on_a_drive_are_moved(path: Seq<char>, base: Seq<char>, f: FolderFacts)
    requires
        path.len() < 3 || path[1] != ':' || forall|i: int|
            2 <= i < path.len() ==> #[trigger] path[i] == '\\',
    ensures
        folder_place_in(folder_step(path, base, f)) is None,
        !(folder_step(path, base, f) is FindLinks) && !(folder_step(path, base, f) is CountSource),
{
    if path.len() >= 3 && path[1] == ':' {
        let got = trim_start(path.skip(2), '\\');
        law_trim_start_takes_the_start(path.skip(2), '\\');
        if got.len() > 0 {
            let k = path.skip(2).len() - got.len();
            assert(path.skip(2).skip(k)[0] == path[2 + k]);
        }
    }
}

/// A folder that can be moved is moved: it is asked whether it is held, whether something is at
/// the target, and whether it holds links; its parent is made, it is copied, source and copy are
/// counted, and where the counts agree the link is put in its place.
pub proof fn law_folder_is_moved(path: Seq<char>, base: Seq<char>, f: FolderFacts)
    requires
        mirrored_path(path, base) is Ok,
    ensures
        f.occupied is None <==> folder_step(path, base, f) is CheckOccupied,
        f.occupied == Some(FolderOccupancy::Locked) ==> folder_step(path, base, f) is Done
            && folder_step(path, base, f)->Done_0 is Err,
        f.occupied is Some && f.occupied != Some(FolderOccupancy::Locked) ==> {
            &&& f.target_exists is None <==> folder_step(path, base, f) is LookAt
            &&& f.target_exists == Some(true) ==> folder_step(path, base, f) is Done && folder_step(
                path,
                base,
                f,
            )->Done_0 is Err
            &&& f.target_exists == Some(false) ==> {
                &&& f.link_inside is None <==> folder_step(path, base, f) is FindLinks
                &&& f.link_inside is Some && f.link_inside != Some(
                    Ok::<Option<String>, String>(None),
                ) ==> folder_step(path, base, f) is Done && folder_step(path, base, f)->Done_0 is Err
                &&& f.link_inside == Some(Ok::<Option<String>, String>(None)) && f.has_parent ==> {
                    &&& f.dir_made is None <==> folder_step(path, base, f) is MakeParent
                    &&& went_well(f.dir_made) ==> {
                        &&& f.copied is None <==> folder_step(path, base, f) is Copy
                        &&& went_well(f.copied) ==> {
                            &&& f.source_count is None <==> folder_step(path, base, f) is CountSource
                            &&& f.source_count is Some && f.source_count->0 is Ok ==> {
                                &&& f.copy_count is None <==> folder_step(
                                    path,
                                    base,
                                    f,
                                ) is CountCopy
                                &&& f.copy_count == f.source_count && f.replaced is None
                                    ==> folder_step(path, base, f) is Replace
                                &&& f.copy_count == f.source_count && went_well(f.replaced)
                                    ==> folder_step(path, base, f) is Done && folder_step(
                                    path,
                                    base,
                                    f,
                                )->Done_0 is Ok
                            }
                        }
                    }
                }
            }
        },
{
}

/// Putting a link in place of something runs to its end: a copy to be checked is compared, what
/// is there is deleted, the link is made, and only then is it done; where the contents differ,
/// or deleting or linking goes wrong, it fails.
pub proof fn law_link_is_put_in_place(path: Seq<char>, target: Seq<char>, f: ReplaceFacts)
    ensures
        replace_step(path, target, f) is Compare <==> f.verify && !f.is_dir && f.same is None,
        replace_step(path, target, f) is Delete <==> f.deleted is None && (f.verify && !f.is_dir
            ==> f.same == Some(true)),
        replace_step(path, target, f) is Link <==> went_well(f.deleted) && f.linked is None && (
        f.verify && !f.is_dir ==> f.same == Some(true)),
        replace_step(path, target, f) == ReplaceStepView::Done(Ok(())) <==> went_well(f.deleted)
            && went_well(f.linked) && (f.verify && !f.is_dir ==> f.same == Some(true)),
{
    if f.same is Some {
        if f.same->0 {
            assert(f.same == Some(true));
        } else {
            assert(f.same == Some(false));
        }
    }
}

/// What is to be deleted is deleted at once, and after each of the first three failures again,
/// behind a pause of 300 milliseconds for every try so far. The fourth failure is told, with
/// those who hold the file where they are known.
pub proof fn law_deleting_is_tried_again(f: RetryFacts)
    ensures
        f.last is None ==> retry_step(f) is Delete,
        went_well(f.last) <==> retry_step(f) == RetryStepView::Done(Ok(())),
        went_wrong(f.last) && f.tries < 4 && f.pauses < f.tries ==> retry_step(f)
            == RetryStepView::Pause((f.tries * 300) as u64),
        went_wrong(f.last) && f.tries < 4 && f.pauses >= f.tries ==> retry_step(f) is Delete,
        went_wrong(f.last) && f.tries >= 4 && f.lockers is None ==> retry_step(f) is FindLockers,
        went_wrong(f.last) && f.tries >= 4 && f.lockers is Some ==> {
            let said = f.last->0->Err_0@;
            &&& retry_step(f) is Done
            &&& retry_step(f)->Done_0 is Err
            &&& said.is_prefix_of(retry_step(f)->Done_0->Err_0)
            &&& f.lockers->0 is Ok && f.lockers->0->Ok_0@.len() > 0
                ==> retry_step(f)->Done_0->Err_0.skip(said.len() as int + 1) == lockers_text(
                lockers_view(f.lockers->0->Ok_0@),
            )
            &&& f.lockers->0 is Err || f.lockers->0->Ok_0@.len() == 0 ==> retry_step(
                f,
            )->Done_0->Err_0 == said
        },
{
    reveal_strlit("；");
    if went_wrong(f.last) && f.tries >= 4 && f.lockers is Some && f.lockers->0 is Ok
        && f.lockers->0->Ok_0@.len() > 0 {
        let said = f.last->0->Err_0@;
        let who = lockers_text(lockers_view(f.lockers->0->Ok_0@));
        assert((said + "；"@ + who).skip(said.len() as int + 1) =~= who);
        assert(said =~= (said + "；"@ + who).take(said.len() as int));
    }
}

} // verus!
