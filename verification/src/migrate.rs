//! Moving data to another drive and leaving a link behind.
//!
//! What was done so far and how it went stands in a record of facts. From it follows the next
//! step, so that nothing is deleted before its copy is known to be right.

use vstd::prelude::*;
use vstd::string::*;

use crate::file_ops::{
    describe_locking_processes, is_empty, lockers_text, lockers_view, mirrored_folder_target_path,
    mirrored_path, pair, told, told_path, triple, FolderOccupancy, LockingProcess,
};
use crate::text::{decimal, owned, push_decimal, str_eq, trim_end, trim_end_char};

verus! {

/// How often deleting is tried again.
pub const RETRIES: u64 = 3;

/// What is known of deleting with several tries.
pub struct RetryFacts {
    /// How often it was tried.
    pub tries: u64,
    /// How the last try went.
    pub last: Option<Result<(), String>>,
    /// How often there was a pause.
    pub pauses: u64,
    /// Who holds the file, once that was asked.
    pub lockers: Option<Result<Vec<LockingProcess>, String>>,
}

/// A step of deleting with several tries.
pub enum RetryStep {
    Delete,
    /// Wait for so many milliseconds.
    Pause(u64),
    FindLockers,
    Done(Result<(), String>),
}

/// What a [`RetryStep`] says.
pub enum RetryStepView {
    Delete,
    Pause(u64),
    FindLockers,
    Done(Result<(), Seq<char>>),
}

impl View for RetryStep {
    type V = RetryStepView;

    open spec fn view(&self) -> RetryStepView {
        match self {
            RetryStep::Delete => RetryStepView::Delete,
            RetryStep::Pause(ms) => RetryStepView::Pause(*ms),
            RetryStep::FindLockers => RetryStepView::FindLockers,
            RetryStep::Done(r) => RetryStepView::Done(told(*r)),
        }
    }
}

/// The step of deleting after what is known so far: three more tries after the first, with a
/// longer pause before each, and then the question who holds the file.
pub open spec fn retry_step(f: RetryFacts) -> RetryStepView {
    match f.last {
        None => RetryStepView::Delete,
        Some(Ok(_)) => RetryStepView::Done(Ok(())),
        Some(Err(e)) => if f.tries <= RETRIES {
            if f.pauses < f.tries {
                RetryStepView::Pause((300 * f.tries) as u64)
            } else {
                RetryStepView::Delete
            }
        } else {
            match f.lockers {
                None => RetryStepView::FindLockers,
                Some(Ok(ps)) if ps@.len() > 0 => RetryStepView::Done(
                    Err(e@ + "；"@ + lockers_text(lockers_view(ps@))),
                ),
                Some(_) => RetryStepView::Done(Err(e@)),
            }
        },
    }
}

/// Deletes to the recycle bin with several tries: the next step after what is known so far.
pub fn delete_to_recycle_bin_with_retry(f: &RetryFacts) -> (r: RetryStep)
    ensures
        r@ == retry_step(*f),
{
    match &f.last {
        None => RetryStep::Delete,
        Some(Ok(_)) => RetryStep::Done(Ok(())),
        Some(Err(e)) => {
            if f.tries <= RETRIES {
                if f.pauses < f.tries {
                    return RetryStep::Pause(300 * f.tries);
                }
                return RetryStep::Delete;
            }
            match &f.lockers {
                None => RetryStep::FindLockers,
                Some(Ok(ps)) => {
                    if ps.len() > 0 {
                        let who = describe_locking_processes(ps.as_slice());
                        RetryStep::Done(Err(triple(e.as_str(), "；", who.as_str())))
                    } else {
                        RetryStep::Done(Err(owned(e.as_str())))
                    }
                },
                Some(Err(_)) => RetryStep::Done(Err(owned(e.as_str()))),
            }
        },
    }
}

/// Deleting is tried four times at most, and only when it went wrong is it tried again.
pub proof fn law_deleting_is_tried_four_times(f: RetryFacts)
    requires
        f.last is Some,
        retry_step(f) is Delete,
    ensures
        f.last->0 is Err,
        f.tries < 4,
{
}

/// What is known of putting a link in place of a file or folder.
pub struct ReplaceFacts {
    pub is_dir: bool,
    /// Whether the contents are to be compared first.
    pub verify: bool,
    pub same: Option<bool>,
    pub deleted: Option<Result<(), String>>,
    pub linked: Option<Result<(), String>>,
}

/// A step of putting a link in place of a file or folder.
pub enum ReplaceStep {
    Compare,
    Delete,
    Link,
    Done(Result<(), String>),
}

/// What a [`ReplaceStep`] says.
pub enum ReplaceStepView {
    Compare,
    Delete,
    Link,
    Done(Result<(), Seq<char>>),
}

impl View for ReplaceStep {
    type V = ReplaceStepView;

    open spec fn view(&self) -> ReplaceStepView {
        match self {
            ReplaceStep::Compare => ReplaceStepView::Compare,
            ReplaceStep::Delete => ReplaceStepView::Delete,
            ReplaceStep::Link => ReplaceStepView::Link,
            ReplaceStep::Done(r) => ReplaceStepView::Done(told(*r)),
        }
    }
}

/// What is told when a file is not the same as the one that stays.
pub open spec fn changed_text(path: Seq<char>, target: Seq<char>) -> Seq<char> {
    "副本 "@ + path + " 与真身 "@ + target
        + " 的内容已经不一致（可能在扫描之后被修改过），为防止丢失新内容已中止对这个副本的替换，原文件保留不动"@
}

/// The step of putting a link in place of a path after what is known so far.
pub open spec fn replace_step(
    path: Seq<char>,
    target: Seq<char>,
    f: ReplaceFacts,
) -> ReplaceStepView {
    if f.verify && !f.is_dir && f.same is None {
        ReplaceStepView::Compare
    } else if f.verify && !f.is_dir && f.same == Some(false) {
        ReplaceStepView::Done(Err(changed_text(path, target)))
    } else {
        match f.deleted {
            None => ReplaceStepView::Delete,
            Some(Err(e)) => ReplaceStepView::Done(Err(e@)),
            Some(Ok(_)) => match f.linked {
                None => ReplaceStepView::Link,
                Some(Ok(_)) => ReplaceStepView::Done(Ok(())),
                Some(Err(e)) => ReplaceStepView::Done(
                    Err(
                        "原文件已删除（在回收站里，可以找回），但创建符号链接失败，真实数据在 "@
                            + target + "，请手动处理: "@ + e@,
                    ),
                ),
            },
        }
    }
}

/// Puts a link in place of a file or folder: the next step after what is known so far.
pub fn replace_with_symlink(path: &str, target: &str, f: &ReplaceFacts) -> (r: ReplaceStep)
    ensures
        r@ == replace_step(path@, target@, *f),
{
    if f.verify && !f.is_dir {
        match f.same {
            None => return ReplaceStep::Compare,
            Some(same) => {
                if !same {
                    let mut s = triple("副本 ", path, " 与真身 ");
                    s.append(target);
                    s.append(
                        " 的内容已经不一致（可能在扫描之后被修改过），为防止丢失新内容已中止对这个副本的替换，原文件保留不动",
                    );
                    return ReplaceStep::Done(Err(s));
                }
            },
        }
    }
    match &f.deleted {
        None => ReplaceStep::Delete,
        Some(Err(e)) => ReplaceStep::Done(Err(owned(e.as_str()))),
        Some(Ok(_)) => match &f.linked {
            None => ReplaceStep::Link,
            Some(Ok(_)) => ReplaceStep::Done(Ok(())),
            Some(Err(e)) => {
                let mut s = triple(
                    "原文件已删除（在回收站里，可以找回），但创建符号链接失败，真实数据在 ",
                    target,
                    "，请手动处理: ",
                );
                s.append(e.as_str());
                ReplaceStep::Done(Err(s))
            },
        },
    }
}

/// A copy whose content has to be checked is deleted only after it was found to be the same,
/// and a link is made only where the source is gone.
pub proof fn law_only_checked_copies_are_deleted(
    path: Seq<char>,
    target: Seq<char>,
    f: ReplaceFacts,
)
    ensures
        replace_step(path, target, f) is Delete && f.verify && !f.is_dir ==> f.same == Some(true),
        replace_step(path, target, f) is Link ==> f.deleted is Some && f.deleted->0 is Ok,
{
}

/// What is known of migrating a file.
pub struct FileFacts {
    pub file_name: Option<String>,
    /// The fingerprint of the source.
    pub source_hash: Option<Result<String, String>>,
    pub target_exists: Option<bool>,
    /// The fingerprint of what was at the target before.
    pub target_hash: Option<Result<String, String>>,
    pub dir_made: Option<Result<(), String>>,
    pub copied: Option<Result<(), String>>,
    /// The fingerprint of the copy.
    pub copy_hash: Option<Result<String, String>>,
    /// Whether a copy that is no good was removed.
    pub cleaned: bool,
    pub replaced: Option<Result<(), String>>,
}

/// A step of migrating a file. Paths are those of folder and file at the target.
pub enum FileStep {
    HashSource,
    LookAt(String),
    HashTarget(String),
    MakeDir(String),
    Copy(String),
    HashCopy(String),
    /// Remove the copy and its folder.
    Clean(String, String),
    /// Put a link to this file in place of the source.
    Replace(String),
    Done(Result<String, String>),
}

/// What a [`FileStep`] says.
pub enum FileStepView {
    HashSource,
    LookAt(Seq<char>),
    HashTarget(Seq<char>),
    MakeDir(Seq<char>),
    Copy(Seq<char>),
    HashCopy(Seq<char>),
    Clean(Seq<char>, Seq<char>),
    Replace(Seq<char>),
    Done(Result<Seq<char>, Seq<char>>),
}

impl View for FileStep {
    type V = FileStepView;

    open spec fn view(&self) -> FileStepView {
        match self {
            FileStep::HashSource => FileStepView::HashSource,
            FileStep::LookAt(p) => FileStepView::LookAt(p@),
            FileStep::HashTarget(p) => FileStepView::HashTarget(p@),
            FileStep::MakeDir(p) => FileStepView::MakeDir(p@),
            FileStep::Copy(p) => FileStepView::Copy(p@),
            FileStep::HashCopy(p) => FileStepView::HashCopy(p@),
            FileStep::Clean(p, d) => FileStepView::Clean(p@, d@),
            FileStep::Replace(p) => FileStepView::Replace(p@),
            FileStep::Done(r) => FileStepView::Done(told_path(*r)),
        }
    }
}

/// The folder for a file with the given fingerprint.
pub open spec fn hash_dir(base: Seq<char>, hash: Seq<char>) -> Seq<char> {
    trim_end(base, '\\').push('\\') + hash
}

/// The step once the fingerprint of the source and the place of the copy are known.
pub open spec fn copy_step(
    hash: Seq<char>,
    dir: Seq<char>,
    target: Seq<char>,
    f: FileFacts,
) -> FileStepView {
    match f.target_exists {
        None => FileStepView::LookAt(target),
        Some(true) => match f.target_hash {
            None => FileStepView::HashTarget(target),
            Some(Err(e)) => FileStepView::Done(Err(e@)),
            Some(Ok(h)) => if h@ != hash {
                FileStepView::Done(
                    Err(
                        "目标位置 "@ + target
                            + " 已存在但内容不一致（理论上不应该发生），为安全起见中止操作，不会覆盖也不会删除原文件"@,
                    ),
                )
            } else {
                link_step_of(target, f)
            },
        },
        Some(false) => match f.dir_made {
            None => FileStepView::MakeDir(dir),
            Some(Err(e)) => FileStepView::Done(Err("创建目标目录失败: "@ + e@)),
            Some(Ok(_)) => match f.copied {
                None => FileStepView::Copy(target),
                Some(Err(e)) => if !f.cleaned {
                    FileStepView::Clean(target, dir)
                } else {
                    FileStepView::Done(Err("复制文件失败: "@ + e@))
                },
                Some(Ok(_)) => match f.copy_hash {
                    None => FileStepView::HashCopy(target),
                    Some(Err(e)) => if !f.cleaned {
                        FileStepView::Clean(target, dir)
                    } else {
                        FileStepView::Done(Err(e@))
                    },
                    Some(Ok(h)) => if h@ != hash {
                        if !f.cleaned {
                            FileStepView::Clean(target, dir)
                        } else {
                            FileStepView::Done(
                                Err(
                                    "复制后校验失败（内容对不上），已撤销复制，原文件未受影响"@,
                                ),
                            )
                        }
                    } else {
                        link_step_of(target, f)
                    },
                },
            },
        },
    }
}

/// The step once the copy is known to be right.
pub open spec fn link_step_of(target: Seq<char>, f: FileFacts) -> FileStepView {
    match f.replaced {
        None => FileStepView::Replace(target),
        Some(Ok(_)) => FileStepView::Done(Ok(target)),
        Some(Err(e)) => FileStepView::Done(Err(e@)),
    }
}

/// The step of migrating a file after what is known so far. The copy stands in a folder named
/// by its fingerprint.
pub open spec fn file_step(base: Seq<char>, f: FileFacts) -> FileStepView {
    match f.source_hash {
        None => FileStepView::HashSource,
        Some(Err(e)) => FileStepView::Done(Err(e@)),
        Some(Ok(hash)) => match f.file_name {
            None => FileStepView::Done(Err("无法解析文件名"@)),
            Some(name) => copy_step(
                hash@,
                hash_dir(base, hash@),
                hash_dir(base, hash@).push('\\') + name@,
                f,
            ),
        },
    }
}

fn link_to(target: String, f: &FileFacts) -> (r: FileStep)
    ensures
        r@ == link_step_of(target@, *f),
{
    match &f.replaced {
        None => FileStep::Replace(target),
        Some(Ok(_)) => FileStep::Done(Ok(target)),
        Some(Err(e)) => FileStep::Done(Err(owned(e.as_str()))),
    }
}

fn copy_to(hash: &str, dir: String, target: String, f: &FileFacts) -> (r: FileStep)
    ensures
        r@ == copy_step(hash@, dir@, target@, *f),
{
    match f.target_exists {
        None => return FileStep::LookAt(target),
        Some(true) => {
            return match &f.target_hash {
                None => FileStep::HashTarget(target),
                Some(Err(e)) => FileStep::Done(Err(owned(e.as_str()))),
                Some(Ok(h)) => if !str_eq(h.as_str(), hash) {
                    FileStep::Done(
                        Err(
                            triple(
                                "目标位置 ",
                                target.as_str(),
                                " 已存在但内容不一致（理论上不应该发生），为安全起见中止操作，不会覆盖也不会删除原文件",
                            ),
                        ),
                    )
                } else {
                    link_to(target, f)
                },
            }
        },
        Some(false) => {},
    }
    match &f.dir_made {
        None => return FileStep::MakeDir(dir),
        Some(Err(e)) => {
            return FileStep::Done(Err(pair("创建目标目录失败: ", e.as_str())))
        },
        Some(Ok(_)) => {},
    }
    match &f.copied {
        None => return FileStep::Copy(target),
        Some(Err(e)) => {
            return if !f.cleaned {
                FileStep::Clean(target, dir)
            } else {
                FileStep::Done(Err(pair("复制文件失败: ", e.as_str())))
            }
        },
        Some(Ok(_)) => {},
    }
    match &f.copy_hash {
        None => FileStep::HashCopy(target),
        Some(Err(e)) => if !f.cleaned {
            FileStep::Clean(target, dir)
        } else {
            FileStep::Done(Err(owned(e.as_str())))
        },
        Some(Ok(h)) => if !str_eq(h.as_str(), hash) {
            if !f.cleaned {
                FileStep::Clean(target, dir)
            } else {
                FileStep::Done(
                    Err(
                        owned("复制后校验失败（内容对不上），已撤销复制，原文件未受影响"),
                    ),
                )
            }
        } else {
            link_to(target, f)
        },
    }
}

/// Migrates a file: the next step after what is known so far.
pub fn migrate_file_to_symlink(base_dir: &str, f: &FileFacts) -> (r: FileStep)
    ensures
        r@ == file_step(base_dir@, *f),
{
    let hash = match &f.source_hash {
        None => return FileStep::HashSource,
        Some(Err(e)) => return FileStep::Done(Err(owned(e.as_str()))),
        Some(Ok(hash)) => hash,
    };
    let name = match &f.file_name {
        None => return FileStep::Done(Err(owned("无法解析文件名"))),
        Some(name) => name,
    };
    let mut dir = trim_end_char(base_dir, '\\');
    dir.push('\\');
    dir.append(hash.as_str());
    let mut target = owned(dir.as_str());
    target.push('\\');
    target.append(name.as_str());
    copy_to(hash.as_str(), dir, target, f)
}

/// A fingerprint was taken and is the given one.
pub open spec fn has_hash(r: Option<Result<String, String>>, hash: Seq<char>) -> bool {
    match r {
        Some(Ok(h)) => h@ == hash,
        _ => false,
    }
}

/// Something was done and went well.
pub open spec fn went_well(r: Option<Result<(), String>>) -> bool {
    match r {
        Some(Ok(_)) => true,
        _ => false,
    }
}

/// What is at the target has the fingerprint of the source.
pub open spec fn copy_is_right(f: FileFacts) -> bool {
    match f.source_hash {
        Some(Ok(hash)) => if f.target_exists == Some(true) {
            has_hash(f.target_hash, hash@)
        } else {
            f.target_exists == Some(false) && went_well(f.copied) && has_hash(f.copy_hash, hash@)
        },
        _ => false,
    }
}

/// Whether migrating a file succeeded.
pub open spec fn file_succeeded(s: FileStepView) -> bool {
    match s {
        FileStepView::Done(Ok(_)) => true,
        _ => false,
    }
}

/// Whether migrating a folder succeeded.
pub open spec fn folder_succeeded(s: FolderStepView) -> bool {
    match s {
        FolderStepView::Done(Ok(_)) => true,
        _ => false,
    }
}

/// The source is touched only once the copy is known to be right, and migrating succeeds only
/// where the copy is right and the link is made.
pub proof fn law_source_is_touched_last(base: Seq<char>, f: FileFacts)
    ensures
        file_step(base, f) is Replace ==> copy_is_right(f),
        file_succeeded(file_step(base, f)) ==> copy_is_right(f) && went_well(f.replaced),
{
}

/// What is known of migrating a folder.
pub struct FolderFacts {
    pub occupied: Option<FolderOccupancy>,
    pub target_exists: Option<bool>,
    /// The first entry that is a link, if there is one.
    pub link_inside: Option<Result<Option<String>, String>>,
    /// Whether the target has a parent.
    pub has_parent: bool,
    pub dir_made: Option<Result<(), String>>,
    pub copied: Option<Result<(), String>>,
    /// Files and bytes of the source.
    pub source_count: Option<Result<(u64, u64), String>>,
    /// Files and bytes of the copy.
    pub copy_count: Option<Result<(u64, u64), String>>,
    pub cleaned: bool,
    pub replaced: Option<Result<(), String>>,
}

/// A step of migrating a folder.
pub enum FolderStep {
    CheckOccupied,
    LookAt(String),
    FindLinks,
    MakeParent(String),
    Copy(String),
    CountSource,
    CountCopy(String),
    Clean(String),
    Replace(String),
    Done(Result<String, String>),
}

/// What a [`FolderStep`] says.
pub enum FolderStepView {
    CheckOccupied,
    LookAt(Seq<char>),
    FindLinks,
    MakeParent(Seq<char>),
    Copy(Seq<char>),
    CountSource,
    CountCopy(Seq<char>),
    Clean(Seq<char>),
    Replace(Seq<char>),
    Done(Result<Seq<char>, Seq<char>>),
}

impl View for FolderStep {
    type V = FolderStepView;

    open spec fn view(&self) -> FolderStepView {
        match self {
            FolderStep::CheckOccupied => FolderStepView::CheckOccupied,
            FolderStep::LookAt(p) => FolderStepView::LookAt(p@),
            FolderStep::FindLinks => FolderStepView::FindLinks,
            FolderStep::MakeParent(p) => FolderStepView::MakeParent(p@),
            FolderStep::Copy(p) => FolderStepView::Copy(p@),
            FolderStep::CountSource => FolderStepView::CountSource,
            FolderStep::CountCopy(p) => FolderStepView::CountCopy(p@),
            FolderStep::Clean(p) => FolderStepView::Clean(p@),
            FolderStep::Replace(p) => FolderStepView::Replace(p@),
            FolderStep::Done(r) => FolderStepView::Done(told_path(*r)),
        }
    }
}

/// What is told when the copy is not as large as the source.
pub open spec fn count_mismatch(a: (u64, u64), b: (u64, u64)) -> Seq<char> {
    "复制后校验失败（源 "@ + decimal(a.0 as nat) + " 个文件/"@ + decimal(a.1 as nat)
        + " 字节，目标 "@ + decimal(b.0 as nat) + " 个文件/"@ + decimal(b.1 as nat)
        + " 字节），已撤销复制，原文件夹未受影响"@
}

/// The step once the folder may be copied.
pub open spec fn folder_copy_step(target: Seq<char>, f: FolderFacts) -> FolderStepView {
    if !f.has_parent {
        FolderStepView::Done(Err("无法解析目标路径的上级目录: "@ + target))
    } else {
        match f.dir_made {
            None => FolderStepView::MakeParent(target),
            Some(Err(e)) => FolderStepView::Done(Err("创建目标目录失败: "@ + e@)),
            Some(Ok(_)) => match f.copied {
                None => FolderStepView::Copy(target),
                Some(Err(e)) => if !f.cleaned {
                    FolderStepView::Clean(target)
                } else {
                    FolderStepView::Done(Err("复制文件夹失败: "@ + e@))
                },
                Some(Ok(_)) => folder_count_step(target, f),
            },
        }
    }
}

/// The step once the folder is copied.
pub open spec fn folder_count_step(target: Seq<char>, f: FolderFacts) -> FolderStepView {
    match f.source_count {
        None => FolderStepView::CountSource,
        Some(Err(e)) => if !f.cleaned {
            FolderStepView::Clean(target)
        } else {
            FolderStepView::Done(Err("统计源文件夹失败: "@ + e@))
        },
        Some(Ok(a)) => match f.copy_count {
            None => FolderStepView::CountCopy(target),
            Some(Err(e)) => if !f.cleaned {
                FolderStepView::Clean(target)
            } else {
                FolderStepView::Done(Err("统计目标文件夹失败: "@ + e@))
            },
            Some(Ok(b)) => if a != b {
                if !f.cleaned {
                    FolderStepView::Clean(target)
                } else {
                    FolderStepView::Done(Err(count_mismatch(a, b)))
                }
            } else {
                match f.replaced {
                    None => FolderStepView::Replace(target),
                    Some(Ok(_)) => FolderStepView::Done(Ok(target)),
                    Some(Err(e)) => FolderStepView::Done(Err(e@)),
                }
            },
        },
    }
}

/// The step of migrating a folder after what is known so far.
pub open spec fn folder_step(
    source: Seq<char>,
    base: Seq<char>,
    f: FolderFacts,
) -> FolderStepView {
    match f.occupied {
        None => FolderStepView::CheckOccupied,
        Some(FolderOccupancy::Locked) => FolderStepView::Done(
            Err(
                "文件夹当前被占用（重命名探测：共享/锁冲突），已取消迁移，没有复制任何数据。建议先用右键菜单的\"检测占用\"找到占用的进程，处理完再重试。"@,
            ),
        ),
        Some(_) => match mirrored_path(source, base) {
            Err(e) => FolderStepView::Done(Err(e)),
            Ok(target) => match f.target_exists {
                None => FolderStepView::LookAt(target),
                Some(true) => FolderStepView::Done(
                    Err(
                        "目标位置 "@ + target
                            + " 已经存在，可能之前已经迁移过、或者出现了没预料到的情况——为安全起见中止操作，请手动检查这个位置后再重试"@,
                    ),
                ),
                Some(false) => match f.link_inside {
                    None => FolderStepView::FindLinks,
                    Some(Err(e)) => FolderStepView::Done(
                        Err("预扫源文件夹失败（未做任何改动）: "@ + e@),
                    ),
                    Some(Ok(Some(offender))) => FolderStepView::Done(
                        Err(
                            "文件夹里包含符号链接/junction/OneDrive 占位项（"@ + offender@
                                + "），这类条目无法被安全地复制到别的盘——为避免迁出一份不完整的镜像，已中止迁移，原文件夹未受任何影响。可以先用资源管理器/检测占用处理这些条目后再迁移剩下的部分"@,
                        ),
                    ),
                    Some(Ok(None)) => folder_copy_step(target, f),
                },
            },
        },
    }
}

fn mismatch_text(a: (u64, u64), b: (u64, u64)) -> (r: String)
    ensures
        r@ == count_mismatch(a, b),
{
    let mut s = owned("复制后校验失败（源 ");
    push_decimal(&mut s, a.0);
    s.append(" 个文件/");
    push_decimal(&mut s, a.1);
    s.append(" 字节，目标 ");
    push_decimal(&mut s, b.0);
    s.append(" 个文件/");
    push_decimal(&mut s, b.1);
    s.append(" 字节），已撤销复制，原文件夹未受影响");
    s
}

fn count_folder(target: String, f: &FolderFacts) -> (r: FolderStep)
    ensures
        r@ == folder_count_step(target@, *f),
{
    let a: (u64, u64) = match &f.source_count {
        None => return FolderStep::CountSource,
        Some(Err(e)) => {
            return if !f.cleaned {
                FolderStep::Clean(target)
            } else {
                FolderStep::Done(Err(pair("统计源文件夹失败: ", e.as_str())))
            }
        },
        Some(Ok(a)) => *a,
    };
    let b: (u64, u64) = match &f.copy_count {
        None => return FolderStep::CountCopy(target),
        Some(Err(e)) => {
            return if !f.cleaned {
                FolderStep::Clean(target)
            } else {
                FolderStep::Done(Err(pair("统计目标文件夹失败: ", e.as_str())))
            }
        },
        Some(Ok(b)) => *b,
    };
    if a.0 != b.0 || a.1 != b.1 {
        return if !f.cleaned {
            FolderStep::Clean(target)
        } else {
            FolderStep::Done(Err(mismatch_text(a, b)))
        };
    }
    match &f.replaced {
        None => FolderStep::Replace(target),
        Some(Ok(_)) => FolderStep::Done(Ok(target)),
        Some(Err(e)) => FolderStep::Done(Err(owned(e.as_str()))),
    }
}

fn copy_folder(target: String, f: &FolderFacts) -> (r: FolderStep)
    ensures
        r@ == folder_copy_step(target@, *f),
{
    if !f.has_parent {
        return FolderStep::Done(
            Err(pair("无法解析目标路径的上级目录: ", target.as_str())),
        );
    }
    match &f.dir_made {
        None => return FolderStep::MakeParent(target),
        Some(Err(e)) => {
            return FolderStep::Done(Err(pair("创建目标目录失败: ", e.as_str())))
        },
        Some(Ok(_)) => {},
    }
    match &f.copied {
        None => FolderStep::Copy(target),
        Some(Err(e)) => if !f.cleaned {
            FolderStep::Clean(target)
        } else {
            FolderStep::Done(Err(pair("复制文件夹失败: ", e.as_str())))
        },
        Some(Ok(_)) => count_folder(target, f),
    }
}

/// Migrates a folder: the next step after what is known so far. A folder of which it could not
/// be found out whether it is held is tried all the same.
pub fn migrate_folder_to_symlink(source_path: &str, base_dir: &str, f: &FolderFacts) -> (r:
    FolderStep)
    ensures
        r@ == folder_step(source_path@, base_dir@, *f),
{
    match &f.occupied {
        None => return FolderStep::CheckOccupied,
        Some(FolderOccupancy::Locked) => {
            return FolderStep::Done(
                Err(
                    owned(
                        "文件夹当前被占用（重命名探测：共享/锁冲突），已取消迁移，没有复制任何数据。建议先用右键菜单的\"检测占用\"找到占用的进程，处理完再重试。",
                    ),
                ),
            )
        },
        Some(_) => {},
    }
    let target = match mirrored_folder_target_path(source_path, base_dir) {
        Ok(t) => t,
        Err(e) => return FolderStep::Done(Err(e)),
    };
    match f.target_exists {
        None => return FolderStep::LookAt(target),
        Some(true) => {
            return FolderStep::Done(
                Err(
                    triple(
                        "目标位置 ",
                        target.as_str(),
                        " 已经存在，可能之前已经迁移过、或者出现了没预料到的情况——为安全起见中止操作，请手动检查这个位置后再重试",
                    ),
                ),
            )
        },
        Some(false) => {},
    }
    match &f.link_inside {
        None => FolderStep::FindLinks,
        Some(Err(e)) => FolderStep::Done(
            Err(pair("预扫源文件夹失败（未做任何改动）: ", e.as_str())),
        ),
        Some(Ok(Some(offender))) => FolderStep::Done(
            Err(
                triple(
                    "文件夹里包含符号链接/junction/OneDrive 占位项（",
                    offender.as_str(),
                    "），这类条目无法被安全地复制到别的盘——为避免迁出一份不完整的镜像，已中止迁移，原文件夹未受任何影响。可以先用资源管理器/检测占用处理这些条目后再迁移剩下的部分",
                ),
            ),
        ),
        Some(Ok(None)) => copy_folder(target, f),
    }
}

/// A folder is touched only once it is known to hold no links, and to have been copied with as
/// many files and bytes as it has.
pub proof fn law_folder_is_touched_last(source: Seq<char>, base: Seq<char>, f: FolderFacts)
    ensures
        folder_step(source, base, f) is Replace || folder_succeeded(
            folder_step(source, base, f),
        ) ==> {
            &&& f.link_inside == Some(Ok::<Option<String>, String>(None))
            &&& went_well(f.copied)
            &&& f.source_count is Some
            &&& f.source_count->0 is Ok
            &&& f.copy_count == f.source_count
        },
{
}

/// A folder that was copied, or half copied, and is not moved after all leaves nothing behind:
/// where copying or counting goes wrong, or the counts differ, what was copied is cleared away
/// before the failure is told.
pub proof fn law_failed_folder_copy_is_cleared(source: Seq<char>, base: Seq<char>, f: FolderFacts)
    ensures
        folder_step(source, base, f) is Done && f.occupied is Some && !(f.occupied->0 is Locked)
            && mirrored_path(source, base) is Ok && f.target_exists == Some(false) && f.link_inside
            == Some(Ok::<Option<String>, String>(None)) && f.has_parent && went_well(f.dir_made)
            && f.replaced is None ==> f.cleaned,
{
}

/// A file that was copied, or half copied, and is not moved after all leaves nothing behind:
/// where copying or reading the copy goes wrong, or the copy differs, it is cleared away before
/// the failure is told.
pub proof fn law_failed_file_copy_is_cleared(base: Seq<char>, f: FileFacts)
    ensures
        file_step(base, f) is Done && f.source_hash is Some && f.source_hash->0 is Ok
            && f.file_name is Some && f.target_exists == Some(false) && went_well(f.dir_made)
            && f.replaced is None ==> f.cleaned,
{
}

/// A path below a folder, relative to it.
pub open spec fn relative_path(rel: Seq<char>, name: Seq<char>) -> Seq<char> {
    if rel.len() == 0 {
        name
    } else {
        rel.push('\\') + name
    }
}

/// A path below a folder, relative to it.
pub fn join_relative(rel: &str, name: &str) -> (r: String)
    ensures
        r@ == relative_path(rel@, name@),
{
    if is_empty(rel) {
        return owned(name);
    }
    let mut s = owned(rel);
    s.push('\\');
    s.append(name);
    s
}

/// How an entry that stops a migration is named.
pub fn offender_path(root: &str, rel: &str, name: &str) -> (r: String)
    ensures
        r@ == root@.push('\\') + relative_path(rel@, name@),
{
    let mut s = owned(root);
    s.push('\\');
    s.append(join_relative(rel, name).as_str());
    s
}

/// What to do with an entry of a folder that is copied or counted.
#[derive(Clone, Copy, Debug, PartialEq, Eq, Structural)]
pub enum EntryUse {
    Skip,
    Enter,
    Take,
}

/// Links are skipped, folders entered and files taken; anything else is skipped.
pub open spec fn used_as(is_symlink: bool, is_dir: bool, is_file: bool) -> EntryUse {
    if is_symlink {
        EntryUse::Skip
    } else if is_dir {
        EntryUse::Enter
    } else if is_file {
        EntryUse::Take
    } else {
        EntryUse::Skip
    }
}

/// What to do with an entry, by what it is.
pub fn entry_use(is_symlink: bool, is_dir: bool, is_file: bool) -> (r: EntryUse)
    ensures
        r == used_as(is_symlink, is_dir, is_file),
{
    if is_symlink {
        EntryUse::Skip
    } else if is_dir {
        EntryUse::Enter
    } else if is_file {
        EntryUse::Take
    } else {
        EntryUse::Skip
    }
}

} // verus!
