//! Operations on files: deleting to the recycle bin, links, and who holds a file open.
//!
//! The system does the work. What stands here decides, from what the system answered so far,
//! what to do next and what to tell the user in the end.

use vstd::prelude::*;
use vstd::string::*;

use crate::bytes::{from_utf16_lossy, utf16_lossy};
use crate::fs_attrs::IO_REPARSE_TAG_SYMLINK;
use crate::model::{file_view, folder_view, forest_view, text_option, Node, NodeView};
use crate::scan::upper_letter;
use crate::text::{
    chars_of, decimal, hex_lower_fixed, hex_upper, joined_by, owned, push_decimal,
    push_hex_lower_fixed, push_hex_upper, starts_with, trim_end, trim_end_char, trim_start,
    trim_start_from,
};

verus! {

/// The text of an outcome that is told to the user.
pub open spec fn told(r: Result<(), String>) -> Result<(), Seq<char>> {
    match r {
        Ok(_) => Ok(()),
        Err(e) => Err(e@),
    }
}

/// What is told where the system is not Windows.
pub open spec fn unsupported() -> Seq<char> {
    "仅支持 Windows"@
}

pub(crate) fn is_empty(s: &str) -> (r: bool)
    ensures
        r == (s@.len() == 0),
{
    chars_of(s).len() == 0
}

fn with_code(before: &str, code: u32, after: &str) -> (r: String)
    ensures
        r@ == before@ + decimal(code as nat) + after@,
{
    let mut s = owned(before);
    push_decimal(&mut s, code as u64);
    s.append(after);
    s
}

pub(crate) fn pair(a: &str, b: &str) -> (r: String)
    ensures
        r@ == a@ + b@,
{
    let mut s = owned(a);
    s.append(b);
    s
}

pub(crate) fn triple(a: &str, b: &str, c: &str) -> (r: String)
    ensures
        r@ == a@ + b@ + c@,
{
    let mut s = owned(a);
    s.append(b);
    s.append(c);
    s
}

/// What the shell said when it was asked to delete.
#[derive(Clone, Copy)]
pub enum ShellReply {
    Unsupported,
    Done { code: i32, aborted: bool },
}

/// A signed number as hexadecimal shows it.
pub open spec fn as_unsigned(n: i32) -> int {
    if n < 0 {
        n + 0x1_0000_0000
    } else {
        n as int
    }
}

/// What comes of deleting a path; nothing where the shell is still to be asked.
pub open spec fn delete_outcome(path: Seq<char>, reply: Option<ShellReply>) -> Option<
    Result<(), Seq<char>>,
> {
    match reply {
        Some(ShellReply::Unsupported) => Some(Err(unsupported())),
        _ => if path.len() == 0 {
            Some(Err("路径为空"@))
        } else {
            match reply {
                None => None,
                Some(ShellReply::Done { code, aborted }) => Some(
                    if code != 0 {
                        Err(
                            "删除失败（错误码 0x"@ + hex_upper(as_unsigned(code) as nat)
                                + "）"@,
                        )
                    } else if aborted {
                        Err("操作被取消"@)
                    } else {
                        Ok(())
                    },
                ),
                Some(ShellReply::Unsupported) => None,
            }
        },
    }
}

/// What an optional outcome tells.
pub open spec fn told_option(r: Option<Result<(), String>>) -> Option<Result<(), Seq<char>>> {
    match r {
        Some(x) => Some(told(x)),
        None => None,
    }
}

/// Deletes a path to the recycle bin: nothing where the shell is to be asked, and the outcome
/// once it has answered. An empty path is refused without asking.
pub fn delete_to_recycle_bin(path: &str, reply: Option<ShellReply>) -> (r: Option<
    Result<(), String>,
>)
    ensures
        told_option(r) == delete_outcome(path@, reply),
{
    if let Some(ShellReply::Unsupported) = reply {
        return Some(Err(owned("仅支持 Windows")));
    }
    if is_empty(path) {
        return Some(Err(owned("路径为空")));
    }
    match reply {
        Some(ShellReply::Done { code, aborted }) => if code != 0 {
            let n: u64 = if code < 0 {
                (code as i64 + 0x1_0000_0000) as u64
            } else {
                code as u64
            };
            let mut s = owned("删除失败（错误码 0x");
            push_hex_upper(&mut s, n);
            s.append("）");
            Some(Err(s))
        } else if aborted {
            Some(Err(owned("操作被取消")))
        } else {
            Some(Ok(()))
        },
        _ => None,
    }
}

/// Whether to open the properties of a path: not of an empty one.
pub fn open_properties(path: &str) -> (r: bool)
    ensures
        r == (path@.len() > 0),
{
    !is_empty(path)
}

/// What the system said when it was asked to make a link.
#[derive(Clone, Copy, Debug, PartialEq, Eq, Structural)]
pub enum CallReply {
    Unsupported,
    Succeeded,
    Failed(u32),
}

/// A step on the way to a link.
pub enum LinkStep {
    /// Ask the system, with these flags.
    Call(u32),
    Done(Result<(), String>),
}

/// What a [`LinkStep`] says.
pub enum LinkStepView {
    Call(u32),
    Done(Result<(), Seq<char>>),
}

impl View for LinkStep {
    type V = LinkStepView;

    open spec fn view(&self) -> LinkStepView {
        match self {
            LinkStep::Call(flags) => LinkStepView::Call(*flags),
            LinkStep::Done(r) => LinkStepView::Done(told(*r)),
        }
    }
}

/// The flag for a link to a directory.
pub const LINK_DIRECTORY: u32 = 1;

/// The flag that lets a user without special rights make a link.
pub const LINK_UNPRIVILEGED: u32 = 2;

/// The error of a system that does not know a flag.
pub const ERROR_INVALID_PARAMETER: u32 = 87;

/// The error of a user without the right to make links.
pub const ERROR_PRIVILEGE_NOT_HELD: u32 = 1314;

/// What is told when a link could not be made.
pub open spec fn link_error(code: u32) -> Seq<char> {
    "创建符号链接失败（错误码 "@ + decimal(code as nat) + "）"@ + if code
        == ERROR_PRIVILEGE_NOT_HELD {
        "（没有权限——请在「设置 > 系统 > 开发者选项」里打开开发者模式，或者以管理员身份运行本程序）"@
    } else {
        Seq::empty()
    }
}

/// The flags of the first try, and of the second.
pub open spec fn link_flags(is_dir: bool, first: bool) -> u32 {
    if is_dir && first {
        3
    } else if is_dir {
        1
    } else if first {
        2
    } else {
        0
    }
}

/// The step on the way to a link after up to two tries.
pub open spec fn link_step(
    is_dir: bool,
    first: Option<CallReply>,
    second: Option<CallReply>,
) -> LinkStepView {
    match first {
        None => LinkStepView::Call(link_flags(is_dir, true)),
        Some(CallReply::Unsupported) => LinkStepView::Done(Err(unsupported())),
        Some(CallReply::Succeeded) => LinkStepView::Done(Ok(())),
        Some(CallReply::Failed(code)) => if code != ERROR_INVALID_PARAMETER {
            LinkStepView::Done(Err(link_error(code)))
        } else {
            match second {
                None => LinkStepView::Call(link_flags(is_dir, false)),
                Some(CallReply::Unsupported) => LinkStepView::Done(Err(unsupported())),
                Some(CallReply::Succeeded) => LinkStepView::Done(Ok(())),
                Some(CallReply::Failed(again)) => LinkStepView::Done(Err(link_error(again))),
            }
        },
    }
}

fn link_failed(code: u32) -> (r: String)
    ensures
        r@ == link_error(code),
{
    let mut s = with_code("创建符号链接失败（错误码 ", code, "）");
    if code == ERROR_PRIVILEGE_NOT_HELD {
        s.append(
            "（没有权限——请在「设置 > 系统 > 开发者选项」里打开开发者模式，或者以管理员身份运行本程序）",
        );
    } else {
        assert(s@ =~= s@ + Seq::<char>::empty());
    }
    s
}

/// Makes a link: first with the flag for users without special rights, and without it where the
/// system does not know the flag.
pub fn create_symlink(is_dir: bool, first: Option<CallReply>, second: Option<CallReply>) -> (r:
    LinkStep)
    ensures
        r@ == link_step(is_dir, first, second),
{
    let base: u32 = if is_dir {
        LINK_DIRECTORY
    } else {
        0
    };
    match first {
        None => LinkStep::Call(base + LINK_UNPRIVILEGED),
        Some(CallReply::Unsupported) => LinkStep::Done(Err(owned("仅支持 Windows"))),
        Some(CallReply::Succeeded) => LinkStep::Done(Ok(())),
        Some(CallReply::Failed(code)) => {
            if code != ERROR_INVALID_PARAMETER {
                return LinkStep::Done(Err(link_failed(code)));
            }
            match second {
                None => LinkStep::Call(base),
                Some(CallReply::Unsupported) => LinkStep::Done(Err(owned("仅支持 Windows"))),
                Some(CallReply::Succeeded) => LinkStep::Done(Ok(())),
                Some(CallReply::Failed(again)) => LinkStep::Done(Err(link_failed(again))),
            }
        },
    }
}

/// The folder on a drive that migrated data goes to.
pub fn diskforge_base_dir(drive_letter: char) -> (r: String)
    ensures
        r@ == seq![upper_letter(drive_letter)] + ":\\DiskForge"@,
{
    let mut s = String::new();
    s.push(upper(drive_letter));
    s.append(":\\DiskForge");
    assert(s@ =~= seq![upper_letter(drive_letter)] + ":\\DiskForge"@);
    s
}

fn upper(c: char) -> (r: char)
    ensures
        r == upper_letter(c),
{
    if 'a' <= c && c <= 'z' {
        (c as u8 - 0x20u8) as char
    } else {
        c
    }
}

/// Whether a path starts with a drive and goes on behind it.
pub open spec fn has_drive(path: Seq<char>) -> bool {
    path.len() >= 3 && (path[0] as u32) < 0x80 && path[1] == ':'
}

/// Where a folder goes: its path below the base folder, with the drive as one more folder.
pub open spec fn mirrored_path(path: Seq<char>, base: Seq<char>) -> Result<Seq<char>, Seq<char>> {
    let rest = trim_start(path.skip(2), '\\');
    if !has_drive(path) {
        Err("无法识别的路径格式（不是标准的盘符路径，暂不支持迁移）: "@ + path)
    } else if rest.len() == 0 {
        Err("不支持直接迁移整个分区根目录"@)
    } else {
        Ok(
            trim_end(base, '\\').push('\\').push(upper_letter(path[0])).push('\\') + rest,
        )
    }
}

/// The text of an outcome that is a path or a message.
pub open spec fn told_path(r: Result<String, String>) -> Result<Seq<char>, Seq<char>> {
    match r {
        Ok(s) => Ok(s@),
        Err(e) => Err(e@),
    }
}

/// Where a folder goes when it is migrated: `C:\a\b` goes to `D:\DiskForge\C\a\b`.
pub fn mirrored_folder_target_path(source_path: &str, base_dir: &str) -> (r: Result<
    String,
    String,
>)
    ensures
        told_path(r) == mirrored_path(source_path@, base_dir@),
{
    let v = chars_of(source_path);
    if v.len() < 3 || v[0] as u32 >= 0x80 || v[1] != ':' {
        return Err(
            pair(
                "无法识别的路径格式（不是标准的盘符路径，暂不支持迁移）: ",
                source_path,
            ),
        );
    }
    let rest = trim_start_from(&v, 2, '\\');
    if is_empty(rest.as_str()) {
        return Err(owned("不支持直接迁移整个分区根目录"));
    }
    let mut s = trim_end_char(base_dir, '\\');
    s.push('\\');
    s.push(upper(v[0]));
    s.push('\\');
    s.append(rest.as_str());
    Ok(s)
}

/// Folders from different drives, or with different paths on one drive, never go to the same
/// place, upper and lower case of the drive letter and backslashes behind it aside.
pub proof fn law_mirrored_paths_differ(a: Seq<char>, b: Seq<char>, base: Seq<char>)
    requires
        mirrored_path(a, base) is Ok,
        mirrored_path(a, base) == mirrored_path(b, base),
    ensures
        upper_letter(a[0]) == upper_letter(b[0]),
        trim_start(a.skip(2), '\\') == trim_start(b.skip(2), '\\'),
{
    let front = trim_end(base, '\\').push('\\');
    let ra = trim_start(a.skip(2), '\\');
    let rb = trim_start(b.skip(2), '\\');
    let x = mirrored_path(a, base)->Ok_0;
    let y = mirrored_path(b, base)->Ok_0;
    let n = front.len() as int;
    assert(x[n] == upper_letter(a[0]));
    assert(y[n] == upper_letter(b[0]));
    assert(x.skip(n + 2) =~= ra);
    assert(y.skip(n + 2) =~= rb);
}

/// A path in the form that may be longer than 260 characters.
pub open spec fn extended_path(path: Seq<char>) -> Seq<char> {
    if "\\\\?\\"@.is_prefix_of(path) {
        path
    } else if "\\\\"@.is_prefix_of(path) {
        "\\\\?\\UNC\\"@ + path.skip(2)
    } else {
        "\\\\?\\"@ + path
    }
}

/// A path in the form that may be longer than 260 characters; one that is in it stays.
pub fn to_extended_length_path(path: &str) -> (r: String)
    ensures
        r@ == extended_path(path@),
{
    let v = chars_of(path);
    if starts_with(&v, "\\\\?\\") {
        return owned(path);
    }
    if starts_with(&v, "\\\\") {
        proof {
            reveal_strlit("\\\\");
        }
        let mut s = owned("\\\\?\\UNC\\");
        let mut k: usize = 2;
        let ghost front = s@;
        assert(front + v@.subrange(2, 2) =~= front);
        while k < v.len()
            invariant
                2 <= k <= v@.len(),
                s@ == front + v@.subrange(2, k as int),
            decreases v@.len() - k,
        {
            s.push(v[k]);
            k += 1;
            assert(v@.subrange(2, k as int) =~= v@.subrange(2, k - 1).push(v@[k - 1]));
            assert(s@ =~= front + v@.subrange(2, k as int));
        }
        assert(v@.subrange(2, k as int) =~= path@.skip(2));
        return s;
    }
    pair("\\\\?\\", path)
}

/// Putting a path into the long form twice is the same as once.
pub proof fn law_extended_path_stays(path: Seq<char>)
    ensures
        extended_path(extended_path(path)) == extended_path(path),
{
    reveal_strlit("\\\\?\\");
    reveal_strlit("\\\\?\\UNC\\");
    let e = extended_path(path);
    assert("\\\\?\\"@ =~= e.subrange(0, 4));
}

/// A process or service that holds a file open.
pub struct LockingProcess {
    pub pid: u32,
    /// What the user knows it by.
    pub app_name: String,
    /// The short name of the service, if it is one.
    pub service_name: Option<String>,
}

/// What a [`LockingProcess`] holds.
#[verifier::ext_equal]
pub struct LockerView {
    pub pid: u32,
    pub app_name: Seq<char>,
    pub service_name: Option<Seq<char>>,
}

impl View for LockingProcess {
    type V = LockerView;

    open spec fn view(&self) -> LockerView {
        LockerView {
            pid: self.pid,
            app_name: self.app_name@,
            service_name: text_option(self.service_name),
        }
    }
}

/// What a list of processes holds.
pub open spec fn lockers_view(v: Seq<LockingProcess>) -> Seq<LockerView> {
    Seq::new(v.len(), |i: int| v[i]@)
}

/// How a process is written.
pub open spec fn locker_text(p: LockerView) -> Seq<char> {
    match p.service_name {
        Some(svc) => p.app_name + "（服务 "@ + svc + "，PID "@ + decimal(p.pid as nat) + "）"@,
        None => p.app_name + "（PID "@ + decimal(p.pid as nat) + "）"@,
    }
}

/// How a list of processes is written.
pub open spec fn lockers_text(ps: Seq<LockerView>) -> Seq<char> {
    if ps.len() == 0 {
        Seq::empty()
    } else {
        "被 "@ + joined_by(Seq::new(ps.len(), |i: int| locker_text(ps[i])), "、"@) + "占用"@
    }
}

fn push_locker(s: &mut String, p: &LockingProcess)
    ensures
        final(s)@ == old(s)@ + locker_text(p@),
{
    s.append(p.app_name.as_str());
    match &p.service_name {
        Some(svc) => {
            s.append("（服务 ");
            s.append(svc.as_str());
            s.append("，PID ");
        },
        None => {
            s.append("（PID ");
        },
    }
    push_decimal(s, p.pid as u64);
    s.append("）");
    assert(s@ =~= old(s)@ + locker_text(p@));
}

/// Who holds a file open, in one line.
pub fn describe_locking_processes(procs: &[LockingProcess]) -> (r: String)
    ensures
        r@ == lockers_text(lockers_view(procs@)),
{
    let ghost ps = lockers_view(procs@);
    let ghost texts = Seq::new(ps.len(), |i: int| locker_text(ps[i]));
    if procs.len() == 0 {
        return String::new();
    }
    let mut s = owned("被 ");
    push_locker(&mut s, &procs[0]);
    let mut i: usize = 1;
    proof {
        reveal_with_fuel(joined_by, 2);
        assert(texts.take(1)[0] == texts[0]);
        assert(procs@[0]@ == ps[0]);
    }
    while i < procs.len()
        invariant
            1 <= i <= procs.len(),
            ps == lockers_view(procs@),
            texts == Seq::new(ps.len(), |i: int| locker_text(ps[i])),
            s@ == "被 "@ + joined_by(texts.take(i as int), "、"@),
        decreases procs.len() - i,
    {
        let ghost before = s@;
        s.append("、");
        push_locker(&mut s, &procs[i]);
        proof {
            assert(texts.take(i + 1).drop_last() =~= texts.take(i as int));
            assert(texts.take(i + 1).last() == texts[i as int]);
            assert(s@ =~= "被 "@ + joined_by(texts.take(i + 1), "、"@));
        }
        i += 1;
    }
    assert(texts.take(i as int) =~= texts);
    s.append("占用");
    s
}

/// What the system says of a process, names in UTF-16 with zeros behind them.
pub struct RawProcess {
    pub pid: u32,
    pub app_name: Vec<u16>,
    pub service_name: Vec<u16>,
}

/// A name as the system gives it, without the zeros behind it.
pub open spec fn system_name(u: Seq<u16>) -> Seq<char> {
    trim_end(utf16_lossy(u), '\0')
}

/// The process that the system speaks of. One without a name is known by its number.
pub open spec fn locker_of(p: RawProcess) -> LockerView {
    LockerView {
        pid: p.pid,
        app_name: if system_name(p.app_name@).len() == 0 {
            "(PID "@ + decimal(p.pid as nat) + ")"@
        } else {
            system_name(p.app_name@)
        },
        service_name: if system_name(p.service_name@).len() == 0 {
            None
        } else {
            Some(system_name(p.service_name@))
        },
    }
}

fn locking_process(p: &RawProcess) -> (r: LockingProcess)
    ensures
        r@ == locker_of(*p),
{
    let app = trim_end_char(from_utf16_lossy(p.app_name.as_slice()).as_str(), '\0');
    let svc = trim_end_char(from_utf16_lossy(p.service_name.as_slice()).as_str(), '\0');
    LockingProcess {
        pid: p.pid,
        app_name: if is_empty(app.as_str()) {
            with_code("(PID ", p.pid, ")")
        } else {
            app
        },
        service_name: if is_empty(svc.as_str()) {
            None
        } else {
            Some(svc)
        },
    }
}

/// What the system answered so far when it was asked who holds files open: the code of each
/// call, and what came with it.
pub struct LockFacts {
    pub started: Option<u32>,
    pub registered: Option<u32>,
    /// Code and number of processes.
    pub probed: Option<(u32, u32)>,
    pub listed: Option<(u32, Vec<RawProcess>)>,
}

/// A step of asking who holds files open.
pub enum LockStep {
    StartSession,
    /// Name the files, in the long form.
    Register(Vec<String>),
    /// Ask how many processes there are.
    Probe,
    /// Ask for that many processes.
    List(u32),
    Done(Result<Vec<LockingProcess>, String>),
}

/// What a [`LockStep`] says.
pub enum LockStepView {
    StartSession,
    Register(Seq<Seq<char>>),
    Probe,
    List(u32),
    Done(Result<Seq<LockerView>, Seq<char>>),
}

/// What a list of texts holds.
pub open spec fn strings_view(v: Seq<String>) -> Seq<Seq<char>> {
    Seq::new(v.len(), |i: int| v[i]@)
}

impl View for LockStep {
    type V = LockStepView;

    open spec fn view(&self) -> LockStepView {
        match self {
            LockStep::StartSession => LockStepView::StartSession,
            LockStep::Register(v) => LockStepView::Register(strings_view(v@)),
            LockStep::Probe => LockStepView::Probe,
            LockStep::List(n) => LockStepView::List(*n),
            LockStep::Done(Ok(v)) => LockStepView::Done(Ok(lockers_view(v@))),
            LockStep::Done(Err(e)) => LockStepView::Done(Err(e@)),
        }
    }
}

/// The paths that are not empty, in the long form.
pub open spec fn registered_paths(paths: Seq<&str>) -> Seq<Seq<char>>
    decreases paths.len(),
{
    if paths.len() == 0 {
        Seq::empty()
    } else {
        let rest = registered_paths(paths.drop_last());
        if paths.last()@.len() == 0 {
            rest
        } else {
            rest.push(extended_path(paths.last()@))
        }
    }
}

/// The code of a call that went well.
pub const ERROR_SUCCESS: u32 = 0;

/// The code of a call that has more to say than there was room for.
pub const ERROR_MORE_DATA: u32 = 234;

/// The step after what is known so far.
pub open spec fn lock_step(paths: Seq<&str>, f: LockFacts) -> LockStepView {
    if paths.len() == 0 {
        LockStepView::Done(Ok(Seq::empty()))
    } else {
        match f.started {
            None => LockStepView::StartSession,
            Some(code) if code != ERROR_SUCCESS => LockStepView::Done(
                Err("RmStartSession 失败（错误码 "@ + decimal(code as nat) + "）"@),
            ),
            Some(_) => if registered_paths(paths).len() == 0 {
                LockStepView::Done(Ok(Seq::empty()))
            } else {
                match f.registered {
                    None => LockStepView::Register(registered_paths(paths)),
                    Some(code) if code != ERROR_SUCCESS => LockStepView::Done(
                        Err("RmRegisterResources 失败（错误码 "@ + decimal(code as nat) + "）"@),
                    ),
                    Some(_) => lock_list_step(f),
                }
            },
        }
    }
}

/// The step once the files are named.
pub open spec fn lock_list_step(f: LockFacts) -> LockStepView {
    match f.probed {
        None => LockStepView::Probe,
        Some((code, needed)) => if code != ERROR_SUCCESS && code != ERROR_MORE_DATA {
            LockStepView::Done(
                Err("RmGetList（探测数量）失败（错误码 "@ + decimal(code as nat) + "）"@),
            )
        } else if needed == 0 {
            LockStepView::Done(Ok(Seq::empty()))
        } else {
            match f.listed {
                None => LockStepView::List(needed),
                Some((code, raw)) => if code != ERROR_SUCCESS {
                    LockStepView::Done(
                        Err("RmGetList（取列表）失败（错误码 "@ + decimal(code as nat) + "）"@),
                    )
                } else {
                    LockStepView::Done(Ok(Seq::new(raw@.len(), |i: int| locker_of(raw@[i]))))
                },
            }
        },
    }
}

fn paths_to_register(paths: &[&str]) -> (r: Vec<String>)
    ensures
        strings_view(r@) == registered_paths(paths@),
{
    let mut r: Vec<String> = Vec::new();
    let mut i: usize = 0;
    assert(strings_view(r@) =~= registered_paths(paths@.take(0)));
    while i < paths.len()
        invariant
            i <= paths.len(),
            strings_view(r@) == registered_paths(paths@.take(i as int)),
        decreases paths.len() - i,
    {
        assert(paths@.take(i + 1).drop_last() =~= paths@.take(i as int));
        if !is_empty(paths[i]) {
            let ghost before = r@;
            let p = to_extended_length_path(paths[i]);
            r.push(p);
            assert(strings_view(r@) =~= strings_view(before).push(p@));
        }
        i += 1;
    }
    assert(paths@.take(i as int) =~= paths@);
    r
}

fn list_lockers(f: &LockFacts) -> (r: LockStep)
    ensures
        r@ == lock_list_step(*f),
{
    let needed: u32 = match f.probed {
        None => return LockStep::Probe,
        Some((code, needed)) => {
            if code != ERROR_SUCCESS && code != ERROR_MORE_DATA {
                return LockStep::Done(
                    Err(with_code("RmGetList（探测数量）失败（错误码 ", code, "）")),
                );
            }
            needed
        },
    };
    if needed == 0 {
        let none: Vec<LockingProcess> = Vec::new();
        assert(lockers_view(none@) =~= Seq::<LockerView>::empty());
        return LockStep::Done(Ok(none));
    }
    match &f.listed {
        None => LockStep::List(needed),
        Some((code, raw)) => {
            if *code != ERROR_SUCCESS {
                return LockStep::Done(
                    Err(with_code("RmGetList（取列表）失败（错误码 ", *code, "）")),
                );
            }
            let mut out: Vec<LockingProcess> = Vec::new();
            let mut i: usize = 0;
            while i < raw.len()
                invariant
                    i <= raw.len(),
                    out@.len() == i,
                    forall|k: int| 0 <= k < i ==> (#[trigger] out@[k])@ == locker_of(raw@[k]),
                decreases raw.len() - i,
            {
                out.push(locking_process(&raw[i]));
                i += 1;
            }
            assert(lockers_view(out@) =~= Seq::new(raw@.len(), |i: int| locker_of(raw@[i])));
            LockStep::Done(Ok(out))
        },
    }
}

/// Finds who holds files open: the next step after what is known so far.
pub fn find_locking_processes(paths: &[&str], f: &LockFacts) -> (r: LockStep)
    ensures
        r@ == lock_step(paths@, *f),
{
    let none: Vec<LockingProcess> = Vec::new();
    assert(lockers_view(none@) =~= Seq::<LockerView>::empty());
    if paths.len() == 0 {
        return LockStep::Done(Ok(none));
    }
    match f.started {
        None => return LockStep::StartSession,
        Some(code) => {
            if code != ERROR_SUCCESS {
                return LockStep::Done(
                    Err(with_code("RmStartSession 失败（错误码 ", code, "）")),
                );
            }
        },
    }
    let wanted = paths_to_register(paths);
    assert(strings_view(wanted@).len() == wanted@.len());
    if wanted.len() == 0 {
        return LockStep::Done(Ok(none));
    }
    match f.registered {
        None => LockStep::Register(wanted),
        Some(code) => {
            if code != ERROR_SUCCESS {
                return LockStep::Done(
                    Err(with_code("RmRegisterResources 失败（错误码 ", code, "）")),
                );
            }
            list_lockers(f)
        },
    }
}

/// What a try at renaming tells of a folder.
pub enum FolderOccupancy {
    /// Nobody holds it: it could be renamed, and got its name back.
    Free,
    /// Somebody holds it.
    Locked,
    /// It could not be found out.
    Inconclusive(String),
}

/// What a [`FolderOccupancy`] says.
pub enum OccupancyView {
    Free,
    Locked,
    Inconclusive(Seq<char>),
}

impl View for FolderOccupancy {
    type V = OccupancyView;

    open spec fn view(&self) -> OccupancyView {
        match self {
            FolderOccupancy::Free => OccupancyView::Free,
            FolderOccupancy::Locked => OccupancyView::Locked,
            FolderOccupancy::Inconclusive(s) => OccupancyView::Inconclusive(s@),
        }
    }
}

/// How renaming went wrong: the system's code, if there is one, and its words.
pub struct RenameError {
    pub code: Option<i32>,
    pub text: String,
}

/// What is known of a folder that is tried by renaming.
pub struct RenameFacts {
    pub supported: bool,
    /// Whether the path has a parent.
    pub has_parent: bool,
    pub file_name: Option<String>,
    /// A number that makes the other name unlikely to be taken.
    pub nonce: u32,
    /// The path under the other name, as it is shown.
    pub temp_shown: String,
    pub renamed: Option<Result<(), RenameError>>,
    pub renamed_back: Option<Result<(), String>>,
}

/// A step of trying a folder by renaming.
pub enum RenameStep {
    /// Give the folder this name.
    Rename(String),
    /// Give it its own name back.
    RenameBack,
    Done(FolderOccupancy),
}

/// What a [`RenameStep`] says.
pub enum RenameStepView {
    Rename(Seq<char>),
    RenameBack,
    Done(OccupancyView),
}

impl View for RenameStep {
    type V = RenameStepView;

    open spec fn view(&self) -> RenameStepView {
        match self {
            RenameStep::Rename(s) => RenameStepView::Rename(s@),
            RenameStep::RenameBack => RenameStepView::RenameBack,
            RenameStep::Done(o) => RenameStepView::Done(o@),
        }
    }
}

/// The other name of a folder.
pub open spec fn temp_name(name: Seq<char>, nonce: u32) -> Seq<char> {
    name + ".diskforge_lockcheck_"@ + hex_lower_fixed(nonce as nat, 8)
}

/// The step of trying a folder by renaming after what is known so far.
pub open spec fn rename_step(f: RenameFacts) -> RenameStepView {
    if !f.supported {
        RenameStepView::Done(OccupancyView::Inconclusive("当前平台不支持这项检测"@))
    } else if !f.has_parent {
        RenameStepView::Done(OccupancyView::Inconclusive("无法解析上级目录"@))
    } else {
        match f.file_name {
            None => RenameStepView::Done(
                OccupancyView::Inconclusive("无法解析文件夹名"@),
            ),
            Some(name) => match f.renamed {
                None => RenameStepView::Rename(temp_name(name@, f.nonce)),
                Some(Err(e)) => RenameStepView::Done(
                    if e.code == Some(32i32) || e.code == Some(33i32) {
                        OccupancyView::Locked
                    } else {
                        OccupancyView::Inconclusive(
                            "重命名探测失败（"@ + e.text@
                                + "），可能是权限不足或者这是系统保护的特殊目录，也可能确实被占用，无法进一步确定"@,
                        )
                    },
                ),
                Some(Ok(_)) => match f.renamed_back {
                    None => RenameStepView::RenameBack,
                    Some(Ok(_)) => RenameStepView::Done(OccupancyView::Free),
                    Some(Err(e)) => RenameStepView::Done(
                        OccupancyView::Inconclusive(
                            "重命名探测完成后，改回原名失败！文件夹当前的实际路径是: "@
                                + f.temp_shown@ + "，请手动把它改回「"@ + name@ + "」: "@ + e@,
                        ),
                    ),
                },
            },
        }
    }
}

/// Finds out whether somebody holds a folder by giving it another name and its own name back.
/// Only the two errors for a conflict of locks say that it is held.
pub fn check_folder_occupied_by_rename(f: &RenameFacts) -> (r: RenameStep)
    ensures
        r@ == rename_step(*f),
{
    if !f.supported {
        return RenameStep::Done(
            FolderOccupancy::Inconclusive(owned("当前平台不支持这项检测")),
        );
    }
    if !f.has_parent {
        return RenameStep::Done(FolderOccupancy::Inconclusive(owned("无法解析上级目录")));
    }
    let name = match &f.file_name {
        None => {
            return RenameStep::Done(FolderOccupancy::Inconclusive(owned("无法解析文件夹名")))
        },
        Some(name) => name,
    };
    match &f.renamed {
        None => {
            let mut s = owned(name.as_str());
            s.append(".diskforge_lockcheck_");
            push_hex_lower_fixed(&mut s, f.nonce as u64, 8);
            RenameStep::Rename(s)
        },
        Some(Err(e)) => {
            let locked = match e.code {
                Some(c) => c == 32 || c == 33,
                None => false,
            };
            if locked {
                RenameStep::Done(FolderOccupancy::Locked)
            } else {
                RenameStep::Done(
                    FolderOccupancy::Inconclusive(
                        triple(
                            "重命名探测失败（",
                            e.text.as_str(),
                            "），可能是权限不足或者这是系统保护的特殊目录，也可能确实被占用，无法进一步确定",
                        ),
                    ),
                )
            }
        },
        Some(Ok(_)) => match &f.renamed_back {
            None => RenameStep::RenameBack,
            Some(Ok(_)) => RenameStep::Done(FolderOccupancy::Free),
            Some(Err(e)) => {
                let mut s = triple(
                    "重命名探测完成后，改回原名失败！文件夹当前的实际路径是: ",
                    f.temp_shown.as_str(),
                    "，请手动把它改回「",
                );
                s.append(name.as_str());
                s.append("」: ");
                s.append(e.as_str());
                RenameStep::Done(FolderOccupancy::Inconclusive(s))
            },
        },
    }
}

/// A folder that was renamed gets its name back before anything is said of it.
pub proof fn law_renamed_folder_gets_its_name_back(f: RenameFacts)
    requires
        f.supported,
        f.has_parent,
        f.file_name is Some,
        f.renamed is Some,
        f.renamed->0 is Ok,
    ensures
        f.renamed_back is None ==> rename_step(f) is RenameBack,
        rename_step(f) matches RenameStepView::Done(OccupancyView::Free) ==> f.renamed_back is Some
            && f.renamed_back->0 is Ok,
{
}

/// A link that stands where a file or folder stood.
pub open spec fn symlink_node(
    path: Seq<char>,
    name: Seq<char>,
    is_dir: bool,
    old: NodeView,
    size: u64,
) -> NodeView {
    let n = if is_dir {
        folder_view(
            name,
            old.color,
            Seq::empty(),
            old.modified_ft,
            old.created_ft,
            old.accessed_ft,
            0x410,
            IO_REPARSE_TAG_SYMLINK,
            false,
            old.owner,
        )
    } else {
        file_view(
            name,
            size,
            size,
            old.color,
            old.modified_ft,
            old.created_ft,
            old.accessed_ft,
            0x400,
            IO_REPARSE_TAG_SYMLINK,
            false,
            old.owner,
        )
    };
    if old.full_path_override is Some {
        NodeView { full_path_override: Some(path), ..n }
    } else {
        n
    }
}

/// The node of a link that has just been made in place of another node. `size` is what the
/// system says of the link itself, 0 where it says nothing.
pub fn build_refreshed_symlink_node(
    path: &str,
    name: &str,
    is_dir: bool,
    old: &Node,
    size: u64,
) -> (r: Node)
    ensures
        r@ == symlink_node(path@, name@, is_dir, old@, size),
{
    let node = if is_dir {
        let none: Vec<Node> = Vec::new();
        assert(forest_view(none@) =~= Seq::<NodeView>::empty());
        Node::new_folder_with_meta(
            owned(name),
            old.color,
            none,
            old.modified_ft,
            old.created_ft,
            old.accessed_ft,
            0x410,
            IO_REPARSE_TAG_SYMLINK,
            false,
            old.owner.clone(),
        )
    } else {
        Node::new_file_with_meta(
            owned(name),
            size,
            size,
            old.color,
            old.modified_ft,
            old.created_ft,
            old.accessed_ft,
            0x400,
            IO_REPARSE_TAG_SYMLINK,
            false,
            old.owner.clone(),
        )
    };
    match &old.full_path_override {
        Some(_) => node.with_full_path(owned(path)),
        None => node,
    }
}

/// What the system said when it was asked to end a process.
pub struct KillFacts {
    pub supported: bool,
    pub opened: Option<Result<(), u32>>,
    pub ended: Option<Result<(), u32>>,
}

/// A step of ending a process.
pub enum KillStep {
    Open,
    End,
    Done(Result<(), String>),
}

/// What a [`KillStep`] says.
pub enum KillStepView {
    Open,
    End,
    Done(Result<(), Seq<char>>),
}

impl View for KillStep {
    type V = KillStepView;

    open spec fn view(&self) -> KillStepView {
        match self {
            KillStep::Open => KillStepView::Open,
            KillStep::End => KillStepView::End,
            KillStep::Done(r) => KillStepView::Done(told(*r)),
        }
    }
}

/// The step of ending a process after what is known so far.
pub open spec fn kill_step(pid: u32, f: KillFacts) -> KillStepView {
    if !f.supported {
        KillStepView::Done(Err(unsupported()))
    } else if pid == 0 {
        KillStepView::Done(Err("无效的 PID"@))
    } else {
        match f.opened {
            None => KillStepView::Open,
            Some(Err(code)) => KillStepView::Done(
                Err(
                    "打开进程失败（错误码 "@ + decimal(code as nat)
                        + "，常见原因是权限不够——试试以管理员身份运行）"@,
                ),
            ),
            Some(Ok(_)) => match f.ended {
                None => KillStepView::End,
                Some(Err(code)) => KillStepView::Done(
                    Err("结束进程失败（错误码 "@ + decimal(code as nat) + "）"@),
                ),
                Some(Ok(_)) => KillStepView::Done(Ok(())),
            },
        }
    }
}

/// Ends a process: the next step after what is known so far.
pub fn terminate_process(pid: u32, f: &KillFacts) -> (r: KillStep)
    ensures
        r@ == kill_step(pid, *f),
{
    if !f.supported {
        return KillStep::Done(Err(owned("仅支持 Windows")));
    }
    if pid == 0 {
        return KillStep::Done(Err(owned("无效的 PID")));
    }
    match f.opened {
        None => KillStep::Open,
        Some(Err(code)) => KillStep::Done(
            Err(
                with_code(
                    "打开进程失败（错误码 ",
                    code,
                    "，常见原因是权限不够——试试以管理员身份运行）",
                ),
            ),
        ),
        Some(Ok(_)) => match f.ended {
            None => KillStep::End,
            Some(Err(code)) => KillStep::Done(
                Err(with_code("结束进程失败（错误码 ", code, "）")),
            ),
            Some(Ok(_)) => KillStep::Done(Ok(())),
        },
    }
}

/// What the system said when it was asked to stop a service.
pub struct ServiceFacts {
    pub supported: bool,
    pub manager: Option<Result<(), u32>>,
    pub service: Option<Result<(), u32>>,
    pub stopped: Option<Result<(), u32>>,
}

/// A step of stopping a service.
pub enum ServiceStep {
    OpenManager,
    OpenService,
    Stop,
    Done(Result<(), String>),
}

/// What a [`ServiceStep`] says.
pub enum ServiceStepView {
    OpenManager,
    OpenService,
    Stop,
    Done(Result<(), Seq<char>>),
}

impl View for ServiceStep {
    type V = ServiceStepView;

    open spec fn view(&self) -> ServiceStepView {
        match self {
            ServiceStep::OpenManager => ServiceStepView::OpenManager,
            ServiceStep::OpenService => ServiceStepView::OpenService,
            ServiceStep::Stop => ServiceStepView::Stop,
            ServiceStep::Done(r) => ServiceStepView::Done(told(*r)),
        }
    }
}

/// The error that other services need a service.
pub const ERROR_DEPENDENT_SERVICES_RUNNING: u32 = 1051;

/// The step of stopping a service after what is known so far.
pub open spec fn service_step(name: Seq<char>, f: ServiceFacts) -> ServiceStepView {
    if !f.supported {
        ServiceStepView::Done(Err(unsupported()))
    } else if name.len() == 0 {
        ServiceStepView::Done(Err("服务名为空"@))
    } else {
        match f.manager {
            None => ServiceStepView::OpenManager,
            Some(Err(code)) => ServiceStepView::Done(
                Err(
                    "打开服务控制管理器失败（错误码 "@ + decimal(code as nat)
                        + "，常见原因是权限不够——试试以管理员身份运行）"@,
                ),
            ),
            Some(Ok(_)) => match f.service {
                None => ServiceStepView::OpenService,
                Some(Err(code)) => ServiceStepView::Done(
                    Err("打开服务失败（错误码 "@ + decimal(code as nat) + "）"@),
                ),
                Some(Ok(_)) => match f.stopped {
                    None => ServiceStepView::Stop,
                    Some(Ok(_)) => ServiceStepView::Done(Ok(())),
                    Some(Err(code)) => ServiceStepView::Done(
                        Err(
                            if code == ERROR_DEPENDENT_SERVICES_RUNNING {
                                "有其它服务依赖这个服务，需要先停掉那些服务（可以打开系统自带的\"服务\"管理器，找到这个服务，在\"依存关系\"标签页里看依赖它的服务有哪些）"@
                            } else {
                                "停止服务失败（错误码 "@ + decimal(code as nat) + "）"@
                            },
                        ),
                    ),
                },
            },
        }
    }
}

/// Stops a service: the next step after what is known so far.
pub fn stop_service(service_name: &str, f: &ServiceFacts) -> (r: ServiceStep)
    ensures
        r@ == service_step(service_name@, *f),
{
    if !f.supported {
        return ServiceStep::Done(Err(owned("仅支持 Windows")));
    }
    if is_empty(service_name) {
        return ServiceStep::Done(Err(owned("服务名为空")));
    }
    match f.manager {
        None => ServiceStep::OpenManager,
        Some(Err(code)) => ServiceStep::Done(
            Err(
                with_code(
                    "打开服务控制管理器失败（错误码 ",
                    code,
                    "，常见原因是权限不够——试试以管理员身份运行）",
                ),
            ),
        ),
        Some(Ok(_)) => match f.service {
            None => ServiceStep::OpenService,
            Some(Err(code)) => ServiceStep::Done(
                Err(with_code("打开服务失败（错误码 ", code, "）")),
            ),
            Some(Ok(_)) => match f.stopped {
                None => ServiceStep::Stop,
                Some(Ok(_)) => ServiceStep::Done(Ok(())),
                Some(Err(code)) => ServiceStep::Done(
                    Err(
                        if code == ERROR_DEPENDENT_SERVICES_RUNNING {
                            owned(
                                "有其它服务依赖这个服务，需要先停掉那些服务（可以打开系统自带的\"服务\"管理器，找到这个服务，在\"依存关系\"标签页里看依赖它的服务有哪些）",
                            )
                        } else {
                            with_code("停止服务失败（错误码 ", code, "）")
                        },
                    ),
                ),
            },
        },
    }
}

} // verus!
