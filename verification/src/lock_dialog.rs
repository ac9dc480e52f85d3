//! What the dialog about who holds something open shows, and what its buttons do.

use vstd::prelude::*;
use vstd::string::*;

use crate::file_ops::{
    pair, strings_view, triple, FolderOccupancy, LockingProcess, OccupancyView,
};
use crate::layered_probe::next_layer;
use crate::lock_check::{
    occupancy_option, LayerStats, LayeredProbe, LockCheckResult, LockPanel, LockResultView, ProbeView,
};
use crate::text::{decimal, joined_by, owned, push_decimal};

verus! {

/// How a line is meant.
#[derive(Clone, Copy, Debug, PartialEq, Eq, Structural)]
pub enum Tone {
    Plain,
    Good,
    Bad,
    Warning,
    Weak,
}

/// The buttons of the dialog that do not belong to one process.
#[derive(Clone, Copy, Debug, PartialEq, Eq, Structural)]
pub enum DialogButton {
    /// Search the folder layer by layer.
    StartLayered,
    /// End everything the search found, then go on.
    LayeredTerminateAll,
    /// Go on with the search and leave what it found alone.
    LayeredSkip,
    /// Go on with the search.
    LayeredAdvance,
    /// End everything that was found.
    TerminateAll,
}

/// A part of the dialog.
pub enum Part {
    /// Something is going on.
    Busy(String),
    Line(Tone, String),
    Button(DialogButton),
    /// The processes that the search found.
    ProbeProcesses,
    /// The processes that hold what was asked about.
    ResultProcesses,
}

/// What a [`Part`] holds.
#[verifier::ext_equal]
pub enum PartView {
    Busy(Seq<char>),
    Line(Tone, Seq<char>),
    Button(DialogButton),
    ProbeProcesses,
    ResultProcesses,
}

impl View for Part {
    type V = PartView;

    open spec fn view(&self) -> PartView {
        match self {
            Part::Busy(s) => PartView::Busy(s@),
            Part::Line(t, s) => PartView::Line(*t, s@),
            Part::Button(b) => PartView::Button(*b),
            Part::ProbeProcesses => PartView::ProbeProcesses,
            Part::ResultProcesses => PartView::ResultProcesses,
        }
    }
}

/// What a list of parts holds.
pub open spec fn parts_view(v: Seq<Part>) -> Seq<PartView> {
    Seq::new(v.len(), |i: int| v[i]@)
}

/// What is said of a folder that was tried by renaming.
pub open spec fn rename_part(o: Option<OccupancyView>) -> Seq<PartView> {
    match o {
        Some(OccupancyView::Free) => seq![
            PartView::Line(
                Tone::Good,
                "✓ 重命名探测：没有被占用，可以放心删除/创建符号链接了。"@,
            ),
        ],
        Some(OccupancyView::Locked) => seq![
            PartView::Line(Tone::Bad, "⚠ 重命名探测：确定被占用（共享/锁冲突）。"@),
        ],
        Some(OccupancyView::Inconclusive(reason)) => seq![
            PartView::Line(
                Tone::Warning,
                "❔ 重命名探测：无法确定是否被占用——"@ + reason,
            ),
        ],
        None => Seq::empty(),
    }
}

/// What is said of a layer that is done.
pub open spec fn stats_text(s: LayerStats) -> Seq<char> {
    "第 "@ + decimal(s.layer as nat) + " 层：检查了 "@ + decimal(s.subfolders_checked as nat)
        + " 个子文件夹（"@ + decimal(s.subfolders_locked as nat) + " 个没通过重命名探测）、"@
        + decimal(s.files_checked as nat) + " 个文件，这一层新发现 "@ + decimal(
        s.new_procs_found as nat,
    ) + " 个占用进程/服务。"@
}

/// Where a search has got to.
pub open spec fn progress_part(q: ProbeView) -> Seq<PartView> {
    if q.pending is Some {
        seq![PartView::Busy("正在检测第 "@ + decimal(next_layer(q.layer) as nat) + " 层……"@)]
    } else {
        match q.last_layer_stats {
            Some(s) => seq![PartView::Line(Tone::Plain, stats_text(s))],
            None => Seq::empty(),
        }
    }
}

/// What a search has found so far, or in the end.
pub open spec fn finding_part(q: ProbeView) -> Seq<PartView> {
    if q.exhausted && q.pending is None {
        if q.procs.len() == 0 {
            seq![
                PartView::Line(
                    Tone::Warning,
                    "已经查到最深层，没有发现明确占用的进程/服务——如果仍然打不开/删不掉，更可能是权限不足或者系统保护目录，不是被占用。"@,
                ),
            ]
        } else {
            seq![
                PartView::Line(
                    Tone::Bad,
                    "已经查到最深层，共发现 "@ + decimal(q.procs.len()) + " 个占用进程/服务："@,
                ),
            ]
        }
    } else if q.procs.len() > 0 {
        seq![
            PartView::Line(
                Tone::Warning,
                "目前累计发现 "@ + decimal(q.procs.len()) + " 个占用进程/服务："@,
            ),
        ]
    } else {
        Seq::empty()
    }
}

/// What can be done about a search.
pub open spec fn choice_part(q: ProbeView) -> Seq<PartView> {
    let can_go_on = !q.exhausted && q.pending is None;
    if q.procs.len() > 0 {
        seq![PartView::Button(DialogButton::LayeredTerminateAll)] + (if can_go_on {
            seq![PartView::Button(DialogButton::LayeredSkip)]
        } else {
            Seq::empty()
        }) + seq![PartView::ProbeProcesses]
    } else if can_go_on {
        seq![PartView::Button(DialogButton::LayeredAdvance)]
    } else {
        Seq::empty()
    }
}

/// Whether the answer is that the folder is free.
pub open spec fn is_free(r: LockResultView) -> bool {
    r.rename_probe matches Some(OccupancyView::Free)
}

/// Who holds what was asked about.
pub open spec fn holder_part(r: LockResultView) -> Seq<PartView> {
    if r.procs.len() == 0 {
        if r.rename_probe is None {
            seq![
                PartView::Line(
                    Tone::Good,
                    "✓ 没有检测到占用，可以放心删除/创建符号链接了。"@,
                ),
            ]
        } else {
            seq![
                PartView::Line(
                    Tone::Weak,
                    "Restart Manager 没有在检查过的文件里找到具体占用的进程（可能占用的是没查到的文件，也可能是权限一类的问题）。"@,
                ),
            ]
        }
    } else {
        seq![
            PartView::Line(
                Tone::Warning,
                "找到 "@ + decimal(r.procs.len())
                    + " 个进程/服务正在占用，处理完下面这些就能继续了："@,
            ),
            PartView::Button(DialogButton::TerminateAll),
            PartView::ResultProcesses,
        ]
    }
}

/// What the dialog shows below the name of what was asked about. A folder that is not free can
/// be searched layer by layer; while that goes on, only what it finds is shown.
pub open spec fn dialog_parts(r: LockResultView, probe: Option<ProbeView>) -> Seq<PartView> {
    if r.loading {
        seq![PartView::Busy("正在检测占用……（不会卡住界面，可以先做别的事）"@)]
    } else if r.error is Some {
        seq![PartView::Line(Tone::Bad, "检测失败："@ + r.error->0)]
    } else {
        rename_part(r.rename_probe) + (match probe {
            Some(q) => progress_part(q) + finding_part(q) + choice_part(q),
            None => (if r.request.is_folder && !is_free(r) {
                seq![PartView::Button(DialogButton::StartLayered)]
            } else {
                Seq::empty()
            }) + (if is_free(r) {
                Seq::empty()
            } else {
                holder_part(r)
            }),
        })
    }
}

fn append_part(v: &mut Vec<Part>, p: Part)
    ensures
        parts_view(final(v)@) == parts_view(old(v)@) + seq![p@],
{
    let ghost before = v@;
    let ghost pv = p@;
    v.push(p);
    assert(parts_view(v@) =~= parts_view(before) + seq![pv]);
}

fn counted(front: &str, n: usize, back: &str) -> (r: String)
    ensures
        r@ == front@ + decimal(n as nat) + back@,
{
    let mut s = owned(front);
    push_decimal(&mut s, n as u64);
    s.append(back);
    s
}

fn stats_line(s: LayerStats) -> (r: String)
    ensures
        r@ == stats_text(s),
{
    let mut t = owned("第 ");
    push_decimal(&mut t, s.layer as u64);
    t.append(" 层：检查了 ");
    push_decimal(&mut t, s.subfolders_checked as u64);
    t.append(" 个子文件夹（");
    push_decimal(&mut t, s.subfolders_locked as u64);
    t.append(" 个没通过重命名探测）、");
    push_decimal(&mut t, s.files_checked as u64);
    t.append(" 个文件，这一层新发现 ");
    push_decimal(&mut t, s.new_procs_found as u64);
    t.append(" 个占用进程/服务。");
    t
}

fn add_rename(v: &mut Vec<Part>, o: &Option<FolderOccupancy>)
    ensures
        parts_view(final(v)@) == parts_view(old(v)@) + rename_part(occupancy_option(*o)),
{
    match o {
        Some(FolderOccupancy::Free) => {
            append_part(
                v,
                Part::Line(
                    Tone::Good,
                    owned("✓ 重命名探测：没有被占用，可以放心删除/创建符号链接了。"),
                ),
            );
        },
        Some(FolderOccupancy::Locked) => {
            append_part(
                v,
                Part::Line(Tone::Bad, owned("⚠ 重命名探测：确定被占用（共享/锁冲突）。")),
            );
        },
        Some(FolderOccupancy::Inconclusive(reason)) => {
            append_part(
                v,
                Part::Line(
                    Tone::Warning,
                    pair("❔ 重命名探测：无法确定是否被占用——", reason.as_str()),
                ),
            );
        },
        None => {
            assert(parts_view(v@) + Seq::<PartView>::empty() =~= parts_view(v@));
        },
    }
}

fn add_probe(v: &mut Vec<Part>, q: &LayeredProbe)
    ensures
        parts_view(final(v)@) == parts_view(old(v)@) + (progress_part(q@) + finding_part(q@)
            + choice_part(q@)),
{
    let ghost start = parts_view(v@);
    let n: usize = q.procs.len();
    let waits = q.pending.is_some();
    if waits {
        let layer: usize = if q.layer == usize::MAX {
            q.layer
        } else {
            q.layer + 1
        };
        append_part(v, Part::Busy(counted("正在检测第 ", layer, " 层……")));
    } else if let Some(s) = q.last_layer_stats {
        append_part(v, Part::Line(Tone::Plain, stats_line(s)));
    }
    assert(parts_view(v@) =~= start + progress_part(q@));
    if q.exhausted && !waits {
        if n == 0 {
            append_part(
                v,
                Part::Line(
                    Tone::Warning,
                    owned(
                        "已经查到最深层，没有发现明确占用的进程/服务——如果仍然打不开/删不掉，更可能是权限不足或者系统保护目录，不是被占用。",
                    ),
                ),
            );
        } else {
            append_part(
                v,
                Part::Line(
                    Tone::Bad,
                    counted("已经查到最深层，共发现 ", n, " 个占用进程/服务："),
                ),
            );
        }
    } else if n > 0 {
        append_part(
            v,
            Part::Line(Tone::Warning, counted("目前累计发现 ", n, " 个占用进程/服务：")),
        );
    }
    assert(parts_view(v@) =~= start + progress_part(q@) + finding_part(q@));
    let can_go_on = !q.exhausted && !waits;
    if n > 0 {
        append_part(v, Part::Button(DialogButton::LayeredTerminateAll));
        if can_go_on {
            append_part(v, Part::Button(DialogButton::LayeredSkip));
        }
        append_part(v, Part::ProbeProcesses);
    } else if can_go_on {
        append_part(v, Part::Button(DialogButton::LayeredAdvance));
    }
    assert(parts_view(v@) =~= start + (progress_part(q@) + finding_part(q@) + choice_part(q@)));
}

fn add_holders(v: &mut Vec<Part>, r: &LockCheckResult)
    ensures
        parts_view(final(v)@) == parts_view(old(v)@) + holder_part(r@),
{
    let ghost start = parts_view(v@);
    let n: usize = r.procs.len();
    if n == 0 {
        if r.rename_probe.is_none() {
            append_part(
                v,
                Part::Line(
                    Tone::Good,
                    owned("✓ 没有检测到占用，可以放心删除/创建符号链接了。"),
                ),
            );
        } else {
            append_part(
                v,
                Part::Line(
                    Tone::Weak,
                    owned(
                        "Restart Manager 没有在检查过的文件里找到具体占用的进程（可能占用的是没查到的文件，也可能是权限一类的问题）。",
                    ),
                ),
            );
        }
    } else {
        append_part(
            v,
            Part::Line(
                Tone::Warning,
                counted("找到 ", n, " 个进程/服务正在占用，处理完下面这些就能继续了："),
            ),
        );
        append_part(v, Part::Button(DialogButton::TerminateAll));
        append_part(v, Part::ResultProcesses);
    }
    assert(parts_view(v@) =~= start + holder_part(r@));
}

impl LockPanel {
    /// What the dialog shows below the name of what was asked about; nothing where it is closed.
    pub fn show_lock_check_modal(&self) -> (r: Option<Vec<Part>>)
        ensures
            match r {
                Some(v) => self@.result is Some && parts_view(v@) == dialog_parts(
                    self@.result->0,
                    self@.probe,
                ),
                None => self@.result is None,
            },
    {
        let result = match &self.result {
            Some(x) => x,
            None => return None,
        };
        let mut v: Vec<Part> = Vec::new();
        let ghost want = dialog_parts(result@, self@.probe);
        assert(parts_view(v@) =~= Seq::<PartView>::empty());
        if result.loading {
            append_part(
                &mut v,
                Part::Busy(owned("正在检测占用……（不会卡住界面，可以先做别的事）")),
            );
            assert(parts_view(v@) =~= want);
            return Some(v);
        }
        if let Some(e) = &result.error {
            append_part(&mut v, Part::Line(Tone::Bad, pair("检测失败：", e.as_str())));
            assert(parts_view(v@) =~= want);
            return Some(v);
        }
        add_rename(&mut v, &result.rename_probe);
        let free = match &result.rename_probe {
            Some(FolderOccupancy::Free) => true,
            _ => false,
        };
        match &self.probe {
            Some(q) => {
                add_probe(&mut v, q);
            },
            None => {
                if result.request.is_folder && !free {
                    append_part(&mut v, Part::Button(DialogButton::StartLayered));
                }
                if !free {
                    add_holders(&mut v, result);
                }
            },
        }
        assert(parts_view(v@) =~= want);
        Some(v)
    }
}

/// What was clicked in the dialog in one frame.
pub struct DialogClicks {
    pub terminate_pid: Option<u32>,
    pub terminate_all: bool,
    pub stop_service: Option<String>,
    pub refresh: bool,
    pub start_layered: bool,
    pub layered_terminate_all: bool,
    pub layered_advance: bool,
    pub close: bool,
}

/// What the dialog asks for.
pub enum DialogAction {
    Nothing,
    Terminate(u32),
    TerminateAll,
    StopService(String),
    Refresh,
    StartLayered,
    LayeredTerminateAll,
    LayeredAdvance,
    Close,
}

/// What a [`DialogAction`] says.
#[verifier::ext_equal]
pub enum DialogView {
    Nothing,
    Terminate(u32),
    TerminateAll,
    StopService(Seq<char>),
    Refresh,
    StartLayered,
    LayeredTerminateAll,
    LayeredAdvance,
    Close,
}

impl View for DialogAction {
    type V = DialogView;

    open spec fn view(&self) -> DialogView {
        match self {
            DialogAction::Nothing => DialogView::Nothing,
            DialogAction::Terminate(pid) => DialogView::Terminate(*pid),
            DialogAction::TerminateAll => DialogView::TerminateAll,
            DialogAction::StopService(s) => DialogView::StopService(s@),
            DialogAction::Refresh => DialogView::Refresh,
            DialogAction::StartLayered => DialogView::StartLayered,
            DialogAction::LayeredTerminateAll => DialogView::LayeredTerminateAll,
            DialogAction::LayeredAdvance => DialogView::LayeredAdvance,
            DialogAction::Close => DialogView::Close,
        }
    }
}

/// What the clicks of one frame ask for: only one thing, the most specific first.
pub fn dialog_action(c: DialogClicks) -> (r: DialogAction)
    ensures
        r@ == if c.terminate_pid is Some {
            DialogView::Terminate(c.terminate_pid->0)
        } else if c.terminate_all {
            DialogView::TerminateAll
        } else if c.stop_service is Some {
            DialogView::StopService(c.stop_service->0@)
        } else if c.refresh {
            DialogView::Refresh
        } else if c.start_layered {
            DialogView::StartLayered
        } else if c.layered_terminate_all {
            DialogView::LayeredTerminateAll
        } else if c.layered_advance {
            DialogView::LayeredAdvance
        } else if c.close {
            DialogView::Close
        } else {
            DialogView::Nothing
        },
{
    if let Some(pid) = c.terminate_pid {
        return DialogAction::Terminate(pid);
    }
    if c.terminate_all {
        return DialogAction::TerminateAll;
    }
    if let Some(s) = c.stop_service {
        return DialogAction::StopService(s);
    }
    if c.refresh {
        DialogAction::Refresh
    } else if c.start_layered {
        DialogAction::StartLayered
    } else if c.layered_terminate_all {
        DialogAction::LayeredTerminateAll
    } else if c.layered_advance {
        DialogAction::LayeredAdvance
    } else if c.close {
        DialogAction::Close
    } else {
        DialogAction::Nothing
    }
}

/// The line below the name of a process.
pub fn process_line(p: &LockingProcess) -> (r: String)
    ensures
        r@ == "PID "@ + decimal(p.pid as nat) + match p@.service_name {
            Some(svc) => " · 服务: "@ + svc,
            None => Seq::empty(),
        },
{
    let mut s = owned("PID ");
    push_decimal(&mut s, p.pid as u64);
    let ghost start = s@;
    match &p.service_name {
        Some(svc) => {
            s.append(" · 服务: ");
            s.append(svc.as_str());
            assert(s@ =~= start + (" · 服务: "@ + svc@));
        },
        None => {
            assert(start + Seq::<char>::empty() =~= start);
        },
    }
    s
}

/// What the user is told once a process was to be ended.
pub fn ended_line(pid: u32, result: &Result<(), String>) -> (r: String)
    ensures
        r@ == match result {
            Ok(_) => "已结束进程 PID "@ + decimal(pid as nat) + "。"@,
            Err(e) => "结束进程失败："@ + e@,
        },
{
    match result {
        Ok(_) => counted("已结束进程 PID ", pid as usize, "。"),
        Err(e) => pair("结束进程失败：", e.as_str()),
    }
}

/// What the user is told once a service was to be stopped, during a search or otherwise.
pub fn stopped_line(name: &str, result: &Result<(), String>, searching: bool) -> (r: String)
    ensures
        r@ == match result {
            Ok(_) => "已发送停止请求给服务 "@ + name@ + if searching {
                "（服务真正停下来可能要几秒）。"@
            } else {
                "（服务真正停下来可能要几秒，如果刷新后还在列表里，稍等一下再检测一次）。"@
            },
            Err(e) => "停止服务失败："@ + e@,
        },
{
    match result {
        Ok(_) => triple(
            "已发送停止请求给服务 ",
            name,
            if searching {
                "（服务真正停下来可能要几秒）。"
            } else {
                "（服务真正停下来可能要几秒，如果刷新后还在列表里，稍等一下再检测一次）。"
            },
        ),
        Err(e) => pair("停止服务失败：", e.as_str()),
    }
}

/// How a process that could not be ended is written.
pub fn failure_line(p: &LockingProcess, error: &str) -> (r: String)
    ensures
        r@ == p.app_name@ + "（PID "@ + decimal(p.pid as nat) + "）: "@ + error@,
{
    let mut s = owned(p.app_name.as_str());
    s.append("（PID ");
    push_decimal(&mut s, p.pid as u64);
    s.append("）: ");
    s.append(error);
    s
}

/// What the user is told once everything was to be ended.
pub fn ended_all_line(ok_count: usize, failures: &Vec<String>) -> (r: String)
    ensures
        r@ == if failures@.len() == 0 {
            "已结束全部 "@ + decimal(ok_count as nat) + " 个占用进程。"@
        } else {
            "已结束 "@ + decimal(ok_count as nat) + " 个进程，"@ + decimal(failures@.len())
                + " 个失败——"@ + joined_by(strings_view(failures@), "；"@)
        },
{
    if failures.len() == 0 {
        return counted("已结束全部 ", ok_count, " 个占用进程。");
    }
    let mut s = counted("已结束 ", ok_count, " 个进程，");
    push_decimal(&mut s, failures.len() as u64);
    s.append(" 个失败——");
    let ghost start = s@;
    let ghost texts = strings_view(failures@);
    s.append(failures[0].as_str());
    let mut i: usize = 1;
    proof {
        reveal_with_fuel(joined_by, 2);
        assert(texts.take(1)[0] == texts[0]);
    }
    while i < failures.len()
        invariant
            1 <= i <= failures.len(),
            texts == strings_view(failures@),
            s@ == start + joined_by(texts.take(i as int), "；"@),
        decreases failures.len() - i,
    {
        let ghost before = s@;
        s.append("；");
        s.append(failures[i].as_str());
        proof {
            assert(texts.take(i + 1).drop_last() =~= texts.take(i as int));
            assert(texts.take(i + 1).last() == failures@[i as int]@);
            assert(s@ =~= start + joined_by(texts.take(i + 1), "；"@));
        }
        i += 1;
    }
    assert(texts.take(i as int) =~= texts);
    s
}

} // verus!
