//! What the window shows: which partition it is about, what the active tab has to show, and the
//! words of its smaller dialogs.

use vstd::prelude::*;
use vstd::string::*;

use crate::about::{APP_AUTHOR, APP_EMAIL, APP_NAME, APP_VERSION, COPYRIGHT_LINE};
use crate::dedup::HashPhase;
use crate::file_ops::{is_empty, triple};
use crate::pane::Pane;
use crate::session::{Effect, EffectView, Session, SessionView};
use crate::session_tabs::{copy_opened, duplicates_opened, extensions_opened, search_opened};
use crate::tabs::{Loading, TabKind, TabView};
use crate::text::{decimal, owned, push_decimal};

verus! {

/// What the active tab has to show.
#[derive(Clone, Copy, Debug, PartialEq, Eq, Structural)]
pub enum Shown {
    /// Partitions.
    Tree,
    /// Groups of files; with the menus for groups of duplicates where that is what they are.
    Groups { duplicates: bool },
    /// How far the comparison of files has come.
    Comparing(HashPhase, u64, u64),
    /// Search results.
    Results,
    /// The index is not there yet.
    PreparingIndex,
    /// The copy is not there yet.
    PreparingCopy,
}

/// What a tab has to show.
pub open spec fn shown_of(tab: TabView) -> Shown {
    match tab.kind {
        TabKind::Main => Shown::Tree,
        TabKind::Extensions => Shown::Groups { duplicates: false },
        TabKind::Duplicates => match tab.loading {
            Loading::Comparing(phase, done, total) => Shown::Comparing(phase, done, total),
            _ => Shown::Groups { duplicates: true },
        },
        TabKind::Search => if tab.index is Some {
            Shown::Results
        } else {
            Shown::PreparingIndex
        },
        TabKind::Copy => if tab.loading == Loading::Ready {
            Shown::Tree
        } else {
            Shown::PreparingCopy
        },
    }
}

/// The partition that the sidebar is about: the one that something is selected in, or else the
/// first.
pub open spec fn focus_of(s: SessionView) -> Option<usize> {
    match s.main_list().selected {
        Some(p) if p.len() > 0 => Some(p[0]),
        _ => if s.main_list().trees.len() > 0 {
            Some(0usize)
        } else {
            None
        },
    }
}

/// A tab waits for something that is being made for it.
pub open spec fn is_preparing(tab: TabView) -> bool {
    (tab.kind == TabKind::Copy && tab.loading != Loading::Ready) || (tab.kind == TabKind::Search
        && tab.index is None)
}

/// What the user can ask for at the top of the window.
#[derive(Clone, Copy, Debug, PartialEq, Eq, Structural)]
pub enum TopbarAction {
    Nothing,
    /// Choose what to scan.
    AddScan,
    ExportCsv,
    ToggleShowAll,
    ShowExtensionBreakdown,
    ShowDuplicateFinder,
    OpenFind,
    OpenSearchTab,
    OpenCopyTab,
    OpenAbout,
    RestartAsAdmin,
}

/// The state, and what to do, once the user has asked for something at the top of the window.
/// What is not about the tabs is left to the window.
pub open spec fn topbar_outcome(s: SessionView, a: TopbarAction) -> (SessionView, EffectView) {
    match a {
        TopbarAction::ShowExtensionBreakdown => (extensions_opened(s, None), EffectView::Nothing),
        TopbarAction::ShowDuplicateFinder => duplicates_opened(s, None),
        TopbarAction::OpenSearchTab => (search_opened(s), EffectView::Nothing),
        TopbarAction::OpenCopyTab => copy_opened(s),
        _ => (s, EffectView::Nothing),
    }
}

impl Session {
    /// What the active tab has to show.
    pub fn shown(&self) -> (r: Shown)
        requires
            self.wf(),
        ensures
            r == shown_of(self@.tabs[self@.active_tab as int]),
    {
        let tab = &self.tabs[self.active_tab];
        assert(self@.tabs[self.active_tab as int] == tab@);
        match tab.kind {
            TabKind::Main => Shown::Tree,
            TabKind::Extensions => Shown::Groups { duplicates: false },
            TabKind::Duplicates => match tab.loading {
                Loading::Comparing(phase, done, total) => Shown::Comparing(phase, done, total),
                _ => Shown::Groups { duplicates: true },
            },
            TabKind::Search => if tab.index.is_some() {
                Shown::Results
            } else {
                Shown::PreparingIndex
            },
            TabKind::Copy => if tab.loading == Loading::Ready {
                Shown::Tree
            } else {
                Shown::PreparingCopy
            },
        }
    }

    /// The partition that the sidebar is about.
    pub fn focused_partition(&self) -> (r: Option<usize>)
        requires
            self.wf(),
        ensures
            r == focus_of(self@),
    {
        assert(self@.tabs[0].pane == self.tabs@[0].pane@);
        match &self.tabs[0].pane {
            Pane::Tree(t) => {
                if let Some(p) = &t.selected {
                    if p.len() > 0 {
                        return Some(p[0]);
                    }
                }
                if t.trees.len() > 0 {
                    Some(0)
                } else {
                    None
                }
            },
            _ => None,
        }
    }

    /// Whether any tab waits for something that is being made for it.
    pub fn preparing(&self) -> (r: bool)
        requires
            self.wf(),
        ensures
            r == exists|i: int| 0 <= i < self@.tabs.len() && is_preparing(#[trigger] self@.tabs[i]),
    {
        let mut i: usize = 0;
        while i < self.tabs.len()
            invariant
                i <= self.tabs.len(),
                forall|k: int| 0 <= k < i ==> !is_preparing(#[trigger] self@.tabs[k]),
            decreases self.tabs.len() - i,
        {
            let tab = &self.tabs[i];
            assert(self@.tabs[i as int] == tab@);
            if (tab.kind == TabKind::Copy && tab.loading != Loading::Ready) || (tab.kind
                == TabKind::Search && tab.index.is_none()) {
                assert(is_preparing(self@.tabs[i as int]));
                return true;
            }
            i += 1;
        }
        false
    }

    /// The user has asked for something at the top of the window.
    pub fn topbar(&mut self, a: TopbarAction) -> (r: Effect)
        requires
            old(self).wf(),
        ensures
            final(self).wf(),
            (final(self)@, r@) == topbar_outcome(old(self)@, a),
    {
        match a {
            TopbarAction::ShowExtensionBreakdown => {
                self.open_extension_tab(None);
                Effect::Nothing
            },
            TopbarAction::ShowDuplicateFinder => self.open_duplicate_tab(None),
            TopbarAction::OpenSearchTab => {
                self.open_search_tab();
                Effect::Nothing
            },
            TopbarAction::OpenCopyTab => self.open_copy_tab(),
            _ => Effect::Nothing,
        }
    }
}

/// The name and version at the foot of the window.
pub fn brand_line() -> (r: String)
    ensures
        r@ == "⛁ "@ + APP_NAME@ + " "@ + APP_VERSION@,
{
    let mut s = triple("⛁ ", APP_NAME, " ");
    s.append(APP_VERSION);
    s
}

/// What is shown when the pointer rests on it.
pub fn brand_hover() -> (r: String)
    ensures
        r@ == COPYRIGHT_LINE@ + "\n作者："@ + APP_AUTHOR@ + "　邮箱："@ + APP_EMAIL@
            + "\n免费软件（MIT 许可证）——详见\"关于\"菜单"@,
{
    let mut s = triple(COPYRIGHT_LINE, "\n作者：", APP_AUTHOR);
    s.append("　邮箱：");
    s.append(APP_EMAIL);
    s.append("\n免费软件（MIT 许可证）——详见\"关于\"菜单");
    s
}

/// The button that turns the reminder off: what it says, and whether it can be clicked. While
/// seconds are counted down it cannot.
pub fn about_button(countdown_secs: Option<u32>) -> (r: (String, bool))
    ensures
        r.0@ == match countdown_secs {
            Some(s) => "不再提醒("@ + decimal(s as nat) + "s)"@,
            None => "不再提醒"@,
        },
        r.1 == (countdown_secs is None),
{
    match countdown_secs {
        Some(n) => {
            let mut s = owned("不再提醒(");
            push_decimal(&mut s, n as u64);
            s.append("s)");
            (s, false)
        },
        None => (owned("不再提醒"), true),
    }
}

/// What the two buttons of the dialog about the program come to.
#[derive(Clone, Copy, Debug, PartialEq, Eq, Structural)]
pub enum AboutOutcome {
    Stay,
    /// Close it; it comes again at the next start.
    Close,
    /// Close it for good.
    CloseForGood,
}

/// What the two buttons of the dialog about the program come to.
pub fn about_outcome(next_time: bool, never_again: bool) -> (r: AboutOutcome)
    ensures
        r == if never_again {
            AboutOutcome::CloseForGood
        } else if next_time {
            AboutOutcome::Close
        } else {
            AboutOutcome::Stay
        },
{
    if never_again {
        AboutOutcome::CloseForGood
    } else if next_time {
        AboutOutcome::Close
    } else {
        AboutOutcome::Stay
    }
}

/// What a file or folder is called.
pub open spec fn kind_word(is_folder: bool) -> Seq<char> {
    if is_folder {
        "文件夹"@
    } else {
        "文件"@
    }
}

/// What a file or folder is called.
pub fn kind_name(is_folder: bool) -> (r: &'static str)
    ensures
        r@ == kind_word(is_folder),
{
    if is_folder {
        "文件夹"
    } else {
        "文件"
    }
}

/// What the user is asked before something is deleted.
pub fn delete_question(is_folder: bool) -> (r: String)
    ensures
        r@ == "确定要把这个"@ + kind_word(is_folder) + "删除到回收站吗？"@,
{
    triple("确定要把这个", kind_name(is_folder), "删除到回收站吗？")
}

/// What comes of a dialog with a button to confirm and one to cancel.
#[derive(Clone, Copy, Debug, PartialEq, Eq, Structural)]
pub enum Decision {
    Open,
    Cancelled,
    Confirmed,
}

/// What comes of a dialog with a button to confirm and one to cancel: to cancel comes first.
pub fn decide(confirm: bool, cancel: bool) -> (r: Decision)
    ensures
        r == if cancel {
            Decision::Cancelled
        } else if confirm {
            Decision::Confirmed
        } else {
            Decision::Open
        },
{
    if cancel {
        Decision::Cancelled
    } else if confirm {
        Decision::Confirmed
    } else {
        Decision::Open
    }
}

/// How a drive is offered: its letter, and its label where it has one.
pub open spec fn drive_text(letter: char, label: Option<&str>) -> Seq<char> {
    "💽 "@ + seq![letter] + match label {
        Some(l) => if l@.len() > 0 {
            ":  ("@ + l@ + ")"@
        } else {
            ":"@
        },
        None => ":"@,
    }
}

/// How a drive is offered.
pub fn drive_caption(letter: char, label: Option<&str>) -> (r: String)
    ensures
        r@ == drive_text(letter, label),
{
    let mut s = owned("💽 ");
    s.push(letter);
    let ghost start = s@;
    assert(start =~= "💽 "@ + seq![letter]);
    match label {
        Some(l) => if is_empty(l) {
            s.append(":");
        } else {
            s.append(":  (");
            s.append(l);
            s.append(")");
            assert(s@ =~= start + (":  ("@ + l@ + ")"@));
        },
        None => {
            s.append(":");
        },
    }
    s
}

/// The words for a comparison of files.
pub struct CompareWords {
    pub title: String,
    pub step: &'static str,
    pub progress: String,
    pub explanation: &'static str,
}

/// How far a comparison of files has come.
pub open spec fn progress_words(done: u64, total: u64) -> Seq<char> {
    if total == 0 {
        "正在收集候选文件…"@
    } else {
        "已处理 "@ + decimal(done as nat) + " / "@ + decimal(total as nat) + " 个文件"@
    }
}

/// The words for a comparison of files.
pub fn show_duplicate_loading(title: &str, phase: HashPhase, done: u64, total: u64) -> (r:
    CompareWords)
    ensures
        r.title@ == "正在比对内容："@ + title@,
        r.progress@ == progress_words(done, total),
        match phase {
            HashPhase::Prefilter => r.step@ == "第 1 步 / 共 2 步：快速预筛"@ && r.explanation@
                == "读取每个候选文件开头一小段内容，先排除大小相同但内容一开始就不一样的文件。"@,
            HashPhase::Confirm => r.step@ == "第 2 步 / 共 2 步：逐字节确认"@ && r.explanation@
                == "逐字节比较文件内容，确认是不是真的一模一样（不是靠哈希碰巧相同）——这一步的文件数取决于实际重复率，重复率越高这一步越慢。"@,
        },
{
    let progress = if total == 0 {
        owned("正在收集候选文件…")
    } else {
        let mut s = owned("已处理 ");
        push_decimal(&mut s, done);
        s.append(" / ");
        push_decimal(&mut s, total);
        s.append(" 个文件");
        s
    };
    let (step, explanation) = match phase {
        HashPhase::Prefilter => (
            "第 1 步 / 共 2 步：快速预筛",
            "读取每个候选文件开头一小段内容，先排除大小相同但内容一开始就不一样的文件。",
        ),
        HashPhase::Confirm => (
            "第 2 步 / 共 2 步：逐字节确认",
            "逐字节比较文件内容，确认是不是真的一模一样（不是靠哈希碰巧相同）——这一步的文件数取决于实际重复率，重复率越高这一步越慢。",
        ),
    };
    CompareWords {
        title: crate::file_ops::pair("正在比对内容：", title),
        step,
        progress,
        explanation,
    }
}

} // verus!
