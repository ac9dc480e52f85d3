//! Work that the user starts and that ends later: deleting, linking, exporting, scanning.

use vstd::prelude::*;
use vstd::string::*;

use crate::file_ops::{strings_view, triple};
use crate::format::{human_size, size_text};
use crate::list_view::DiskUsage;
use crate::model::{CategoryStat, Node, NodePath, NodeView};
use crate::pane::{NewLink, NewLinkView};
use crate::session::{
    delete_option, link_option, node_changeable, node_linked, node_removed, PendingDelete,
    PendingLink, Session, SessionView, Source,
};
use crate::sorting::{is_order, merge_sort, stable_sort};
use crate::tabs::{usage_option, UsageView};
use crate::text::{chars_of, decimal, owned, push_decimal};

verus! {

impl Session {
    /// The user has confirmed that something is to be deleted: what.
    pub fn confirm_delete(&mut self) -> (r: Option<PendingDelete>)
        requires
            old(self).wf(),
        ensures
            final(self).wf(),
            delete_option(r) == old(self)@.pending_delete,
            final(self)@ == (SessionView { pending_delete: None, ..old(self)@ }),
    {
        let mut r: Option<PendingDelete> = None;
        std::mem::swap(&mut r, &mut self.pending_delete);
        r
    }

    /// The user does not want anything deleted after all.
    pub fn cancel_delete(&mut self)
        requires
            old(self).wf(),
        ensures
            final(self).wf(),
            final(self)@ == (SessionView { pending_delete: None, ..old(self)@ }),
    {
        self.pending_delete = None;
    }

    /// Deleting has come to an end.
    pub fn delete_done(&mut self, pending: &PendingDelete, result: Result<(), String>)
        requires
            old(self).wf(),
            result is Ok ==> node_changeable(old(self)@, pending.source, pending.abs_path@),
        ensures
            final(self).wf(),
            final(self)@ == match result {
                Ok(_) => node_removed(
                    old(self)@,
                    pending.source,
                    pending.abs_path@,
                    pending.index_entry,
                ).telling("已删除到回收站: "@ + pending.name@, false),
                Err(e) => old(self)@.telling("删除失败 ("@ + pending.name@ + "): "@ + e@, true),
            },
    {
        match result {
            Ok(_) => {
                self.remove_node_after_success(
                    pending.source,
                    pending.abs_path.as_slice(),
                    pending.index_entry,
                );
                self.tell(
                    crate::file_ops::pair("已删除到回收站: ", pending.name.as_str()),
                    false,
                );
            },
            Err(e) => {
                let mut s = triple("删除失败 (", pending.name.as_str(), "): ");
                s.append(e.as_str());
                self.tell(s, true);
            },
        }
    }

    /// The user has chosen where a link leads to: what is to be linked.
    pub fn choose_link(&mut self) -> (r: Option<PendingLink>)
        requires
            old(self).wf(),
        ensures
            final(self).wf(),
            link_option(r) == old(self)@.pending_link,
            final(self)@ == (SessionView { pending_link: None, ..old(self)@ }),
    {
        let mut r: Option<PendingLink> = None;
        std::mem::swap(&mut r, &mut self.pending_link);
        r
    }

    /// The user does not want anything linked after all.
    pub fn cancel_link(&mut self)
        requires
            old(self).wf(),
        ensures
            final(self).wf(),
            final(self)@ == (SessionView { pending_link: None, ..old(self)@ }),
    {
        self.pending_link = None;
    }

    /// Linking has come to an end. `size` is what the system says of the link itself.
    pub fn link_done(
        &mut self,
        request: &LinkRequest,
        outcome: Result<LinkOutcome, String>,
        size: u64,
    )
        requires
            old(self).wf(),
            outcome is Ok ==> node_changeable(old(self)@, request.source, request.abs_path@),
        ensures
            final(self).wf(),
            final(self)@ == link_ended(old(self)@, *request, outcome, size),
    {
        match outcome {
            Ok(o) => {
                match &o {
                    LinkOutcome::Single { .. } => {
                        let link = NewLink {
                            full_path: request.full_path.as_str(),
                            name: request.name.as_str(),
                            is_folder: request.is_folder,
                            size,
                        };
                        self.refresh_node_after_symlink(
                            request.source,
                            request.abs_path.as_slice(),
                            &link,
                        );
                    },
                    LinkOutcome::Group { .. } => {
                        self.remove_node_after_success(
                            request.source,
                            request.abs_path.as_slice(),
                            None,
                        );
                    },
                }
                let text = outcome_line(request.name.as_str(), &o);
                self.tell(text, false);
            },
            Err(e) => {
                let mut s = triple("创建符号链接失败 (", request.name.as_str(), "): ");
                s.append(e.as_str());
                self.tell(s, true);
            },
        }
    }

    /// The user wants the partitions exported: what to do.
    pub fn export_csv(&mut self) -> (r: ExportPlan)
        requires
            old(self).wf(),
        ensures
            final(self).wf(),
            r == if old(self)@.main_list().trees.len() == 0 {
                ExportPlan::Nothing
            } else if old(self)@.main_index is None {
                ExportPlan::Nothing
            } else {
                ExportPlan::Export
            },
            final(self)@ == if old(self)@.main_list().trees.len() > 0 && old(self)@.main_index
                is None {
                old(self)@.telling(
                    "名字索引还在后台准备中（通常一两秒），请稍后再导出。"@,
                    false,
                )
            } else {
                old(self)@
            },
    {
        if self.partitions().len() == 0 {
            return ExportPlan::Nothing;
        }
        if self.main_index.is_none() {
            self.tell(owned("名字索引还在后台准备中（通常一两秒），请稍后再导出。"), false);
            return ExportPlan::Nothing;
        }
        ExportPlan::Export
    }

    /// So many rows of a partition are written.
    pub fn export_progress(&mut self, partition: &str, rows: u64)
        requires
            old(self).wf(),
        ensures
            final(self).wf(),
            final(self)@ == old(self)@.telling(
                "正在导出 CSV…（"@ + partition@ + "：已写 "@ + decimal(rows as nat) + " 行）"@,
                false,
            ),
    {
        let mut s = triple("正在导出 CSV…（", partition, "：已写 ");
        push_decimal(&mut s, rows);
        s.append(" 行）");
        self.tell(s, false);
    }

    /// The export is over: `ok` of `total` files were written into `dir`.
    pub fn export_done(&mut self, ok: u64, total: u64, dir: &str)
        requires
            old(self).wf(),
        ensures
            final(self).wf(),
            final(self)@ == if ok == 0 {
                old(self)@.telling("CSV 导出失败，详情见日志"@, true)
            } else {
                old(self)@.telling(
                    "已导出 "@ + decimal(ok as nat) + "/"@ + decimal(total as nat)
                        + " 个 CSV 文件到 "@ + dir@,
                    false,
                )
            },
    {
        if ok == 0 {
            self.tell(owned("CSV 导出失败，详情见日志"), true);
        } else {
            let mut s = owned("已导出 ");
            push_decimal(&mut s, ok);
            s.append("/");
            push_decimal(&mut s, total);
            s.append(" 个 CSV 文件到 ");
            s.append(dir);
            self.tell(s, false);
        }
    }
}

/// What to do about an export.
#[derive(Clone, Copy, Debug, PartialEq, Eq, Structural)]
pub enum ExportPlan {
    Nothing,
    /// Write a file for each partition.
    Export,
}

/// What was to be linked.
pub struct LinkRequest {
    pub source: Source,
    pub abs_path: NodePath,
    pub name: String,
    /// Empty for a group.
    pub full_path: String,
    pub is_folder: bool,
}

/// What came of linking.
pub enum LinkOutcome {
    Single { target_path: String },
    /// So many of the files of a group lead to one of them now.
    Group { target_path: String, member_count: u64, total_count: u64 },
}

/// The state once one file or folder is linked.
pub open spec fn single_linked(s: SessionView, request: LinkRequest, size: u64) -> SessionView {
    node_linked(
        s,
        request.source,
        request.abs_path@,
        NewLinkView {
            full_path: request.full_path@,
            name: request.name@,
            is_folder: request.is_folder,
            size,
        },
    )
}

/// The line that says what came of linking.
pub open spec fn outcome_text(name: Seq<char>, o: LinkOutcome) -> Seq<char> {
    match o {
        LinkOutcome::Single { target_path } => "已创建符号链接: "@ + name + " → "@ + target_path@,
        LinkOutcome::Group { target_path, member_count, total_count } => name + " 共 "@ + decimal(
            total_count as nat,
        ) + " 份，已将其中 "@ + decimal(member_count as nat) + " 份统一指向 "@ + target_path@
            + if member_count < total_count {
            "（有部分副本处理失败，详情见日志）"@
        } else {
            ""@
        },
    }
}

/// The state once linking has come to an end. A group that was linked leaves its list.
pub open spec fn link_ended(
    s: SessionView,
    request: LinkRequest,
    outcome: Result<LinkOutcome, String>,
    size: u64,
) -> SessionView {
    match outcome {
        Ok(o) => match o {
            LinkOutcome::Single { .. } => single_linked(s, request, size),
            LinkOutcome::Group { .. } => node_removed(s, request.source, request.abs_path@, None),
        }.telling(outcome_text(request.name@, o), false),
        Err(e) => s.telling("创建符号链接失败 ("@ + request.name@ + "): "@ + e@, true),
    }
}

fn outcome_line(name: &str, o: &LinkOutcome) -> (r: String)
    ensures
        r@ == outcome_text(name@, *o),
{
    match o {
        LinkOutcome::Single { target_path } => {
            let mut s = triple("已创建符号链接: ", name, " → ");
            s.append(target_path.as_str());
            s
        },
        LinkOutcome::Group { target_path, member_count, total_count } => {
            let mut s = owned(name);
            s.append(" 共 ");
            push_decimal(&mut s, *total_count);
            s.append(" 份，已将其中 ");
            push_decimal(&mut s, *member_count);
            s.append(" 份统一指向 ");
            s.append(target_path.as_str());
            s.append(
                if *member_count < *total_count {
                    "（有部分副本处理失败，详情见日志）"
                } else {
                    ""
                },
            );
            s
        },
    }
}

impl PendingLink {
    /// What is kept of something that is to be linked while it is.
    pub fn request(self) -> (r: LinkRequest)
        ensures
            match self {
                PendingLink::Single { source, abs_path, name, full_path, is_folder } => r.source
                    == source && r.abs_path@ == abs_path@ && r.name@ == name@ && r.full_path@
                    == full_path@ && r.is_folder == is_folder,
                PendingLink::Group { tab_idx, abs_path, name, .. } => r.source == Source::Tab(
                    tab_idx,
                ) && r.abs_path@ == abs_path@ && r.name@ == name@ && r.full_path@.len() == 0
                    && !r.is_folder,
            },
    {
        match self {
            PendingLink::Single { source, abs_path, name, full_path, is_folder } => LinkRequest {
                source,
                abs_path,
                name,
                full_path,
                is_folder,
            },
            PendingLink::Group { tab_idx, abs_path, name, .. } => LinkRequest {
                source: Source::Tab(tab_idx),
                abs_path,
                name,
                full_path: String::new(),
                is_folder: false,
            },
        }
    }
}

/// The next step of linking the files of a group.
pub enum GroupStep {
    /// Migrate this file.
    Migrate(String),
    /// That failed: nothing was linked.
    Fail(String),
    /// Replace this file by a link to where the first one went.
    Replace { path: String, target: String },
    /// Everything was tried.
    Done(LinkOutcome),
}

/// What a [`GroupStep`] says.
#[verifier::ext_equal]
pub enum GroupStepView {
    Migrate(Seq<char>),
    Fail(Seq<char>),
    Replace { path: Seq<char>, target: Seq<char> },
    Done { target: Seq<char>, member_count: nat, total_count: nat },
}

impl View for GroupStep {
    type V = GroupStepView;

    open spec fn view(&self) -> GroupStepView {
        match self {
            GroupStep::Migrate(p) => GroupStepView::Migrate(p@),
            GroupStep::Fail(e) => GroupStepView::Fail(e@),
            GroupStep::Replace { path, target } => GroupStepView::Replace {
                path: path@,
                target: target@,
            },
            GroupStep::Done(LinkOutcome::Single { target_path }) => GroupStepView::Done {
                target: target_path@,
                member_count: 1,
                total_count: 1,
            },
            GroupStep::Done(
                LinkOutcome::Group { target_path, member_count, total_count },
            ) => GroupStepView::Done {
                target: target_path@,
                member_count: *member_count as nat,
                total_count: *total_count as nat,
            },
        }
    }
}

/// How many of the first `k` attempts succeeded.
pub open spec fn successes(rest: Seq<bool>, k: int) -> nat
    decreases k,
{
    if k <= 0 {
        0
    } else {
        successes(rest, k - 1) + if rest[k - 1] {
            1nat
        } else {
            0nat
        }
    }
}

/// The next step of linking the files of a group: the first one is migrated, the others are
/// replaced by links to where it went. `first` is what came of the first one, `rest` whether
/// the others that were tried succeeded; one that fails does not stop the rest.
pub open spec fn group_step(
    members: Seq<Seq<char>>,
    first: Option<Result<Seq<char>, Seq<char>>>,
    rest: Seq<bool>,
) -> GroupStepView {
    match first {
        None => GroupStepView::Migrate(members[0]),
        Some(Err(e)) => GroupStepView::Fail(e),
        Some(Ok(target)) => if rest.len() + 1 < members.len() {
            GroupStepView::Replace { path: members[rest.len() as int + 1], target }
        } else {
            GroupStepView::Done {
                target,
                member_count: 1 + successes(rest, rest.len() as int),
                total_count: members.len(),
            }
        },
    }
}

/// What came of migrating the first file of a group.
pub open spec fn first_view(first: Option<Result<String, String>>) -> Option<
    Result<Seq<char>, Seq<char>>,
> {
    match first {
        None => None,
        Some(Ok(s)) => Some(Ok(s@)),
        Some(Err(e)) => Some(Err(e@)),
    }
}

/// The next step of linking the files of a group.
pub fn next_group_step(
    members: &Vec<String>,
    first: &Option<Result<String, String>>,
    rest: &Vec<bool>,
) -> (r: GroupStep)
    requires
        members@.len() > 0,
        rest@.len() < members@.len(),
    ensures
        r@ == group_step(strings_view(members@), first_view(*first), rest@),
{
    let n: usize = members.len();
    match first {
        None => {
            assert(strings_view(members@)[0] == members@[0]@);
            GroupStep::Migrate(owned(members[0].as_str()))
        },
        Some(Err(e)) => GroupStep::Fail(owned(e.as_str())),
        Some(Ok(target)) => {
            let k: usize = rest.len();
            if k + 1 < n {
                assert(strings_view(members@)[k + 1] == members@[k + 1]@);
                GroupStep::Replace {
                    path: owned(members[k + 1].as_str()),
                    target: owned(target.as_str()),
                }
            } else {
                let mut done: usize = 1;
                let mut i: usize = 0;
                while i < rest.len()
                    invariant
                        i <= rest@.len(),
                        rest@.len() < usize::MAX,
                        done == 1 + successes(rest@, i as int),
                        done <= i + 1,
                    decreases rest@.len() - i,
                {
                    if rest[i] {
                        done += 1;
                    }
                    i += 1;
                }
                GroupStep::Done(
                    LinkOutcome::Group {
                        target_path: owned(target.as_str()),
                        member_count: done as u64,
                        total_count: n as u64,
                    },
                )
            }
        },
    }
}

/// At most all files of a group are linked, and at least the first one.
pub proof fn law_linked_files_are_members(members: Seq<Seq<char>>, target: Seq<char>, rest: Seq<bool>)
    requires
        rest.len() + 1 == members.len(),
    ensures
        group_step(members, Some(Ok(target)), rest) matches GroupStepView::Done {
            member_count,
            total_count,
            ..
        } && 1 <= member_count <= total_count,
{
    lemma_successes(rest, rest.len() as int);
}

proof fn lemma_successes(rest: Seq<bool>, k: int)
    requires
        0 <= k,
    ensures
        successes(rest, k) <= k,
    decreases k,
{
    if k > 0 {
        lemma_successes(rest, k - 1);
    }
}

/// What `char::is_alphanumeric` says of a character.
pub uninterp spec fn alphanumeric(c: char) -> bool;

/// `char::is_alphanumeric`: whether a character is a letter or a number, by Unicode's tables.
/// Which ones are is left to the standard library.
#[verifier::external_body]
fn is_alphanumeric(c: char) -> (r: bool)
    ensures
        r == alphanumeric(c),
{
    c.is_alphanumeric()
}

/// A name with everything but letters and numbers replaced by underscores.
pub open spec fn safe_name(name: Seq<char>) -> Seq<char> {
    Seq::new(
        name.len(),
        |i: int|
            if alphanumeric(name[i]) {
                name[i]
            } else {
                '_'
            },
    )
}

/// The name of the file that the `i`th partition, counted from 0, is exported to.
pub fn export_file_name(i: usize, name: &str) -> (r: String)
    requires
        i < u64::MAX,
    ensures
        r@ == "diskforge_export_"@ + decimal((i + 1) as nat) + "_"@ + safe_name(name@) + ".csv"@,
{
    let mut s = owned("diskforge_export_");
    push_decimal(&mut s, i as u64 + 1);
    s.append("_");
    let ghost start = s@;
    let v = chars_of(name);
    let mut k: usize = 0;
    assert(start + safe_name(name@).take(0) =~= start);
    while k < v.len()
        invariant
            k <= v.len(),
            v@ == name@,
            s@ == start + safe_name(name@).take(k as int),
        decreases v.len() - k,
    {
        let c = if is_alphanumeric(v[k]) {
            v[k]
        } else {
            '_'
        };
        s.push(c);
        k += 1;
        assert(safe_name(name@).take(k as int) =~= safe_name(name@).take(k - 1).push(c));
        assert(s@ =~= start + safe_name(name@).take(k as int));
    }
    assert(safe_name(name@).take(k as int) =~= safe_name(name@));
    s.append(".csv");
    s
}

/// A drive as a path.
pub open spec fn drive_path(letter: char) -> Seq<char> {
    seq![letter] + ":\\"@
}

/// Whether one letter comes before another.
pub open spec fn letter_less() -> spec_fn(char, char) -> bool {
    |a: char, b: char| a < b
}

/// The paths to scan: the drives that were chosen, in the order of their letters, then the
/// folders.
pub open spec fn scan_paths(drives: Seq<char>, folders: Seq<Seq<char>>) -> Seq<Seq<char>> {
    let sorted = stable_sort(drives, letter_less());
    Seq::new(sorted.len(), |i: int| drive_path(sorted[i])) + folders
}

/// The paths to scan: the drives that were chosen, in the order of their letters, then the
/// folders.
pub fn build_scan_paths(drives: Vec<char>, folders: &Vec<String>) -> (r: Vec<String>)
    ensures
        strings_view(r@) == scan_paths(drives@, strings_view(folders@)),
{
    let ghost want = scan_paths(drives@, strings_view(folders@));
    let less = |a: &char, b: &char| -> (o: bool)
        ensures
            o == (*a < *b),
        { *a < *b };
    let ghost lt = letter_less();
    let ghost any = |c: char| true;
    assert(is_order(lt));
    let sorted = merge_sort(drives, &less, Ghost(lt), Ghost(any));
    let mut r: Vec<String> = Vec::new();
    let mut i: usize = 0;
    while i < sorted.len()
        invariant
            i <= sorted.len(),
            r@.len() == i,
            forall|k: int| 0 <= k < i ==> (#[trigger] r@[k])@ == drive_path(sorted@[k]),
        decreases sorted.len() - i,
    {
        let mut s = String::new();
        s.push(sorted[i]);
        assert(s@ =~= seq![sorted@[i as int]]);
        s.append(":\\");
        r.push(s);
        i += 1;
    }
    let ghost n = sorted@.len();
    let mut k: usize = 0;
    while k < folders.len()
        invariant
            k <= folders.len(),
            r@.len() == n + k,
            n == sorted@.len(),
            forall|j: int| 0 <= j < n ==> (#[trigger] r@[j])@ == drive_path(sorted@[j]),
            forall|j: int| n <= j < n + k ==> (#[trigger] r@[j])@ == folders@[j - n]@,
        decreases folders.len() - k,
    {
        r.push(owned(folders[k].as_str()));
        k += 1;
    }
    assert(strings_view(r@) =~= want);
    r
}

/// A size, or that it is not known.
pub open spec fn known_size(n: Option<u64>) -> Seq<char> {
    match n {
        Some(x) => size_text(x as nat),
        None => "未知"@,
    }
}

fn size_or_unknown(n: Option<u64>) -> (r: String)
    ensures
        r@ == known_size(n),
{
    match n {
        Some(x) => human_size(x),
        None => owned("未知"),
    }
}

/// What the log says of a scan that is done.
pub open spec fn summary_text(n: NodeView, info: Option<UsageView>) -> Seq<char> {
    "[app] 扫描完成: "@ + n.name + "\n  逻辑大小: "@ + size_text(n.logical_size as nat)
        + "\n  物理大小: "@ + size_text(n.physical_size as nat) + "\n  系统已用: "@ + known_size(
        match info {
            Some(i) => Some(i.used_bytes),
            None => None,
        },
    ) + "\n  剩余空间: "@ + known_size(
        match info {
            Some(i) => Some(i.free_bytes),
            None => None,
        },
    ) + "\n  文件: "@ + decimal(n.file_count as nat) + "  文件夹: "@ + decimal(
        n.folder_count as nat,
    )
}

/// What the log says of a scan that is done.
pub fn scan_summary(node: &Node, info: &Option<DiskUsage>) -> (r: String)
    ensures
        r@ == summary_text(node@, usage_option(*info)),
{
    let (used, free) = match info {
        Some(i) => (Some(i.used_bytes), Some(i.free_bytes)),
        None => (None, None),
    };
    let mut s = owned("[app] 扫描完成: ");
    s.append(node.name.as_str());
    s.append("\n  逻辑大小: ");
    s.append(human_size(node.logical_size).as_str());
    s.append("\n  物理大小: ");
    s.append(human_size(node.physical_size).as_str());
    s.append("\n  系统已用: ");
    s.append(size_or_unknown(used).as_str());
    s.append("\n  剩余空间: ");
    s.append(size_or_unknown(free).as_str());
    s.append("\n  文件: ");
    push_decimal(&mut s, node.file_count);
    s.append("  文件夹: ");
    push_decimal(&mut s, node.folder_count);
    s
}

/// What the log says of a kind of file, where there is any.
pub fn category_line(stat: &CategoryStat) -> (r: Option<String>)
    ensures
        crate::model::text_option(r) == if stat.size > 0 {
            Some("  分类["@ + stat.label@ + "]: "@ + size_text(stat.size as nat))
        } else {
            None
        },
{
    if stat.size > 0 {
        let mut s = triple("  分类[", stat.label, "]: ");
        s.append(human_size(stat.size).as_str());
        Some(s)
    } else {
        None
    }
}

} // verus!
