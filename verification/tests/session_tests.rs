//! The window: scanning, tabs, finding, deleting, linking, and who holds something open.

use std::time::Duration;

use diskforge::dedup::HashPhase;
use diskforge::file_ops::{FolderOccupancy, LockingProcess};
use diskforge::layered_probe::{pids_of, ProbeEntry};
use diskforge::list_view::DiskUsage;
use diskforge::lock_check::{LockFindings, LockPanel};
use diskforge::lock_dialog::{
    dialog_action, ended_all_line, ended_line, failure_line, process_line, stopped_line,
    DialogAction, DialogButton, DialogClicks, Part, Tone,
};
use diskforge::model::{CategoryStat, Node};
use diskforge::pane::Pane;
use diskforge::screen::{
    about_button, about_outcome, brand_line, decide, delete_question, drive_caption,
    show_duplicate_loading, AboutOutcome, Decision, Shown, TopbarAction,
};
use diskforge::search_index::{BuildStep, IndexBuilder, NameIndex};
use diskforge::session::{Effect, LockRequest, Session, Source};
use diskforge::session_find::find_stays_open;
use diskforge::session_jobs::{
    build_scan_paths, category_line, export_file_name, next_group_step, scan_summary, ExportPlan,
    GroupStep, LinkOutcome,
};
use diskforge::session_tabs::{CompareNews, IndexPlan};
use diskforge::tabs::{bar_shown, caption, closable, Loading, TabKind};
use diskforge::ui::TreeAction;

fn file(name: &str, size: u64) -> Node {
    Node::new_file(name.to_string(), size, 0xFFFF_FFFF)
}

fn folder(name: &str, children: Vec<Node>) -> Node {
    Node::new_folder(name.to_string(), 0xFFFF_FFFF, children)
}

fn disk(name: &str) -> Node {
    folder(name, vec![
        folder("docs", vec![file("a.txt", 10), file("b.txt", 30)]),
        file("movie.mp4", 100),
    ])
}

fn stats() -> Vec<CategoryStat> {
    Vec::new()
}

/// A window with two partitions.
fn window() -> Session {
    let mut s = Session::new();
    match s.start_scan_batch(vec!["C:\\".to_string(), "D:\\".to_string()]) {
        Effect::Scan(p) => assert_eq!(p, "C:\\"),
        _ => panic!("the first path is scanned at once"),
    }
    match s.scan_done(disk("C:"), None, stats()) {
        Effect::Scan(p) => assert_eq!(p, "D:\\"),
        _ => panic!("the second path is next"),
    }
    assert!(matches!(s.scan_done(disk("D:"), None, stats()), Effect::Nothing));
    s
}

fn index(s: &Session, version: u64) -> NameIndex {
    let mut b = IndexBuilder::new_multi(s.partitions(), &s.root_paths, version, true);
    loop {
        match b.step(Duration::from_secs(10)) {
            BuildStep::Continue => continue,
            BuildStep::Done(i) => return *i,
        }
    }
}

fn list_version(s: &Session) -> u64 {
    match &s.tabs[0].pane {
        Pane::Tree(t) => t.struct_version,
        _ => panic!("the first tab shows the partitions"),
    }
}

#[test]
fn scans_wait_for_each_other() {
    let s = window();
    assert_eq!(s.partitions().len(), 2);
    assert_eq!(s.root_paths, vec!["C:\\", "D:\\"]);
    assert_eq!(s.infos.len(), 2);
    assert!(!s.scan.scanning);
}

#[test]
fn a_scan_that_fails_makes_room_for_the_next() {
    let mut s = Session::new();
    s.start_scan_batch(vec!["C:\\".to_string(), "D:\\".to_string()]);
    s.scan_progress(12);
    assert_eq!(s.scan.scanned_count, 12);
    assert!(matches!(s.scan_failed("扫描失败: x".to_string()), Effect::Scan(p) if p == "D:\\"));
    assert_eq!(s.scan.scanned_count, 0);
    assert!(matches!(s.scan_failed("扫描失败: y".to_string()), Effect::Nothing));
    assert_eq!(s.scan.error.as_deref(), Some("扫描失败: y"));
}

#[test]
fn scanning_again_replaces_a_partition_in_its_place() {
    let mut s = window();
    assert!(matches!(s.start_rescan(0), Effect::Scan(p) if p == "C:\\"));
    assert!(matches!(s.start_rescan(1), Effect::Nothing));
    assert!(s.status.as_ref().unwrap().is_error);
    let usage = DiskUsage { total_bytes: 10, used_bytes: 4, free_bytes: 6, file_system: "NTFS".to_string() };
    s.scan_done(folder("C:", vec![file("only", 1)]), Some(usage), stats());
    assert_eq!(s.partitions().len(), 2);
    assert_eq!(s.partitions()[0].children.len(), 1);
    assert_eq!(s.infos[0].as_ref().unwrap().free_bytes, 6);
    assert_eq!(s.status.as_ref().unwrap().text, "重新扫描完成: C:\\");
    assert!(matches!(s.start_rescan(7), Effect::Nothing));
}

#[test]
fn a_partition_leaves_with_everything_kept_of_it() {
    let mut s = window();
    s.remove_partition(0);
    assert_eq!(s.root_paths, vec!["D:\\"]);
    assert_eq!((s.infos.len(), s.categories.len(), s.partitions().len()), (1, 1, 1));
    assert!(s.status.as_ref().unwrap().text.starts_with("已从列表移除: C:"));
    s.remove_partition(5);
    assert_eq!(s.partitions().len(), 1);
}

#[test]
fn what_was_told_is_shown_for_eight_seconds() {
    let mut s = Session::new();
    s.tick(1000);
    s.tell("hello".to_string(), false);
    assert_eq!(s.status_left(), Some(8000));
    s.tick(8999);
    assert_eq!(s.status_left(), Some(1));
    s.tick(9000);
    assert_eq!(s.status_left(), None);
}

#[test]
fn the_extension_tab_is_opened_once() {
    let mut s = window();
    s.open_extension_tab(Some(1));
    s.open_extension_tab(None);
    assert_eq!(s.tabs.len(), 3);
    assert_eq!(s.tabs[1].title, "D:");
    assert_eq!(s.tabs[2].title, "全部 2 个分区");
    s.open_extension_tab(Some(1));
    assert_eq!(s.tabs.len(), 3);
    assert_eq!(s.active_tab, 1);
    s.open_extension_tab(Some(9));
    assert_eq!(s.tabs.len(), 3);
    assert!(matches!(s.shown(), Shown::Groups { duplicates: false }));
}

#[test]
fn duplicates_are_shown_when_the_comparison_is_done() {
    let mut s = window();
    assert!(matches!(s.open_duplicate_tab(None), Effect::Compare(None)));
    assert!(matches!(s.open_duplicate_tab(None), Effect::Nothing));
    assert!(matches!(s.shown(), Shown::Comparing(HashPhase::Prefilter, 0, 0)));
    s.compare_news(None, CompareNews::Progress { phase: HashPhase::Confirm, done: 1, total: 4 });
    assert!(matches!(s.shown(), Shown::Comparing(HashPhase::Confirm, 1, 4)));
    s.compare_news(None, CompareNews::Done(folder("dups", vec![folder("g", vec![file("x", 1), file("y", 1)])])));
    assert!(matches!(s.shown(), Shown::Groups { duplicates: true }));
    s.compare_news(None, CompareNews::Lost);
    assert!(s.status.is_none());
    s.compare_news(Some(3), CompareNews::Failed("never opened".to_string()));
    assert!(s.status.is_none());
}

#[test]
fn a_comparison_that_ends_without_a_word_is_told() {
    let mut s = window();
    s.open_duplicate_tab(Some(0));
    s.compare_news(Some(0), CompareNews::Lost);
    assert!(s.status.as_ref().unwrap().is_error);
    assert_eq!(s.tabs[1].loading, Loading::Ready);
    let mut t = window();
    t.open_duplicate_tab(Some(0));
    t.compare_news(Some(0), CompareNews::Failed("disk".to_string()));
    assert_eq!(t.status.as_ref().unwrap().text, "disk");
}

#[test]
fn copies_wait_for_the_index() {
    let mut s = window();
    assert!(matches!(s.open_copy_tab(), Effect::Nothing));
    s.open_search_tab();
    assert_eq!(s.tabs[1].loading, Loading::WaitIndex);
    assert!(matches!(s.shown(), Shown::PreparingIndex));
    assert!(s.preparing());
    assert!(s.attach_index().is_empty());
    let version = list_version(&s);
    let idx = index(&s, version);
    let trees = idx.rebuild_tree();
    s.set_main_index(idx);
    let due = s.attach_index();
    assert_eq!(due, vec![s.tabs[1].id]);
    assert!(matches!(s.shown(), Shown::Results));
    s.set_copy(due[0], trees);
    assert_eq!(s.tabs[1].loading, Loading::Ready);
    assert!(!s.preparing());
    assert_eq!(s.tabs[1].title, "列表副本 1");
    assert_eq!(s.tabs[2].title, "搜索 1");
    assert!(matches!(s.open_copy_tab(), Effect::Rebuild(_)));
    assert_eq!(s.tabs[3].title, "列表副本 2");
}

#[test]
fn the_index_is_built_for_the_current_version() {
    let mut s = window();
    let v = list_version(&s);
    assert_eq!(s.plan_main_index(None), IndexPlan::Restart);
    assert_eq!(s.plan_main_index(Some(v)), IndexPlan::Continue);
    assert_eq!(s.plan_main_index(Some(v + 1)), IndexPlan::Restart);
    let idx = index(&s, v);
    s.set_main_index(idx);
    assert_eq!(s.plan_main_index(None), IndexPlan::Nothing);
    s.remove_partition(0);
    assert_eq!(s.plan_main_index(None), IndexPlan::Restart);
    s.remove_partition(0);
    assert_eq!(s.plan_main_index(None), IndexPlan::Nothing);
    assert!(s.main_index.is_none());
}

#[test]
fn closing_a_tab_keeps_the_user_where_they_were() {
    let mut s = window();
    s.open_extension_tab(Some(0));
    s.open_extension_tab(Some(1));
    s.open_search_tab();
    s.select_tab(2);
    s.edit_find("txt".to_string());
    s.close_tab(1);
    assert_eq!(s.active_tab, 1);
    assert_eq!(s.tabs[1].find.query(), "txt");
    s.close_tab(0);
    assert_eq!(s.tabs.len(), 3);
    s.select_tab(2);
    s.close_tab(2);
    assert_eq!(s.active_tab, 1);
    s.select_tab(9);
    assert_eq!(s.active_tab, 1);
}

#[test]
fn finding_goes_round_the_matches() {
    let mut s = window();
    s.edit_find(" TXT ".to_string());
    assert_eq!(s.find_frame(100, false, false), Some(80));
    assert_eq!(s.find_frame(180, false, false), None);
    assert_eq!(s.tabs[0].find.match_count(), 4);
    assert_eq!(s.tabs[0].find.line(), "第 1 / 4 项");
    let docs = s.partitions()[0].children.iter().position(|c| c.name == "docs").unwrap();
    match &s.tabs[0].pane {
        Pane::Tree(t) => {
            assert!(t.trees[0].expanded && t.trees[0].children[docs].expanded);
            assert!(!t.trees[1].expanded);
            assert_eq!(t.selected, t.pending_scroll);
            assert_eq!(t.selected.as_ref().unwrap()[..2], [0, docs]);
        }
        _ => panic!("partitions"),
    }
    s.find_frame(0, false, true);
    assert_eq!(s.tabs[0].find.line(), "第 4 / 4 项");
    s.find_frame(0, true, false);
    assert_eq!(s.tabs[0].find.line(), "第 1 / 4 项");
    s.edit_find("nothing like it".to_string());
    s.find_frame(500, true, false);
    assert_eq!(s.tabs[0].find.line(), "没有匹配项");
    s.edit_find("  ".to_string());
    s.find_frame(500, false, false);
    assert_eq!(s.tabs[0].find.line(), "输入内容开始查找");
}

#[test]
fn finding_with_and_without_an_index_agrees() {
    let mut plain = window();
    let mut indexed = window();
    let v = list_version(&indexed);
    let idx = index(&indexed, v);
    indexed.set_main_index(idx);
    for q in ["docs", "*.mp4", "b", "?.txt"] {
        plain.edit_find(q.to_string());
        indexed.edit_find(q.to_string());
        plain.find_frame(1000, false, false);
        indexed.find_frame(1000, false, false);
        let n = plain.tabs[0].find.match_count();
        assert_eq!(n, indexed.tabs[0].find.match_count(), "query {q}");
        let mut a: Vec<Vec<usize>> = (0..n).map(|i| plain.tabs[0].find.path_of(i).unwrap().0).collect();
        let mut b: Vec<Vec<usize>> = (0..n).map(|i| indexed.tabs[0].find.path_of(i).unwrap().0).collect();
        a.sort();
        b.sort();
        assert_eq!(a, b, "query {q}");
        assert!(n == 0 || plain.tabs[0].find.path_of(0).unwrap().1.is_none());
        assert!(n == 0 || indexed.tabs[0].find.path_of(0).unwrap().1.is_some());
    }
    assert!(find_stays_open(true, true, true));
    assert!(!find_stays_open(true, true, false));
    assert!(!find_stays_open(false, false, false));
}

#[test]
fn finding_in_groups_looks_at_groups_and_files() {
    let mut s = window();
    s.open_extension_tab(Some(0));
    s.edit_find("txt".to_string());
    s.find_frame(1000, false, false);
    assert_eq!(s.tabs[1].find.match_count(), 3);
    assert_eq!(s.tabs[0].find.match_count(), 0);
}

#[test]
fn rows_are_selected_opened_and_deleted() {
    let mut s = window();
    s.apply_tree_action(TreeAction::ToggleExpand(vec![0]));
    assert!(s.partitions()[0].expanded);
    s.apply_tree_action(TreeAction::Select(vec![0, 1]));
    let before = s.partitions()[0].logical_size;
    let gone = s.partitions()[0].children[1].logical_size;
    s.apply_tree_action(TreeAction::RequestDelete {
        abs_path: vec![0, 1],
        name: "x".to_string(),
        full_path: "C:\\x".to_string(),
        is_folder: false,
        index_entry: None,
    });
    let p = s.confirm_delete().unwrap();
    assert!(s.confirm_delete().is_none());
    assert!(s.can_change(p.source, &p.abs_path));
    s.delete_done(&p, Ok(()));
    assert_eq!(s.partitions()[0].logical_size, before - gone);
    assert_eq!(s.partitions()[0].children.len(), 1);
    assert_eq!(s.status.as_ref().unwrap().text, "已删除到回收站: x");
    match &s.tabs[0].pane {
        Pane::Tree(t) => assert!(t.selected.is_none()),
        _ => panic!("partitions"),
    }
    s.delete_done(&p, Err("busy".to_string()));
    assert_eq!(s.status.as_ref().unwrap().text, "删除失败 (x): busy");
}

#[test]
fn snapshots_refuse_what_is_about_partitions() {
    let mut s = window();
    s.open_extension_tab(Some(0));
    for a in [
        TreeAction::RequestRescan(0),
        TreeAction::RequestRemovePartition(0),
        TreeAction::RequestExtensionBreakdown(0),
        TreeAction::RequestDuplicateFinder(0),
    ] {
        s.status = None;
        assert!(matches!(s.apply_tree_action(a), Effect::Nothing));
        assert!(s.status.as_ref().unwrap().text.starts_with("这是数据快照"));
    }
    assert_eq!(s.partitions().len(), 2);
    s.select_tab(0);
    assert!(matches!(s.apply_tree_action(TreeAction::RequestDuplicateFinder(0)), Effect::Compare(Some(0))));
    s.select_tab(0);
    assert!(matches!(s.apply_tree_action(TreeAction::RequestRescan(1)), Effect::Scan(_)));
}

#[test]
fn a_link_is_made_for_a_node_below_a_partition() {
    let mut s = window();
    s.apply_tree_action(TreeAction::RequestCreateSymlink {
        abs_path: vec![0],
        name: "C:".to_string(),
        full_path: "C:\\".to_string(),
        is_folder: true,
    });
    assert!(s.choose_link().is_none());
    s.apply_tree_action(TreeAction::RequestCreateSymlink {
        abs_path: vec![0, 0],
        name: "movie.mp4".to_string(),
        full_path: "C:\\movie.mp4".to_string(),
        is_folder: false,
    });
    let request = s.choose_link().unwrap().request();
    s.link_done(&request, Ok(LinkOutcome::Single { target_path: "D:\\m".to_string() }), 0);
    assert!(s.partitions()[0].children[0].is_reparse_point());
    assert_eq!(s.status.as_ref().unwrap().text, "已创建符号链接: movie.mp4 → D:\\m");
    s.link_done(&request, Err("no".to_string()), 0);
    assert_eq!(s.status.as_ref().unwrap().text, "创建符号链接失败 (movie.mp4): no");
}

fn duplicates() -> Session {
    let mut s = window();
    s.open_duplicate_tab(None);
    let group = folder("2 x 5 B", vec![
        file("x", 5).with_full_path("C:\\x".to_string()),
        file("y", 5).with_full_path("D:\\y".to_string()),
    ]);
    s.compare_news(None, CompareNews::Done(folder("dups", vec![group])));
    s
}

#[test]
fn a_group_of_duplicates_is_linked_to_one_of_them() {
    let mut s = duplicates();
    s.apply_tree_action(TreeAction::RequestCreateSymlinkGroup { abs_path: vec![0, 0], name: "g".to_string() });
    let members = s.group_members(1, &[0, 0]).unwrap();
    assert_eq!(members.len(), 2);
    let request = s.choose_link().unwrap().request();
    assert_eq!(request.source, Source::Tab(1));
    let mut first = None;
    let mut rest: Vec<bool> = Vec::new();
    assert!(matches!(next_group_step(&members, &first, &rest), GroupStep::Migrate(p) if p == members[0]));
    first = Some(Ok("E:\\t".to_string()));
    assert!(matches!(next_group_step(&members, &first, &rest), GroupStep::Replace { path, .. } if path == members[1]));
    rest.push(false);
    let outcome = match next_group_step(&members, &first, &rest) {
        GroupStep::Done(o) => o,
        _ => panic!("everything was tried"),
    };
    s.link_done(&request, Ok(outcome), 0);
    assert_eq!(s.status.as_ref().unwrap().text, "g 共 2 份，已将其中 1 份统一指向 E:\\t（有部分副本处理失败，详情见日志）");
    match &s.tabs[1].pane {
        Pane::Group(g) => assert!(g.root.children.is_empty()),
        _ => panic!("groups"),
    }
    let failed = Some(Err("no room".to_string()));
    assert!(matches!(next_group_step(&members, &failed, &vec![]), GroupStep::Fail(e) if e == "no room"));
}

#[test]
fn exporting_needs_the_index() {
    let mut s = Session::new();
    assert_eq!(s.export_csv(), ExportPlan::Nothing);
    let mut s = window();
    assert_eq!(s.export_csv(), ExportPlan::Nothing);
    assert!(s.status.as_ref().unwrap().text.starts_with("名字索引还在后台准备中"));
    let v = list_version(&s);
    let idx = index(&s, v);
    s.set_main_index(idx);
    assert_eq!(s.export_csv(), ExportPlan::Export);
    s.export_progress("C:", 4096);
    assert_eq!(s.status.as_ref().unwrap().text, "正在导出 CSV…（C:：已写 4096 行）");
    s.export_done(1, 2, "C:\\out");
    assert_eq!(s.status.as_ref().unwrap().text, "已导出 1/2 个 CSV 文件到 C:\\out");
    s.export_done(0, 2, "C:\\out");
    assert!(s.status.as_ref().unwrap().is_error);
    assert_eq!(export_file_name(0, "C:\\ 盘"), "diskforge_export_1_C___盘.csv");
}

#[test]
fn drives_are_scanned_in_the_order_of_their_letters() {
    let paths = build_scan_paths(vec!['E', 'C', 'D'], &vec!["C:\\games".to_string()]);
    assert_eq!(paths, vec!["C:\\", "D:\\", "E:\\", "C:\\games"]);
    let line = scan_summary(&disk("C:"), &None);
    assert!(line.contains("系统已用: 未知") && line.contains("文件: 3  文件夹: 1"));
    assert_eq!(category_line(&CategoryStat { label: "视频", size: 0, color: 0 }), None);
    assert_eq!(category_line(&CategoryStat { label: "视频", size: 1024, color: 0 }), Some("  分类[视频]: 1.00 KB".to_string()));
}

#[test]
fn the_window_says_what_it_is_about() {
    let mut s = window();
    assert_eq!(Session::new().focused_partition(), None);
    assert_eq!(s.focused_partition(), Some(0));
    s.apply_tree_action(TreeAction::Select(vec![1, 0]));
    assert_eq!(s.focused_partition(), Some(1));
    assert!(matches!(s.topbar(TopbarAction::ShowDuplicateFinder), Effect::Compare(None)));
    assert!(matches!(s.topbar(TopbarAction::OpenAbout), Effect::Nothing));
    s.topbar(TopbarAction::ShowExtensionBreakdown);
    assert_eq!(s.tabs[s.active_tab].kind, TabKind::Extensions);
    assert_eq!(brand_line(), "⛁ DiskForge v0.1.0 Beta");
    assert_eq!(about_button(Some(3)), ("不再提醒(3s)".to_string(), false));
    assert_eq!(about_button(None), ("不再提醒".to_string(), true));
    assert_eq!(about_outcome(true, true), AboutOutcome::CloseForGood);
    assert_eq!(about_outcome(false, false), AboutOutcome::Stay);
    assert_eq!(decide(true, true), Decision::Cancelled);
    assert_eq!(decide(true, false), Decision::Confirmed);
    assert_eq!(delete_question(true), "确定要把这个文件夹删除到回收站吗？");
    assert_eq!(drive_caption('C', Some("系统")), "💽 C:  (系统)");
    assert_eq!(drive_caption('C', Some("")), "💽 C:");
    assert_eq!(caption(TabKind::Search, "搜索 1"), "🔎 搜索 1");
    assert!(bar_shown(2) && !bar_shown(1) && closable(TabKind::Copy) && !closable(TabKind::Main));
    let w = show_duplicate_loading("C:", HashPhase::Confirm, 1, 2);
    assert_eq!(w.progress, "已处理 1 / 2 个文件");
    assert_eq!(w.step, "第 2 步 / 共 2 步：逐字节确认");
}

fn request(is_folder: bool, is_group: bool) -> LockRequest {
    LockRequest {
        tab_idx: 0,
        is_view_tab: false,
        abs_path: vec![0, 0],
        name: "x".to_string(),
        full_path: "C:\\x".to_string(),
        is_folder,
        is_group,
    }
}

fn findings(members: Vec<&str>, rename_probe: FolderOccupancy) -> LockFindings {
    LockFindings { members: members.into_iter().map(|m| m.to_string()).collect(), rename_probe }
}

fn process(pid: u32) -> LockingProcess {
    LockingProcess { pid, app_name: format!("app{pid}"), service_name: None }
}

fn lines(p: &LockPanel) -> Vec<String> {
    p.show_lock_check_modal().unwrap().into_iter().map(|part| match part {
        Part::Busy(s) => format!("busy {s}"),
        Part::Line(t, s) => format!("{} {s}", match t { Tone::Good => "good", Tone::Bad => "bad", Tone::Warning => "warn", Tone::Weak => "weak", Tone::Plain => "plain" }),
        Part::Button(b) => match b {
            DialogButton::StartLayered => "start".to_string(),
            DialogButton::LayeredTerminateAll => "end found".to_string(),
            DialogButton::LayeredSkip => "skip".to_string(),
            DialogButton::LayeredAdvance => "advance".to_string(),
            DialogButton::TerminateAll => "end all".to_string(),
        },
        Part::ProbeProcesses => "found".to_string(),
        Part::ResultProcesses => "holders".to_string(),
    }).collect()
}

#[test]
fn a_file_is_asked_about_and_answered() {
    let mut p = LockPanel::new();
    assert!(p.show_lock_check_modal().is_none());
    let ask = p.run_lock_check_with_feedback(request(false, false), None, findings(vec![], FolderOccupancy::Free));
    assert_eq!(ask, Some(vec!["C:\\x".to_string()]));
    assert_eq!(lines(&p), vec!["busy 正在检测占用……（不会卡住界面，可以先做别的事）"]);
    p.lock_check_done(Ok(vec![process(4)]));
    assert_eq!(lines(&p), vec!["warn 找到 1 个进程/服务正在占用，处理完下面这些就能继续了：", "end all", "holders"]);
    p.run_lock_check_with_feedback(p.last_request().unwrap(), Some("done".to_string()), findings(vec![], FolderOccupancy::Free));
    p.lock_check_done(Ok(vec![]));
    assert_eq!(lines(&p), vec!["good ✓ 没有检测到占用，可以放心删除/创建符号链接了。"]);
    assert_eq!(p.result.as_ref().unwrap().action_feedback.as_deref(), Some("done"));
    p.run_lock_check_with_feedback(request(false, false), None, findings(vec![], FolderOccupancy::Free));
    p.lock_check_done(Err("e".to_string()));
    assert_eq!(lines(&p), vec!["bad 检测失败：e"]);
    p.close();
    assert!(p.last_request().is_none());
}

#[test]
fn a_group_without_files_is_an_error_and_a_large_one_is_cut() {
    let mut p = LockPanel::new();
    assert!(p.run_lock_check_with_feedback(request(false, true), None, findings(vec![], FolderOccupancy::Free)).is_none());
    assert_eq!(lines(&p), vec!["bad 检测失败：这个分组现在没有可查的文件（可能已经被处理/删除了）。"]);
    let ask = p.run_lock_check_with_feedback(request(false, true), None, findings(vec!["a"; 2500], FolderOccupancy::Free));
    assert_eq!(ask.unwrap().len(), 2000);
    assert!(p.result.as_ref().unwrap().truncated);
}

#[test]
fn a_folder_is_searched_layer_by_layer() {
    let mut p = LockPanel::new();
    assert!(p.run_lock_check_with_feedback(request(true, false), None, findings(vec![], FolderOccupancy::Locked)).is_none());
    assert_eq!(lines(&p)[1], "start");
    p.start_layered_probe();
    assert_eq!(p.advance_layered_probe(), Some(vec!["C:\\x".to_string()]));
    let files = p.layer_listed(&vec![
        ProbeEntry::Folder { path: "C:\\x\\free".to_string(), free: true },
        ProbeEntry::Folder { path: "C:\\x\\held".to_string(), free: false },
        ProbeEntry::File { path: "C:\\x\\f".to_string() },
    ]);
    assert_eq!(files, Some(vec!["C:\\x\\f".to_string()]));
    assert!(p.advance_layered_probe().is_none());
    assert_eq!(lines(&p)[1], "busy 正在检测第 1 层……");
    p.layer_checked(Some(vec![process(4), process(4), process(5)]));
    let shown = lines(&p);
    assert_eq!(shown[1], "plain 第 1 层：检查了 2 个子文件夹（1 个没通过重命名探测）、1 个文件，这一层新发现 2 个占用进程/服务。");
    assert_eq!(shown[3..], ["end found", "skip", "found"]);
    assert_eq!(pids_of(&p.probe.as_ref().unwrap().procs), vec![4, 5]);
    assert_eq!(p.advance_layered_probe(), Some(vec!["C:\\x\\held".to_string()]));
    assert!(p.layer_listed(&vec![]).is_none());
    let q = p.probe.as_ref().unwrap();
    assert!(q.exhausted);
    assert_eq!(q.layer, 2);
    p.forget_process(4);
    assert_eq!(pids_of(&p.probe.as_ref().unwrap().procs), vec![5]);
    assert_eq!(p.probe_is_free().as_deref(), Some("C:\\x"));
    assert!(p.probe.as_ref().unwrap().procs.is_empty());
    assert!(lines(&p)[1].starts_with("warn 已经查到最深层，没有发现"));
}

#[test]
fn services_leave_the_search_by_name() {
    let mut p = LockPanel::new();
    p.run_lock_check_with_feedback(request(true, false), None, findings(vec![], FolderOccupancy::Inconclusive("?".to_string())));
    p.start_layered_probe();
    p.advance_layered_probe();
    p.layer_listed(&vec![ProbeEntry::File { path: "f".to_string() }]);
    p.layer_checked(Some(vec![
        LockingProcess { pid: 1, app_name: "a".to_string(), service_name: Some("svc".to_string()) },
        process(2),
    ]));
    p.forget_service("svc");
    assert_eq!(pids_of(&p.probe.as_ref().unwrap().procs), vec![2]);
}

#[test]
fn the_dialog_does_one_thing_at_a_time() {
    let clicks = || DialogClicks {
        terminate_pid: None,
        terminate_all: false,
        stop_service: None,
        refresh: false,
        start_layered: false,
        layered_terminate_all: false,
        layered_advance: false,
        close: false,
    };
    assert!(matches!(dialog_action(clicks()), DialogAction::Nothing));
    assert!(matches!(dialog_action(DialogClicks { close: true, ..clicks() }), DialogAction::Close));
    assert!(matches!(dialog_action(DialogClicks { close: true, refresh: true, ..clicks() }), DialogAction::Refresh));
    assert!(matches!(dialog_action(DialogClicks { terminate_pid: Some(3), terminate_all: true, ..clicks() }), DialogAction::Terminate(3)));
    assert_eq!(process_line(&process(3)), "PID 3");
    assert_eq!(ended_line(3, &Ok(())), "已结束进程 PID 3。");
    assert_eq!(ended_line(3, &Err("x".to_string())), "结束进程失败：x");
    assert_eq!(stopped_line("svc", &Ok(()), true), "已发送停止请求给服务 svc（服务真正停下来可能要几秒）。");
    assert_eq!(failure_line(&process(3), "x"), "app3（PID 3）: x");
    assert_eq!(ended_all_line(2, &vec![]), "已结束全部 2 个占用进程。");
    assert_eq!(ended_all_line(1, &vec!["a".to_string(), "b".to_string()]), "已结束 1 个进程，2 个失败——a；b");
}
