//! Trees, the rows of the lists, and the program's own records.

use std::time::Duration;

use diskforge::about::{is_sponsor_suppressed, set_sponsor_suppressed};
use diskforge::applog;
use diskforge::compact_tree::{self, GroupItem, ViewState};
use diskforge::crash_logger::{self, CrashFacts, PanicPlace};
use diskforge::list_search::{blank, search_click, ListSearch};
use diskforge::list_view::{
    column_shown, disk_kind, disk_total, explorer_argument, header_column, header_text, hover_text,
    is_stale, menu_action, menu_enabled, node_row, row_cells, scanned_line, usage_line, CacheKey,
    DiskUsage, MenuItem, RowTimes,
};
use diskforge::model::{Node, SortDir, SortKey, SortState};
use diskforge::search_index::{BuildStep, IndexBuilder, NameIndex};
use diskforge::tree_list::{
    build_full_path, click_action, depth_color, find_row, list_rows, path_of_row, Row,
};
use diskforge::ui::TreeAction;

fn file(name: &str, size: u64) -> Node {
    Node::new_file(name.to_string(), size, 0xFFFF_FFFF)
}

fn folder(name: &str, children: Vec<Node>) -> Node {
    Node::new_folder(name.to_string(), 0xFFFF_FFFF, children)
}

fn disk() -> Node {
    folder("C:", vec![
        folder("docs", vec![file("a.txt", 10), file("b.txt", 30)]),
        file("movie.mp4", 100),
        folder("bin", vec![file("tool.exe", 7)]),
    ])
}

fn by(key: SortKey, dir: SortDir) -> SortState {
    SortState { key, dir }
}

#[test]
fn a_new_folder_adds_up_its_children() {
    let d = disk();
    assert_eq!((d.logical_size, d.file_count, d.folder_count), (147, 4, 2));
    assert_eq!(d.size, d.logical_size);
}

#[test]
fn removing_a_node_takes_it_off_all_totals() {
    let mut d = disk();
    let docs = d.children.iter().position(|c| c.name == "docs").unwrap();
    let b = d.children[docs].children.iter().position(|c| c.name == "b.txt").unwrap();
    let gone = d.remove_at_path(&[docs, b]).unwrap();
    assert_eq!(gone.name, "b.txt");
    assert_eq!((d.logical_size, d.file_count), (117, 3));
    assert_eq!(d.children[docs].logical_size, 10);
    assert!(d.remove_at_path(&[docs, 9]).is_none());
    assert!(d.remove_at_path(&[]).is_none());
    assert_eq!(d.logical_size, 117);
}

#[test]
fn replacing_a_node_keeps_the_totals_right() {
    let mut d = disk();
    let movie = d.children.iter().position(|c| c.name == "movie.mp4").unwrap();
    assert!(d.replace_at_path(&[movie], file("movie.mp4", 1)));
    assert_eq!((d.logical_size, d.file_count), (48, 4));
    assert!(!d.replace_at_path(&[8], file("x", 1)));
}

#[test]
fn closing_a_folder_closes_everything_below_it() {
    let mut d = folder("r", vec![folder("a", vec![folder("b", vec![file("c", 1)])])]);
    assert!(d.toggle_expand(&[]));
    assert!(d.toggle_expand(&[0]));
    assert!(d.toggle_expand(&[0, 0]));
    assert!(d.toggle_expand(&[0]));
    assert!(d.expanded && !d.children[0].expanded && !d.children[0].children[0].expanded);
    assert!(!d.toggle_expand(&[5]));
}

#[test]
fn rows_come_in_the_order_of_a_column() {
    let mut d = disk();
    d.expanded = true;
    let rows = list_rows(std::slice::from_ref(&d), true, by(SortKey::Size, SortDir::Desc));
    let names: Vec<&str> = rows.iter().map(|r| match r {
        Row::Disk { .. } => "disk",
        Row::Child { abs_path, .. } => d.get_at_path(&abs_path[1..]).unwrap().name.as_str(),
    }).collect();
    assert_eq!(names, vec!["disk", "movie.mp4", "docs", "bin"]);
    let rows = list_rows(std::slice::from_ref(&d), true, by(SortKey::Name, SortDir::Asc));
    let first = path_of_row(&rows[1]);
    assert_eq!(d.get_at_path(&first[1..]).unwrap().name, "bin");
    assert_eq!(find_row(&rows, &first), Some(1));
    assert_eq!(find_row(&rows, &[7]), None);
}

#[test]
fn metadata_is_hidden_unless_everything_is_shown() {
    let mut d = disk();
    d.expanded = true;
    d.children[0].is_reserved = true;
    let all = list_rows(std::slice::from_ref(&d), true, by(SortKey::Name, SortDir::Asc));
    let some = list_rows(std::slice::from_ref(&d), false, by(SortKey::Name, SortDir::Asc));
    assert_eq!(all.len(), some.len() + 1);
}

#[test]
fn a_click_opens_folders_and_selects_files() {
    let mut d = disk();
    d.expanded = true;
    let rows = list_rows(std::slice::from_ref(&d), true, by(SortKey::Size, SortDir::Desc));
    assert!(matches!(click_action(&rows, Some(0), None, None), TreeAction::ToggleExpand(p) if p == vec![0]));
    assert!(matches!(click_action(&rows, Some(1), None, None), TreeAction::Select(_)));
    assert!(matches!(click_action(&rows, Some(2), None, None), TreeAction::ToggleExpand(_)));
    assert!(matches!(click_action(&rows, None, Some(2), None), TreeAction::Select(_)));
    assert!(matches!(click_action(&rows, Some(2), None, Some(TreeAction::RequestRescan(0))), TreeAction::RequestRescan(0)));
    assert!(matches!(click_action(&rows, None, None, None), TreeAction::Nothing));
}

#[test]
fn paths_follow_the_tree() {
    let d = disk();
    let docs = d.children.iter().position(|c| c.name == "docs").unwrap();
    let roots = vec!["C:\\".to_string()];
    let trees = vec![d];
    assert_eq!(build_full_path(&trees, &roots, &[0]), "C:");
    assert_eq!(build_full_path(&trees, &roots, &[0, docs]), "C:\\docs");
    assert_eq!(build_full_path(&trees, &roots, &[]), "");
    assert_eq!(depth_color(0, true), depth_color(6, true));
}

#[test]
fn headings_show_what_the_list_is_sorted_by() {
    let s = by(SortKey::Name, SortDir::Asc);
    assert_eq!(header_text("名称", SortKey::Name, s), "名称 ▲");
    assert_eq!(header_text("大小", SortKey::Size, s), "大小");
    assert_eq!(header_column(15), ("路径", SortKey::Path));
    assert!(column_shown(0, false, false) && !column_shown(8, false, false) && column_shown(15, false, true));
    let mut t = SortState::default();
    t.click(SortKey::Size);
    assert_eq!(t, by(SortKey::Size, SortDir::Asc));
    t.click(SortKey::Name);
    assert_eq!(t, by(SortKey::Name, SortDir::Desc));
}

#[test]
fn the_cells_of_a_row() {
    let d = disk();
    let row = node_row(&d, 0, 147, 147);
    let times = RowTimes { modified: String::new(), created: "c".to_string(), accessed: String::new() };
    let cells = row_cells(&row, &times);
    assert_eq!(cells[0], "📁 C:");
    assert_eq!(cells[1], "147.00 B");
    assert_eq!(cells[2], "—");
    assert_eq!(cells[4], "c");
    assert_eq!((cells[6].as_str(), cells[7].as_str(), cells[8].as_str()), ("6", "4", "2"));
    let f = file("x", 1);
    assert_eq!(row_cells(&node_row(&f, 0, 1, 1), &times)[6], "—");
}

#[test]
fn a_volume_says_how_full_it_is() {
    let u = DiskUsage { total_bytes: 4096, used_bytes: 1024, free_bytes: 3072, file_system: "NTFS".to_string() };
    assert_eq!(usage_line(&u), "总: 4.00K  已用: 1.00K  可用: 3.00K");
    assert_eq!(scanned_line(1024, 2048), "扫描: 逻辑=1.00K  物理=2.00K");
    assert_eq!(disk_kind(&None, "m"), "m");
    assert_eq!(disk_total(&None, 0), 1);
    let info = Some(u);
    assert_eq!(disk_kind(&info, "m"), "NTFS");
    assert_eq!(disk_total(&info, 0), 4096);
}

#[test]
fn menus_ask_for_actions() {
    let path = vec![0, 1];
    match menu_action(MenuItem::Delete, true, "n", "C:\\n", &path, Some(3)) {
        TreeAction::RequestDelete { abs_path, name, full_path, is_folder, index_entry } => {
            assert_eq!((abs_path, name.as_str(), full_path.as_str(), is_folder, index_entry), (vec![0, 1], "n", "C:\\n", true, Some(3)));
        }
        _ => panic!("deleting was asked for"),
    }
    assert!(!menu_enabled(MenuItem::CreateSymlink, true));
    assert!(menu_enabled(MenuItem::Delete, true));
    assert_eq!(hover_text(false, false, "p"), None);
    assert_eq!(hover_text(true, false, "p"), Some("p".to_string()));
    assert!(hover_text(true, true, "p").unwrap().starts_with("p\n"));
    assert!(explorer_argument("C:\\x", true).unwrap().contains("C:\\x"));
    let k = CacheKey { sort: SortState::default(), expand_version: 1, show_all: true, partitions_len: 1, partitions_id: 2 };
    assert!(is_stale(None, k) && !is_stale(Some(k), k) && is_stale(Some(CacheKey { expand_version: 2, ..k }), k));
}

fn index(d: &Node) -> NameIndex {
    let mut b = IndexBuilder::new_multi(std::slice::from_ref(d), &["C:\\".to_string()], 1, true);
    loop {
        match b.step(Duration::from_secs(10)) {
            BuildStep::Continue => continue,
            BuildStep::Done(i) => return *i,
        }
    }
}

#[test]
fn search_results_follow_the_query() {
    let d = disk();
    let idx = index(&d);
    let mut s = ListSearch::new();
    s.refresh(&idx, 1);
    assert_eq!(s.row_count(), 4);
    s.edit("TXT".to_string());
    assert_eq!(s.pause(100), Some(80));
    s.refresh(&idx, 1);
    assert_eq!(s.row_count(), 4);
    assert_eq!(s.pause(180), None);
    s.refresh(&idx, 1);
    assert_eq!(s.row_count(), 2);
    let e = s.row(0).unwrap();
    s.mark_search_row_removed(e);
    s.refresh(&idx, 1);
    assert_eq!(s.row_count(), 1);
    assert_ne!(s.row(0), Some(e));
    assert!(matches!(search_click(&idx, s.row(0), None, None), TreeAction::Select(_)));
    assert!(matches!(search_click(&idx, Some(99), None, None), TreeAction::Nothing));
    assert!(blank(" \u{3000}\t") && !blank(" a "));
}

#[test]
fn search_results_are_sorted_in_the_background() {
    let d = disk();
    let idx = index(&d);
    let mut s = ListSearch::new();
    s.refresh(&idx, 1);
    let sort = by(SortKey::Name, SortDir::Asc);
    let mut order = s.start_sort(sort).unwrap();
    assert!(s.start_sort(sort).is_none());
    idx.sort_order(&mut order, sort.key, sort.dir);
    s.end_sort(Some(order));
    assert!(s.start_sort(sort).is_none());
    assert_eq!(idx.name_orig(s.row(0).unwrap() as usize), "a.txt");
    assert!(s.start_sort(by(SortKey::Size, SortDir::Asc)).is_some());
    s.end_sort(None);
    assert!(s.start_sort(by(SortKey::Size, SortDir::Asc)).is_some());
    let e = s.row(2).unwrap();
    assert_eq!(s.find_row(&idx, Some(e), &[]), Some(2));
    assert_eq!(s.find_row(&idx, None, &idx.abs_path_of(e)), Some(2));
}

#[test]
fn groups_are_listed_with_their_files() {
    let mut root = folder("root", vec![
        folder(".txt", vec![file("a", 1).with_full_path("C:\\d\\a".to_string()), file("b", 9).with_full_path("C:\\b".to_string())]),
        folder(".mp4", vec![file("m", 100).with_full_path("C:\\m".to_string())]),
    ]);
    let mut v = ViewState::default();
    v.rebuild_view_cache(&root);
    assert_eq!(v.row_count(), 2);
    let txt = root.children.iter().position(|c| c.name == ".txt").unwrap();
    assert_eq!(v.find_row(&[0, txt]), Some(1));
    assert!(matches!(v.click_action(Some(1), None, None), TreeAction::ToggleExpand(p) if p == vec![0, txt]));
    root.children[txt].expanded = true;
    v.rebuild_view_cache(&root);
    assert_eq!(v.row_count(), 2);
    v.expand_version += 1;
    v.rebuild_view_cache(&root);
    assert_eq!(v.row_count(), 4);
    let r = v.row(2).unwrap();
    assert_eq!(root.get_at_path(&r.abs_path[1..]).unwrap().name, "b");
    assert!(matches!(v.click_action(Some(2), None, None), TreeAction::Select(_)));
    v.sort.click(compact_tree::SortKey::Path);
    v.sort.click(compact_tree::SortKey::Path);
    v.rebuild_view_cache(&root);
    assert_eq!(compact_tree::header_column(3, v.sort).0, "路径 ▲");
    assert_eq!(compact_tree::dir_text(&root.children[txt].children[1]), "C:\\d");
    assert!(compact_tree::group_menu_action(GroupItem::CheckLock, false, &vec![0, 0], "g").is_none());
    assert!(compact_tree::group_menu_action(GroupItem::CheckLock, true, &vec![0, 0], "g").is_some());
    assert!(compact_tree::file_menu_action(MenuItem::CreateSymlink, &vec![0, 0, 0], "a", "p").is_none());
}

#[test]
fn the_log_starts_over_when_it_is_full() {
    let o = applog::init(5_242_880);
    assert!(o.truncate);
    assert_eq!(o.size, 0);
    assert_eq!(applog::init(10).size, 10);
    assert_eq!(applog::write_line(10, 4), (15, false));
    assert_eq!(applog::write_line(5_242_870, 9), (5_242_880, true));
    assert_eq!(applog::restarted(), 0);
    assert_eq!(applog::log("12:00", "hello"), "[12:00] hello");
    assert_eq!(applog::log_batch("t", &["a".to_string(), "b".to_string()]), vec!["[t] a", "[t] b"]);
    assert!(applog::enabled("diskforge::scan") && !applog::enabled("egui"));
    assert_eq!(applog::start_line(7), "==== DiskForge v0.1.0 Beta 启动 (unix_ts=7) ====");
    assert!(applog::opened_line("p", true, true).ends_with("（已超过 5MB，重新开始）"));
    assert!(applog::opened_line("p", false, false).contains("打开日志文件失败"));
}

#[test]
fn crashes_leave_a_line() {
    assert_eq!(crash_logger::crash_line(None), "==== CRASH 发生系统级异常，但异常信息不可读 ====");
    let f = CrashFacts { code: 0xC000_0005, address: 0x1234, thread_id: 7, words: Some((1, 0xFF)) };
    assert_eq!(
        crash_logger::crash_line(Some(f)),
        "==== CRASH [线程 ID 7] 异常 0xC0000005（访问越界（读/写了无效的内存地址）），发生地址 0x0000000000001234，试图写入 0x00000000000000FF ===="
    );
    let g = CrashFacts { code: 0xC000_0094, ..f };
    assert!(crash_logger::crash_line(Some(g)).ends_with("发生地址 0x0000000000001234 ===="));
    let p = PanicPlace { file: "a.rs", line: 3, column: 4 };
    assert_eq!(crash_logger::panic_line(None, Some(p), Some("x")), "==== PANIC [线程 <unnamed>] a.rs:3:4: x ====");
    assert_eq!(crash_logger::panic_line(Some("t"), None, None), "==== PANIC [线程 t] <unknown location>: <non-string panic payload> ====");
    assert!(crash_logger::install(true).is_some() && crash_logger::install(false).is_none());
}

#[test]
fn the_reminder_is_turned_off_by_a_file() {
    assert!(is_sponsor_suppressed(Some(true)));
    assert!(!is_sponsor_suppressed(Some(false)));
    assert!(!is_sponsor_suppressed(None));
    assert!(set_sponsor_suppressed(true, "2026-01-01 00:00:00").unwrap().contains("写入时间: 2026-01-01 00:00:00\n"));
    assert!(set_sponsor_suppressed(false, "x").is_none());
}

#[test]
fn an_exclusive_toggle_leaves_one_child_open() {
    let mut d = folder("C:", vec![
        folder("a", vec![folder("b", vec![])]),
        folder("c", vec![]),
    ]);
    d.children[0].expanded = true;
    d.children[0].children[0].expanded = true;
    assert!(d.exclusive_toggle(&[1]));
    assert!(d.children[1].expanded);
    assert!(!d.children[0].expanded);
    assert!(!d.exclusive_toggle(&[1]));
    assert!(!d.children[1].expanded);
    assert!(!d.exclusive_toggle(&[]));
    assert!(!d.exclusive_toggle(&[7]));
}
