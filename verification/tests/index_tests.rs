//! The index of names: its shape, what it finds, how it sorts, and the tree that comes back out.

use std::time::Duration;

use diskforge::index_queries::split_ranges;
use diskforge::list_view::entry_row;
use diskforge::matcher::Matcher;
use diskforge::model::{Node, NodeKind, SortDir, SortKey};
use diskforge::search_index::{indexable, BuildStep, IndexBuilder, NameIndex};
use diskforge::ui;

fn node(name: &str, size: u64, kind: NodeKind, children: Vec<Node>) -> Node {
    let files = children.iter().filter(|c| c.kind == NodeKind::File).count() as u64;
    let folders = children.iter().filter(|c| c.kind == NodeKind::Folder).count() as u64;
    Node {
        name: name.to_string(),
        size,
        logical_size: size,
        physical_size: size,
        kind,
        color: 0xFFFF_FFFF,
        children,
        expanded: false,
        file_count: files,
        folder_count: folders,
        modified_ft: 0,
        created_ft: 0,
        accessed_ft: 0,
        attributes: 0,
        reparse_tag: 0,
        is_reserved: false,
        owner: String::new(),
        full_path_override: None,
    }
}

fn test_root() -> Node {
    node("C:", 100, NodeKind::Folder, vec![
        node("Windows", 60, NodeKind::Folder, vec![
            node("system32", 50, NodeKind::Folder, vec![
                node("notepad.EXE", 10, NodeKind::File, vec![]),
                node("AbC.txt", 5, NodeKind::File, vec![]),
            ]),
        ]),
        node("Users", 20, NodeKind::Folder, vec![
            node("readme.md", 3, NodeKind::File, vec![]),
        ]),
        node("top.mp4", 22, NodeKind::File, vec![]),
    ])
}

fn build_index(root: &Node, version: u64) -> NameIndex {
    let mut b = IndexBuilder::new_multi(std::slice::from_ref(root), &["C:\\".to_string()], version, true);
    for _ in 0..100 {
        match b.step(Duration::from_secs(10)) {
            BuildStep::Continue => continue,
            BuildStep::Done(idx) => return *idx,
        }
    }
    panic!("the index was not complete after 100 steps");
}

#[test]
fn test_index_shape_and_preorder() {
    let root = test_root();
    let idx = build_index(&root, 7);
    assert_eq!(idx.struct_version, 7);
    assert_eq!(idx.len(), 7);
    let names: Vec<&str> = (0..idx.len()).map(|i| idx.name_orig(i)).collect();
    assert_eq!(names, vec!["Windows", "system32", "notepad.EXE", "AbC.txt", "Users", "readme.md", "top.mp4"]);
    let files: Vec<&str> = idx.all_file_entries().iter().map(|&e| idx.name_orig(e as usize)).collect();
    assert_eq!(files, vec!["notepad.EXE", "AbC.txt", "readme.md", "top.mp4"]);
    assert_eq!(idx.file_entry_count(), 4);
}

#[test]
fn test_find_plain_case_insensitive() {
    let root = test_root();
    let idx = build_index(&root, 1);
    assert_eq!(idx.find_plain("abc"), vec![3]);
    assert_eq!(idx.find_plain("sys"), vec![1]);
    assert_eq!(idx.find_plain("MP4"), vec![6]);
    assert!(idx.find_plain("").is_empty());
    assert!(idx.find_plain("xxxxxxxxxxxxxxxxxxxxxxxxxxxx").is_empty());
}

#[test]
fn test_find_plain_boundary_no_cross_name_false_hit() {
    let root = node("X:", 10, NodeKind::Folder, vec![
        node("ab", 1, NodeKind::File, vec![]),
        node("cd", 2, NodeKind::File, vec![]),
    ]);
    let idx = build_index(&root, 1);
    assert!(idx.find_plain("bc").is_empty(), "跨名拼接的假命中必须被剔除");
    assert_eq!(idx.find_plain("ab"), vec![0]);
    assert_eq!(idx.find_plain("cd"), vec![1]);
    assert!(idx.find_plain("abcd").is_empty());
}

#[test]
fn test_find_regex_and_wildcards() {
    let root = test_root();
    let idx = build_index(&root, 1);
    let re = regex::Regex::new(r"(?i)^.*\.exe$").unwrap();
    assert_eq!(idx.find_regex(&re), vec![2]);
    let re2 = regex::Regex::new(r"(?i)^readme\.md$").unwrap();
    assert_eq!(idx.find_regex(&re2), vec![5]);
    let re3 = regex::Regex::new(r"(?i)WIN").unwrap();
    assert_eq!(idx.find_regex(&re3), vec![0]);
}

#[test]
fn test_abs_path_of_matches_tree_coordinates() {
    let root = test_root();
    let idx = build_index(&root, 1);
    assert_eq!(idx.abs_path_of(0), vec![0, 0]);
    assert_eq!(idx.abs_path_of(1), vec![0, 0, 0]);
    assert_eq!(idx.abs_path_of(2), vec![0, 0, 0, 0]);
    assert_eq!(idx.abs_path_of(3), vec![0, 0, 0, 1]);
    assert_eq!(idx.abs_path_of(5), vec![0, 1, 0]);
    assert_eq!(idx.abs_path_of(6), vec![0, 2]);
}

#[test]
fn test_abs_path_eq_agrees_with_abs_path_of() {
    let root = test_root();
    let idx = build_index(&root, 1);
    for e in 0..idx.len() as u32 {
        let p = idx.abs_path_of(e);
        assert!(idx.abs_path_eq(e, &p), "条目 {e} 的 abs_path_eq 应为真：{p:?}");
    }
    assert!(idx.abs_path_eq(3, &[0, 0, 0, 1]));
    assert!(idx.abs_path_eq(6, &[0, 2]));
    assert!(!idx.abs_path_eq(3, &[0, 0, 0, 0]));
    assert!(!idx.abs_path_eq(3, &[0, 0, 1, 1]));
    assert!(!idx.abs_path_eq(3, &[1, 0, 0, 1]));
    assert!(!idx.abs_path_eq(6, &[0, 2, 0]));
    assert!(!idx.abs_path_eq(0, &[0]));
    assert!(!idx.abs_path_eq(0, &[]));
    assert!(!idx.abs_path_eq(3, &[2, 0, 0, 1]));
}

#[test]
fn test_dir_pool() {
    let root = test_root();
    let idx = build_index(&root, 1);
    assert_eq!(idx.dir_path(0), "C:");
    assert_eq!(idx.dir_path(2), "C:\\Windows\\system32");
    assert_eq!(idx.dir_path(5), "C:\\Users");
    assert_eq!(idx.dir_path(6), "C:");
}

#[test]
fn test_sort_order_by_name() {
    let root = test_root();
    let idx = build_index(&root, 1);
    let mut order = idx.all_file_entries();
    idx.sort_order(&mut order, SortKey::Name, SortDir::Asc);
    let names: Vec<&str> = order.iter().map(|&e| idx.name_orig(e as usize)).collect();
    assert_eq!(names, vec!["AbC.txt", "notepad.EXE", "readme.md", "top.mp4"]);
    idx.sort_order(&mut order, SortKey::Name, SortDir::Desc);
    let names_desc: Vec<&str> = order.iter().map(|&e| idx.name_orig(e as usize)).collect();
    assert_eq!(names_desc, vec!["top.mp4", "readme.md", "notepad.EXE", "AbC.txt"]);
}

#[test]
fn test_rebuild_tree_isomorphic() {
    let root = test_root();
    let idx = build_index(&root, 1);
    let rebuilt = idx.rebuild_tree();
    assert_eq!(rebuilt.len(), 1);
    let r = &rebuilt[0];
    assert_eq!(r.name, "C:");
    assert_eq!(r.logical_size, 100);
    let top_names: Vec<&str> = r.children.iter().map(|c| c.name.as_str()).collect();
    assert_eq!(top_names, vec!["Windows", "Users", "top.mp4"]);
    let sys = &r.children[0].children[0];
    assert_eq!(sys.name, "system32");
    assert_eq!(sys.logical_size, 50);
    let leaf_names: Vec<&str> = sys.children.iter().map(|c| c.name.as_str()).collect();
    assert_eq!(leaf_names, vec!["notepad.EXE", "AbC.txt"]);
    assert_eq!(sys.children[1].logical_size, 5);
    assert_eq!(sys.children[0].kind, NodeKind::File);
    assert_eq!(r.children[0].kind, NodeKind::Folder);
}

#[test]
fn test_single_root_builder_shape() {
    let root = test_root();
    let mut b = IndexBuilder::new_single_root(&root, 42);
    let idx = loop {
        match b.step(Duration::from_secs(10)) {
            BuildStep::Continue => continue,
            BuildStep::Done(idx) => break *idx,
        }
    };
    assert_eq!(idx.struct_version, 42);
    assert_eq!(idx.len(), 7);
    assert_eq!(idx.dir_path(0), "");
}

#[test]
fn plain_case_insensitive_contains() {
    let m = Matcher::build("readme", false).unwrap();
    assert!(m.is_match("README.md"));
    assert!(m.is_match("my_ReadMe_file.txt"));
    assert!(!m.is_match("license.txt"));
}

#[test]
fn plain_empty_query_matches_everything() {
    let m = Matcher::build("", false).unwrap();
    assert!(m.is_match("anything.exe"));
}

#[test]
fn wildcard_suffix() {
    let m = Matcher::build_auto("*.pid");
    assert!(m.is_match("server.pid"));
    assert!(!m.is_match("server.pid.old"));
}

#[test]
fn wildcard_single_char() {
    let m = Matcher::build_auto("a?c");
    assert!(m.is_match("abc"));
    assert!(!m.is_match("ac"));
}

#[test]
fn non_ascii_name_matches_by_raw_bytes() {
    let m = Matcher::build("报告", false).unwrap();
    assert!(m.is_match("2024年度报告.docx"));
    assert!(!m.is_match("2024年度总结.docx"));
}

#[test]
fn a_broken_regular_expression_is_reported() {
    match Matcher::build("(", true) {
        Ok(_) => panic!("an open bracket is no regular expression"),
        Err(e) => assert!(e.starts_with("正则表达式有误：")),
    }
    match ui::Matcher::build("(", true) {
        Ok(_) => panic!("an open bracket is no regular expression"),
        Err(e) => assert!(e.starts_with("正则表达式有误：")),
    }
    let m = ui::Matcher::build("^A.C$", true).unwrap();
    assert!(m.is_match("abc"));
    assert!(!m.is_match("abcd"));
}

#[test]
fn a_dot_in_a_wildcard_query_is_a_dot() {
    let m = ui::Matcher::build_auto("*.md");
    assert!(m.is_match("README.MD"));
    assert!(!m.is_match("readmexmd"));
}

#[test]
fn hits_in_an_index_and_matches_by_name_agree() {
    let root = test_root();
    let idx = build_index(&root, 1);
    for q in ["e", "*.txt", "WINDOWS", "s?stem*", "没有"] {
        let m = ui::Matcher::build_auto(q);
        let hits = m.find_in_index(&idx);
        for e in 0..idx.len() as u32 {
            assert_eq!(hits.contains(&e), m.is_match(idx.name_orig(e as usize)), "query {q}, entry {e}");
        }
    }
}

#[test]
fn a_capital_sharp_letter_is_found_in_lower_case() {
    let root = node("C:", 1, NodeKind::Folder, vec![node("ÄRGER.txt", 1, NodeKind::File, vec![])]);
    let idx = build_index(&root, 1);
    assert_eq!(idx.name_lower(0), "ärger.txt");
    assert_eq!(idx.find_plain("ärger"), vec![0]);
    assert_eq!(idx.find_plain("ÄRGER"), vec![0]);
}

#[test]
fn sorting_by_size_puts_the_largest_first_when_descending() {
    let root = test_root();
    let idx = build_index(&root, 1);
    let mut order = idx.all_file_entries();
    idx.sort_order(&mut order, SortKey::Size, SortDir::Desc);
    let sizes: Vec<u64> = order.iter().map(|&e| idx.entry(e as usize).logical_size).collect();
    assert_eq!(sizes, vec![22, 10, 5, 3]);
}

#[test]
fn an_index_entry_knows_its_row() {
    let root = test_root();
    let idx = build_index(&root, 1);
    let row = entry_row(&idx, 3).unwrap();
    assert_eq!(row.name, "AbC.txt");
    assert_eq!(row.parent_logical, 50);
    assert_eq!(row.disk_logical, 100);
    assert_eq!(row.indexed_path(), "C:\\Windows\\system32\\AbC.txt");
    assert!(entry_row(&idx, 7).is_none());
}

#[test]
fn a_tree_of_ordinary_size_can_be_indexed() {
    assert!(indexable(&[test_root()]));
    assert!(indexable(&[]));
}

#[test]
fn the_rebuilt_tree_is_folded_up() {
    let mut root = test_root();
    root.expanded = true;
    root.children[0].expanded = true;
    root.children[0].file_count = 2;
    let idx = build_index(&root, 1);
    let back = idx.rebuild_tree();
    assert!(!back[0].children[0].expanded);
    assert_eq!(back[0].children[0].file_count, 2);
    assert_eq!(back[0].children[0].folder_count, 1);
}

#[test]
fn parts_cover_the_entries_once() {
    assert_eq!(split_ranges(10, 3), vec![(0, 4), (4, 7), (7, 10)]);
    assert_eq!(split_ranges(2, 8), vec![(0, 1), (1, 2)]);
    assert_eq!(split_ranges(5, 0), vec![(0, 5)]);
    assert!(split_ranges(0, 4).is_empty());
}

#[test]
fn searching_in_parts_finds_what_searching_at_once_finds() {
    let root = test_root();
    let idx = build_index(&root, 1);
    let mut plain: Vec<u32> = Vec::new();
    let mut regex: Vec<u32> = Vec::new();
    let re = regex::Regex::new("(?i)e").unwrap();
    for (from, to) in split_ranges(idx.len(), 3) {
        plain.extend(idx.find_plain_range("s", from, to));
        regex.extend(idx.find_regex_range(&re, from, to));
    }
    assert_eq!(plain, idx.find_plain("s"));
    assert_eq!(plain, vec![0, 1, 4]);
    assert_eq!(regex, idx.find_regex(&re));
}

#[test]
fn a_step_without_time_does_nothing() {
    let root = test_root();
    let mut b = IndexBuilder::new_single_root(&root, 1);
    assert!(matches!(b.step(Duration::ZERO), BuildStep::Continue));
    while b.advance() {}
    match b.step(Duration::from_secs(10)) {
        BuildStep::Done(idx) => {
            assert_eq!(idx.root_name(0), "C:");
            assert_eq!(idx.root_count(), 1);
            assert_eq!(idx.file_entry_count(), 4);
        }
        BuildStep::Continue => panic!("nothing was left to do"),
    }
}

#[test]
fn a_turn_goes_by_the_time_that_is_over() {
    let root = node("X:", 10, NodeKind::Folder, vec![
        node("ab", 1, NodeKind::File, vec![]),
        node("cd", 2, NodeKind::File, vec![]),
    ]);
    let mut b = IndexBuilder::new_single_root(&root, 3);
    assert!(matches!(b.step_at(5, 5), Some(BuildStep::Continue)));
    assert!(b.step_at(0, 5).is_none());
    assert!(matches!(b.step_at(6, 5), Some(BuildStep::Continue)));
    assert!(b.step_at(4, 5).is_none());
    assert!(matches!(b.step_at(5, 5), Some(BuildStep::Continue)));
    match b.step_at(4, 5) {
        Some(BuildStep::Done(idx)) => {
            assert_eq!(idx.struct_version, 3);
            let names: Vec<&str> = (0..idx.len()).map(|i| idx.name_orig(i)).collect();
            assert_eq!(names, vec!["ab", "cd"]);
        }
        _ => panic!("nothing was left to do"),
    }
}

#[test]
fn an_entry_is_found_once_however_often_it_holds_the_query() {
    let root = node("X:", 1, NodeKind::Folder, vec![node("banana", 1, NodeKind::File, vec![])]);
    let idx = build_index(&root, 1);
    assert_eq!(idx.find_plain("an"), vec![0]);
}

#[test]
fn a_query_is_found_as_it_was_typed() {
    let m = Matcher::build("\u{c9}t\u{e9}", false).unwrap();
    assert!(m.is_match("\u{c9}t\u{e9} 2024.txt"));
    assert!(m.is_match("\u{c9}T\u{e9} 2024.txt"));
    assert!(Matcher::build_auto("\u{c9}").is_match("\u{c9}"));
    assert!(Matcher::build("\u{391}\u{3a3}", false).unwrap().is_match("\u{391}\u{3a3}\u{391}"));
}

#[test]
fn case_is_not_regarded_beyond_ascii() {
    assert!(Matcher::build("\u{c9}", false).unwrap().is_match("\u{e9}t\u{e9}"));
    assert!(Matcher::build("\u{e9}", false).unwrap().is_match("\u{c9}T"));
    assert!(Matcher::build("\u{391}\u{3a3}", false).unwrap().is_match("\u{3b1}\u{3c2}"));
    assert!(!Matcher::build("\u{c9}", false).unwrap().is_match("e"));
    assert!(!Matcher::build("readme", false).unwrap().is_match("license"));
}

#[test]
fn siblings_are_numbered_and_know_the_size_of_their_parent() {
    let root = test_root();
    let idx = build_index(&root, 1);
    let numbers: Vec<(u32, u64)> = idx.entries().iter().map(|e| (e.child_idx, e.parent_logical)).collect();
    assert_eq!(numbers, vec![(0, 100), (0, 60), (0, 50), (1, 50), (1, 100), (0, 20), (2, 100)]);
    let empty = node("X:", 0, NodeKind::Folder, vec![node("a", 0, NodeKind::File, vec![])]);
    assert_eq!(build_index(&empty, 1).entry(0).parent_logical, 1);
}
