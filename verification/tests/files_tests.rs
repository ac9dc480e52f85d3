//! Groups of files, files with the same content, tables of files, and operations on files.

use diskforge::categorize::{categories_in_range, classify, compute_categories, split_extension};
use diskforge::dedup::{
    byte_verify_cluster, cluster_by_hash, compare_pieces, count_files, find_duplicates,
    lengths_differ, lengths_match, may_cache, report_due, verify_identical, worker_thread_count,
    Cluster, ContentCheck, DuplicateGroup, HashPhase, HashedFile, HeaderJob, Verdict,
};
use diskforge::digest::{hash_file_blake3, hash_less, hash_window, window_len, FileHash, ReadReply};
use diskforge::dup_tree::{sample, show_duplicates, summary, wasted_bytes, wasted_in_all};
use diskforge::export::{header_line, CsvExport, RowTexts};
use diskforge::file_groups::{
    build_extension_tree, build_extension_tree_multi, collect_duplicate_candidates, group_numbers,
    RootAt, SizeGroup,
};
use diskforge::file_ops::{
    build_refreshed_symlink_node, check_folder_occupied_by_rename, create_symlink,
    delete_to_recycle_bin, describe_locking_processes, diskforge_base_dir, find_locking_processes,
    mirrored_folder_target_path, open_properties, stop_service, terminate_process,
    to_extended_length_path, CallReply, FolderOccupancy, KillFacts, KillStep, LinkStep, LockFacts,
    LockStep, LockingProcess, RawProcess, RenameError, RenameFacts, RenameStep, ServiceFacts,
    ServiceStep, ShellReply,
};
use diskforge::folder_walk::{FolderTotals, FolderWalk, SearchStep, WalkStep};
use diskforge::migrate::{
    delete_to_recycle_bin_with_retry, entry_use, join_relative, migrate_file_to_symlink,
    migrate_folder_to_symlink, offender_path, replace_with_symlink, EntryUse, FileFacts, FileStep,
    FolderFacts, FolderStep, ReplaceFacts, ReplaceStep, RetryFacts, RetryStep,
};
use diskforge::model::Node;
use diskforge::search_index::{BuildStep, IndexBuilder};
use diskforge::search_progress::{Report, SearchProgress};

fn file(name: &str, size: u64) -> Node {
    Node::new_file(name.to_string(), size, 0xFFFF_FFFF)
}

fn folder(name: &str, children: Vec<Node>) -> Node {
    Node::new_folder(name.to_string(), 0xFFFF_FFFF, children)
}

fn sample_tree() -> Node {
    folder("C:", vec![
        folder("docs", vec![file("a.txt", 10), file("b.TXT", 30), file("noext", 5)]),
        file("movie.mp4", 100),
        file("c.txt", 10),
        file("empty.txt", 0),
    ])
}

#[test]
fn extensions_are_split_at_the_last_dot() {
    assert_eq!(split_extension("a.tar.gz"), Some(("a.tar", "gz")));
    assert_eq!(split_extension(".hidden"), None);
    assert_eq!(split_extension("dot."), None);
    assert_eq!(split_extension("none"), None);
    assert_eq!(split_extension("报告.docx"), Some(("报告", "docx")));
}

#[test]
fn kinds_of_files_add_up_to_the_whole_tree() {
    let t = sample_tree();
    assert!(categories_in_range(&t));
    let stats = compute_categories(&t);
    assert_eq!(stats.len(), 6);
    let sum: u64 = stats.iter().map(|s| s.size).sum();
    assert_eq!(sum, t.logical_size);
    assert_eq!(stats[classify("x.MP4")].size, 100);
    assert_eq!(stats[classify("x.txt")].size, 50);
}

#[test]
fn files_stand_together_by_extension() {
    let t = sample_tree();
    let g = build_extension_tree(&t, "C:\\");
    assert_eq!(g.name, "按扩展名分类");
    assert_eq!(g.logical_size, t.logical_size);
    assert_eq!(g.file_count, 6);
    let txt = g.children.iter().find(|c| c.name.contains("txt")).unwrap();
    assert_eq!(txt.children.len(), 4);
    let paths: Vec<&str> = txt.children.iter().map(|c| c.full_path_override.as_deref().unwrap()).collect();
    assert!(paths.contains(&"C:\\docs\\b.TXT"));
    assert!(paths.contains(&"C:\\c.txt"));
}

#[test]
fn several_partitions_share_their_extensions() {
    let a = sample_tree();
    let b = folder("D:", vec![file("z.txt", 7)]);
    let roots = [RootAt { node: &a, path: "C:\\" }, RootAt { node: &b, path: "D:\\" }];
    let g = build_extension_tree_multi(&roots);
    assert_eq!(g.logical_size, a.logical_size + 7);
    let txt = g.children.iter().find(|c| c.name.contains("txt")).unwrap();
    assert_eq!(txt.children.len(), 5);
}

#[test]
fn only_files_of_a_shared_size_are_candidates() {
    let t = sample_tree();
    let c = collect_duplicate_candidates(&[RootAt { node: &t, path: "C:\\" }]);
    assert_eq!(c.nodes.len(), 5);
    assert_eq!(c.size_groups.len(), 1);
    assert_eq!(c.size_groups[0].size, 10);
    let mut names: Vec<&str> = c.size_groups[0].members.iter().map(|&i| c.paths[i].as_str()).collect();
    names.sort();
    assert_eq!(names, vec!["C:\\c.txt", "C:\\docs\\a.txt"]);
    let g = group_numbers(&vec![3, 1, 3, 2, 1, 3]);
    assert_eq!(g.len(), 2);
    assert_eq!((g[0].size, g[0].members.clone()), (1, vec![1, 4]));
    assert_eq!((g[1].size, g[1].members.clone()), (3, vec![0, 2, 5]));
}

#[test]
fn fingerprints_are_those_of_blake3() {
    let mut h = FileHash::new();
    assert!(h.feed(b"a"));
    assert!(h.feed(b"bc"));
    let want = blake3::hash(b"abc");
    assert_eq!(&h.finish(), want.as_bytes());
    let mut f = FileHash::new();
    assert!(hash_file_blake3(&mut f, ReadReply::Data(b"abc")).is_none());
    assert_eq!(hash_file_blake3(&mut f, ReadReply::Data(b"")), Some(Ok(want.to_hex().to_string())));
    let mut g = FileHash::new();
    assert_eq!(hash_file_blake3(&mut g, ReadReply::OpenFailed("x")), Some(Err("打开文件失败: x".to_string())));
    assert_eq!(hash_file_blake3(&mut g, ReadReply::ReadFailed("y")), Some(Err("读取文件失败: y".to_string())));
}

#[test]
fn the_start_of_a_file_is_told_by_its_fingerprint() {
    assert_eq!(window_len(10), 10);
    assert_eq!(window_len(1 << 40), 65_536);
    let a = hash_window(3, Some(b"abc"));
    let b = hash_window(3, Some(b"abd"));
    assert!(a.is_some());
    assert_ne!(a, b);
    assert_eq!(a, hash_window(3, Some(b"abc")));
    assert_eq!(hash_window(3, None), None);
    let x = blake3::hash(b"x");
    let y = blake3::hash(b"y");
    assert_eq!(hash_less(x.as_bytes(), y.as_bytes()), x.as_bytes() < y.as_bytes());
}

#[test]
fn clusters_go_by_fingerprint() {
    let h = |b: &[u8]| *blake3::hash(b).as_bytes();
    let files = vec![
        HashedFile { index: 4, hash: Some(h(b"one")) },
        HashedFile { index: 5, hash: Some(h(b"two")) },
        HashedFile { index: 6, hash: None },
        HashedFile { index: 7, hash: Some(h(b"one")) },
    ];
    let c = cluster_by_hash(&files);
    assert_eq!(c.len(), 1);
    assert_eq!(c[0].file_indices, vec![4, 7]);
    assert_eq!(c[0].hash_hex, Some(blake3::hash(b"one").to_hex().to_string()));
}

#[test]
fn a_cluster_counts_only_where_every_byte_is_the_same() {
    let content = [b"aaa".to_vec(), b"aaa".to_vec(), b"aab".to_vec()];
    let equal = |a: usize, b: usize| content[a] == content[b];
    assert!(byte_verify_cluster(&vec![0, 1], &equal));
    assert!(!byte_verify_cluster(&vec![0, 1, 2], &equal));
    assert!(!byte_verify_cluster(&vec![0], &equal));
    let h = *blake3::hash(b"same").as_bytes();
    let files = vec![
        HashedFile { index: 0, hash: Some(h) },
        HashedFile { index: 1, hash: Some(h) },
    ];
    assert_eq!(verify_identical(&files, &equal).len(), 1);
    let broken = vec![
        HashedFile { index: 0, hash: Some(h) },
        HashedFile { index: 2, hash: Some(h) },
    ];
    assert_eq!(verify_identical(&broken, &equal).len(), 0);
}

#[test]
fn duplicates_are_found_among_files_of_the_same_size() {
    let content = ["aaaa", "aaaa", "abcd", "xxxxx", "xxxxx"];
    let groups = vec![
        SizeGroup { size: 4, members: vec![0, 1, 2] },
        SizeGroup { size: 5, members: vec![3, 4] },
    ];
    let prefilter = |jobs: &Vec<HeaderJob>| -> Vec<Option<u64>> {
        jobs.iter().map(|j| hash_window(2, Some(&content[j.index].as_bytes()[..2]))).collect()
    };
    let confirm = |gs: &Vec<SizeGroup>| -> Vec<Vec<Cluster>> {
        gs.iter()
            .map(|g| {
                let files: Vec<HashedFile> = g.members.iter()
                    .map(|&i| HashedFile { index: i, hash: Some(*blake3::hash(content[i].as_bytes()).as_bytes()) })
                    .collect();
                verify_identical(&files, &|a: usize, b: usize| content[a] == content[b])
            })
            .collect()
    };
    let found = find_duplicates(&groups, &prefilter, &confirm);
    let mut lists: Vec<Vec<usize>> = found.iter().map(|g| g.file_indices.clone()).collect();
    lists.sort();
    assert_eq!(lists, vec![vec![0, 1], vec![3, 4]]);
    assert!(find_duplicates(&vec![], &prefilter, &confirm).is_empty());
    assert_eq!(wasted_bytes(&found[0]), Some(found[0].size));
    assert_eq!(wasted_in_all(&found), Some(9));
    let nodes: Vec<Node> = content.iter().map(|c| file(c, c.len() as u64).with_full_path(format!("C:\\{c}"))).collect();
    let tree = show_duplicates(&nodes, &found).unwrap();
    assert_eq!(tree.children.len(), 2);
    assert_eq!(tree.file_count, 4);
    assert!(sample(&found[0], "p").contains(" 路径=p"));
    assert!(summary(5, 2, 9, "0.1").contains("候选 5 个文件 → 确认 2 组"));
}

#[test]
fn contents_are_compared_piece_by_piece() {
    let mut c = ContentCheck::new();
    assert_eq!(c.feed(b"hello", b"he"), Verdict::More);
    assert_eq!(c.feed(b"hello", b"llo"), Verdict::More);
    assert_eq!(c.feed(b"hello", b""), Verdict::Same);
    let mut d = ContentCheck::new();
    assert_eq!(d.feed(b"hello", b"hex"), Verdict::Different);
    let mut e = ContentCheck::new();
    assert_eq!(e.feed(b"hello", b"he"), Verdict::More);
    assert_eq!(e.feed(b"hello", b""), Verdict::Different);
    assert_eq!(compare_pieces(b"ab", b"ab"), Verdict::More);
    assert_eq!(compare_pieces(b"ab", b"ac"), Verdict::Different);
    assert_eq!(compare_pieces(b"", b""), Verdict::Same);
    assert!(lengths_match(Some(1), Some(1)) && !lengths_match(None, None));
    assert!(lengths_differ(Some(1), Some(2)) && !lengths_differ(None, Some(2)));
    assert!(may_cache(1, 0) && !may_cache(u64::MAX, 0));
    assert_eq!(worker_thread_count(Some(8)), 16);
    assert_eq!(worker_thread_count(None), 8);
    assert!(report_due(3, 3, 0) && report_due(1, 3, 50) && !report_due(1, 3, 49));
}

fn texts() -> RowTexts {
    RowTexts {
        parent_pct: "10.00%".to_string(),
        total_pct: "20.00%".to_string(),
        modified: String::new(),
        created: String::new(),
        accessed: String::new(),
    }
}

#[test]
fn a_table_has_one_row_for_the_root_and_one_for_every_entry() {
    let t = sample_tree();
    let mut b = IndexBuilder::new_multi(std::slice::from_ref(&t), &["C:\\".to_string()], 1, true);
    let idx = loop {
        match b.step(std::time::Duration::from_secs(10)) {
            BuildStep::Continue => continue,
            BuildStep::Done(idx) => break *idx,
        }
    };
    assert_eq!(header_line().split(',').count(), 16);
    let mut e = CsvExport::new(&idx, 0);
    let root = e.root_line("C:\\", &texts()).unwrap();
    assert_eq!(root.trim_end().split(',').count(), 16);
    let mut rows = 0;
    while let Some(n) = e.next_entry() {
        assert!(n.parent_logical >= 1 && n.disk_logical >= 1);
        let (line, progress) = e.entry_line(&texts());
        assert!(line.contains(",10.00%,20.00%,"));
        assert!(progress.is_none());
        rows += 1;
    }
    assert_eq!(rows, 7);
    assert_eq!(e.counts(), (6, 1));
}

#[test]
fn deleting_asks_the_shell_and_tells_what_it_said() {
    assert!(delete_to_recycle_bin("C:\\x", None).is_none());
    assert_eq!(delete_to_recycle_bin("", None), Some(Err("路径为空".to_string())));
    let said = |code, aborted| delete_to_recycle_bin("C:\\x", Some(ShellReply::Done { code, aborted }));
    assert_eq!(said(0, false), Some(Ok(())));
    assert_eq!(said(0, true), Some(Err("操作被取消".to_string())));
    assert_eq!(said(0x7C, false), Some(Err("删除失败（错误码 0x7C）".to_string())));
    assert_eq!(said(-1, false), Some(Err("删除失败（错误码 0xFFFFFFFF）".to_string())));
    assert_eq!(delete_to_recycle_bin("x", Some(ShellReply::Unsupported)), Some(Err("仅支持 Windows".to_string())));
    assert!(open_properties("x") && !open_properties(""));
}

#[test]
fn deleting_is_tried_again_with_longer_pauses() {
    let mut f = RetryFacts { tries: 0, last: None, pauses: 0, lockers: None };
    let mut log: Vec<String> = Vec::new();
    let end = loop {
        match delete_to_recycle_bin_with_retry(&f) {
            RetryStep::Delete => {
                log.push("delete".to_string());
                f.tries += 1;
                f.last = Some(Err("busy".to_string()));
            }
            RetryStep::Pause(ms) => {
                log.push(format!("pause {ms}"));
                f.pauses += 1;
            }
            RetryStep::FindLockers => {
                log.push("who".to_string());
                f.lockers = Some(Ok(vec![LockingProcess { pid: 7, app_name: "Word".to_string(), service_name: None }]));
            }
            RetryStep::Done(r) => break r,
        }
    };
    assert_eq!(log, vec!["delete", "pause 300", "delete", "pause 600", "delete", "pause 900", "delete", "who"]);
    assert_eq!(end, Err("busy；被 Word（PID 7）占用".to_string()));
}

#[test]
fn a_link_is_asked_for_without_special_rights_first() {
    let first = match create_symlink(false, None, None) {
        LinkStep::Call(flags) => flags,
        LinkStep::Done(_) => panic!("nothing was asked yet"),
    };
    assert_eq!(first, 2);
    match create_symlink(true, Some(CallReply::Failed(87)), None) {
        LinkStep::Call(flags) => assert_eq!(flags, 1),
        LinkStep::Done(_) => panic!("an old system is asked again without the flag"),
    }
    match create_symlink(true, Some(CallReply::Succeeded), None) {
        LinkStep::Done(r) => assert_eq!(r, Ok(())),
        LinkStep::Call(_) => panic!("it succeeded"),
    }
    match create_symlink(false, Some(CallReply::Failed(1314)), None) {
        LinkStep::Done(r) => assert!(r.is_err()),
        LinkStep::Call(_) => panic!("no further try helps"),
    }
}

#[test]
fn migrated_data_has_its_own_place() {
    assert_eq!(diskforge_base_dir('d'), "D:\\DiskForge");
    assert_eq!(mirrored_folder_target_path("C:\\Users\\me", "D:\\DiskForge"), Ok("D:\\DiskForge\\C\\Users\\me".to_string()));
    assert!(mirrored_folder_target_path("", "D:\\DiskForge").is_err());
    assert_eq!(to_extended_length_path("C:\\x"), "\\\\?\\C:\\x");
    assert_eq!(to_extended_length_path("\\\\?\\C:\\x"), "\\\\?\\C:\\x");
}

#[test]
fn who_holds_a_file_is_asked_step_by_step() {
    let mut f = LockFacts { started: None, registered: None, probed: None, listed: None };
    let paths = ["C:\\x", ""];
    let mut steps: Vec<&str> = Vec::new();
    let end = loop {
        match find_locking_processes(&paths, &f) {
            LockStep::StartSession => { steps.push("start"); f.started = Some(0); }
            LockStep::Register(p) => { steps.push("register"); assert_eq!(p, vec!["\\\\?\\C:\\x"]); f.registered = Some(0); }
            LockStep::Probe => { steps.push("probe"); f.probed = Some((234, 2)); }
            LockStep::List(n) => {
                steps.push("list");
                assert!(n >= 2);
                f.listed = Some((0, vec![
                    RawProcess { pid: 1, app_name: vec![0x41, 0x42, 0, 0], service_name: vec![0] },
                    RawProcess { pid: 2, app_name: vec![0], service_name: vec![0x53, 0] },
                ]));
            }
            LockStep::Done(r) => break r,
        }
    };
    assert_eq!(steps, vec!["start", "register", "probe", "list"]);
    let who = match end { Ok(v) => v, Err(e) => panic!("{e}") };
    assert_eq!(who[0].app_name, "AB");
    assert_eq!(who[0].service_name, None);
    assert_eq!(who[1].app_name, "(PID 2)");
    assert_eq!(describe_locking_processes(&who), "被 AB（PID 1）、(PID 2)（服务 S，PID 2）占用");
    let failed = LockFacts { started: Some(5), registered: None, probed: None, listed: None };
    match find_locking_processes(&paths, &failed) {
        LockStep::Done(Err(e)) => assert_eq!(e, "RmStartSession 失败（错误码 5）"),
        _ => panic!("the session did not start"),
    }
}

fn rename_facts() -> RenameFacts {
    RenameFacts {
        supported: true,
        has_parent: true,
        file_name: Some("dir".to_string()),
        nonce: 0xAB,
        temp_shown: "C:\\t".to_string(),
        renamed: None,
        renamed_back: None,
    }
}

#[test]
fn a_folder_is_tried_by_renaming_and_gets_its_name_back() {
    let mut f = rename_facts();
    match check_folder_occupied_by_rename(&f) {
        RenameStep::Rename(n) => assert_eq!(n, "dir.diskforge_lockcheck_000000ab"),
        _ => panic!("it is renamed first"),
    }
    f.renamed = Some(Ok(()));
    assert!(matches!(check_folder_occupied_by_rename(&f), RenameStep::RenameBack));
    f.renamed_back = Some(Ok(()));
    assert!(matches!(check_folder_occupied_by_rename(&f), RenameStep::Done(FolderOccupancy::Free)));
    let mut g = rename_facts();
    g.renamed = Some(Err(RenameError { code: Some(32), text: "busy".to_string() }));
    assert!(matches!(check_folder_occupied_by_rename(&g), RenameStep::Done(FolderOccupancy::Locked)));
    g.renamed = Some(Err(RenameError { code: Some(5), text: "denied".to_string() }));
    assert!(matches!(check_folder_occupied_by_rename(&g), RenameStep::Done(FolderOccupancy::Inconclusive(_))));
}

#[test]
fn processes_and_services_are_ended_step_by_step() {
    let mut f = KillFacts { supported: true, opened: None, ended: None };
    assert!(matches!(terminate_process(9, &f), KillStep::Open));
    f.opened = Some(Ok(()));
    assert!(matches!(terminate_process(9, &f), KillStep::End));
    f.ended = Some(Err(5));
    match terminate_process(9, &f) {
        KillStep::Done(Err(e)) => assert_eq!(e, "结束进程失败（错误码 5）"),
        _ => panic!("it failed"),
    }
    assert!(matches!(terminate_process(0, &f), KillStep::Done(Err(_))));
    let mut s = ServiceFacts { supported: true, manager: None, service: None, stopped: None };
    assert!(matches!(stop_service("svc", &s), ServiceStep::OpenManager));
    s.manager = Some(Ok(()));
    assert!(matches!(stop_service("svc", &s), ServiceStep::OpenService));
    s.service = Some(Ok(()));
    assert!(matches!(stop_service("svc", &s), ServiceStep::Stop));
    s.stopped = Some(Err(1051));
    match stop_service("svc", &s) {
        ServiceStep::Done(Err(e)) => assert!(e.starts_with("有其它服务依赖这个服务")),
        _ => panic!("it failed"),
    }
    assert!(matches!(stop_service("", &s), ServiceStep::Done(Err(_))));
}

#[test]
fn a_changed_copy_is_left_alone() {
    let f = ReplaceFacts { is_dir: false, verify: true, same: Some(false), deleted: None, linked: None };
    match replace_with_symlink("C:\\a", "D:\\b", &f) {
        ReplaceStep::Done(Err(e)) => assert!(e.starts_with("副本 C:\\a 与真身 D:\\b")),
        _ => panic!("it must not be deleted"),
    }
    let g = ReplaceFacts { is_dir: false, verify: true, same: None, deleted: None, linked: None };
    assert!(matches!(replace_with_symlink("a", "b", &g), ReplaceStep::Compare));
    let h = ReplaceFacts { is_dir: true, verify: true, same: None, deleted: Some(Ok(())), linked: None };
    assert!(matches!(replace_with_symlink("a", "b", &h), ReplaceStep::Link));
}

#[test]
fn a_file_is_migrated_only_after_its_copy_was_checked() {
    let mut f = FileFacts {
        file_name: Some("a.txt".to_string()),
        source_hash: None,
        target_exists: None,
        target_hash: None,
        dir_made: None,
        copied: None,
        copy_hash: None,
        cleaned: false,
        replaced: None,
    };
    let mut log: Vec<&str> = Vec::new();
    let end = loop {
        match migrate_file_to_symlink("D:\\DiskForge", &f) {
            FileStep::HashSource => { log.push("hash"); f.source_hash = Some(Ok("ab".repeat(32))); }
            FileStep::LookAt(_) => { log.push("look"); f.target_exists = Some(false); }
            FileStep::HashTarget(_) => { log.push("hash target"); f.target_hash = Some(Ok("ab".repeat(32))); }
            FileStep::MakeDir(_) => { log.push("dir"); f.dir_made = Some(Ok(())); }
            FileStep::Copy(_) => { log.push("copy"); f.copied = Some(Ok(())); }
            FileStep::HashCopy(_) => { log.push("check"); f.copy_hash = Some(Ok("ab".repeat(32))); }
            FileStep::Clean(_, _) => { log.push("clean"); f.cleaned = true; }
            FileStep::Replace(_) => { log.push("replace"); f.replaced = Some(Ok(())); }
            FileStep::Done(r) => break r,
        }
    };
    assert_eq!(log, vec!["hash", "look", "dir", "copy", "check", "replace"]);
    assert!(end.is_ok());
    f.copy_hash = Some(Ok("cd".repeat(32)));
    f.replaced = None;
    assert!(matches!(migrate_file_to_symlink("D:\\DiskForge", &f), FileStep::Clean(_, _)));
    f.cleaned = true;
    assert!(matches!(migrate_file_to_symlink("D:\\DiskForge", &f), FileStep::Done(Err(_))));
    f.copy_hash = Some(Err("unreadable".to_string()));
    f.cleaned = false;
    assert!(matches!(migrate_file_to_symlink("D:\\DiskForge", &f), FileStep::Clean(_, _)));
    f.cleaned = true;
    assert!(matches!(migrate_file_to_symlink("D:\\DiskForge", &f), FileStep::Done(Err(e)) if e == "unreadable"));
}

fn folder_facts() -> FolderFacts {
    FolderFacts {
        occupied: None,
        target_exists: None,
        link_inside: None,
        has_parent: true,
        dir_made: None,
        copied: None,
        source_count: None,
        copy_count: None,
        cleaned: false,
        replaced: None,
    }
}

#[test]
fn a_folder_is_migrated_only_after_its_copy_was_counted() {
    let mut f = folder_facts();
    let mut log: Vec<&str> = Vec::new();
    let end = loop {
        match migrate_folder_to_symlink("C:\\dir", "D:\\DiskForge", &f) {
            FolderStep::CheckOccupied => { log.push("held?"); f.occupied = Some(FolderOccupancy::Free); }
            FolderStep::LookAt(_) => { log.push("look"); f.target_exists = Some(false); }
            FolderStep::FindLinks => { log.push("links"); f.link_inside = Some(Ok(None)); }
            FolderStep::MakeParent(_) => { log.push("parent"); f.dir_made = Some(Ok(())); }
            FolderStep::Copy(_) => { log.push("copy"); f.copied = Some(Ok(())); }
            FolderStep::CountSource => { log.push("count"); f.source_count = Some(Ok((3, 30))); }
            FolderStep::CountCopy(_) => { log.push("count copy"); f.copy_count = Some(Ok((3, 30))); }
            FolderStep::Clean(_) => { log.push("clean"); f.cleaned = true; }
            FolderStep::Replace(_) => { log.push("replace"); f.replaced = Some(Ok(())); }
            FolderStep::Done(r) => break r,
        }
    };
    assert_eq!(log, vec!["held?", "look", "links", "parent", "copy", "count", "count copy", "replace"]);
    assert_eq!(end, Ok("D:\\DiskForge\\C\\dir".to_string()));
    let mut held = folder_facts();
    held.occupied = Some(FolderOccupancy::Locked);
    assert!(matches!(migrate_folder_to_symlink("C:\\dir", "D:\\DiskForge", &held), FolderStep::Done(Err(_))));
    f.copy_count = Some(Ok((2, 30)));
    f.replaced = None;
    assert!(matches!(migrate_folder_to_symlink("C:\\dir", "D:\\DiskForge", &f), FolderStep::Clean(_)));
}

#[test]
fn a_folder_that_cannot_be_counted_leaves_no_copy_behind() {
    let mut f = folder_facts();
    f.occupied = Some(FolderOccupancy::Free);
    f.target_exists = Some(false);
    f.link_inside = Some(Ok(None));
    f.dir_made = Some(Ok(()));
    f.copied = Some(Ok(()));
    f.source_count = Some(Err("x".to_string()));
    assert!(matches!(migrate_folder_to_symlink("C:\\dir", "D:\\DiskForge", &f), FolderStep::Clean(t) if t == "D:\\DiskForge\\C\\dir"));
    f.cleaned = true;
    match migrate_folder_to_symlink("C:\\dir", "D:\\DiskForge", &f) {
        FolderStep::Done(Err(e)) => assert_eq!(e, "统计源文件夹失败: x"),
        _ => panic!("the failure was not told"),
    }
    f.source_count = Some(Ok((3, 30)));
    f.copy_count = Some(Err("y".to_string()));
    f.cleaned = false;
    assert!(matches!(migrate_folder_to_symlink("C:\\dir", "D:\\DiskForge", &f), FolderStep::Clean(_)));
    f.cleaned = true;
    match migrate_folder_to_symlink("C:\\dir", "D:\\DiskForge", &f) {
        FolderStep::Done(Err(e)) => assert_eq!(e, "统计目标文件夹失败: y"),
        _ => panic!("the failure was not told"),
    }
}

#[test]
fn holders_are_told_in_one_line() {
    let who = vec![
        LockingProcess { pid: 1234, app_name: "QQ.exe".to_string(), service_name: None },
        LockingProcess { pid: 5678, app_name: "Everything.exe".to_string(), service_name: None },
    ];
    assert_eq!(describe_locking_processes(&who), "被 QQ.exe（PID 1234）、Everything.exe（PID 5678）占用");
    assert_eq!(describe_locking_processes(&[]), "");
}

#[test]
fn entries_of_a_folder_are_skipped_entered_or_taken() {
    assert_eq!(entry_use(true, true, false), EntryUse::Skip);
    assert_eq!(entry_use(false, true, false), EntryUse::Enter);
    assert_eq!(entry_use(false, false, true), EntryUse::Take);
    assert_eq!(entry_use(false, false, false), EntryUse::Skip);
    assert_eq!(join_relative("", "a"), "a");
    assert_eq!(join_relative("a", "b"), "a\\b");
    assert_eq!(offender_path("C:\\x", "a", "b"), "C:\\x\\a\\b");
}

#[test]
fn a_link_takes_the_place_of_a_node() {
    let old = file("big.iso", 5_000_000);
    let n = build_refreshed_symlink_node("C:\\big.iso", "big.iso", false, &old, 0);
    assert_eq!(n.logical_size, 0);
    assert!(n.is_reparse_point());
    assert!(n.is_file());
    let d = build_refreshed_symlink_node("C:\\dir", "dir", true, &folder("dir", vec![]), 0);
    assert!(d.is_folder() && d.is_reparse_point());
}

#[test]
fn a_walk_reads_every_folder_once() {
    let mut walk = FolderWalk::new();
    let mut totals = FolderTotals { count: 0, size: 0 };
    assert_eq!(walk.next_folder(), Some(0));
    assert_eq!(walk.entry("a", false, true, false), WalkStep::Enter(1));
    assert_eq!(walk.entry("link", true, true, false), WalkStep::Skip);
    assert_eq!(walk.entry("x.txt", false, false, true), WalkStep::Take);
    assert!(totals.take(5));
    assert_eq!(walk.entry("b", false, true, false), WalkStep::Enter(2));
    assert_eq!(walk.next_folder(), Some(2));
    assert_eq!(walk.entry("y.txt", false, false, true), WalkStep::Take);
    assert!(totals.take(7));
    assert_eq!(walk.entry("c", false, true, false), WalkStep::Enter(3));
    assert_eq!(walk.next_folder(), Some(3));
    assert_eq!(walk.entry("pipe", false, false, false), WalkStep::Skip);
    assert_eq!(walk.next_folder(), Some(1));
    assert_eq!(walk.next_folder(), None);
    assert_eq!(totals, FolderTotals { count: 2, size: 12 });
    assert!(!totals.take(u64::MAX));
    assert_eq!(totals, FolderTotals { count: 2, size: 12 });
}

#[test]
fn a_link_below_a_folder_is_named_from_the_root() {
    let mut walk = FolderWalk::new();
    assert_eq!(walk.next_folder(), Some(0));
    assert!(matches!(walk.find_reparse_entry("C:\\d", "f.txt", 0x20, false), SearchStep::Skip));
    assert!(matches!(walk.find_reparse_entry("C:\\d", "sub", 0x10, true), SearchStep::Enter(1)));
    assert_eq!(walk.next_folder(), Some(1));
    assert!(matches!(walk.find_reparse_entry("C:\\d", "deep", 0x10, true), SearchStep::Enter(2)));
    match walk.find_reparse_entry("C:\\d", "j", 0x410, true) {
        SearchStep::Found(p) => assert_eq!(p, "C:\\d\\sub\\j"),
        _ => panic!("a link was passed by"),
    }
    assert_eq!(walk.next_folder(), Some(2));
    match walk.find_reparse_entry("C:\\d", "k", 0x400, false) {
        SearchStep::Found(p) => assert_eq!(p, "C:\\d\\sub\\deep\\k"),
        _ => panic!("a link was passed by"),
    }
}

#[test]
fn the_most_wasteful_duplicates_come_first() {
    let nodes: Vec<Node> = (0..5).map(|i| file(&format!("f{i}"), if i < 2 { 100 } else { 60 })).collect();
    let groups = vec![
        DuplicateGroup { size: 100, hash_hex: None, file_indices: vec![0, 1] },
        DuplicateGroup { size: 60, hash_hex: None, file_indices: vec![2, 3, 4] },
    ];
    let tree = show_duplicates(&nodes, &groups).unwrap();
    assert_eq!(tree.children[0].file_count, 3);
    assert_eq!(tree.children[0].logical_size, 180);
    assert_eq!(tree.children[1].logical_size, 200);
    assert_eq!(tree.logical_size, 380);
}

#[test]
fn a_search_tells_how_far_it_is() {
    let mut p = SearchProgress::new(3);
    assert_eq!(p.finished(1, 0), None);
    assert_eq!(p.finished(1, 50), Some(Report { phase: HashPhase::Prefilter, done: 2, total: 3 }));
    assert!(!p.can_confirm(2));
    assert_eq!(p.left(), 1);
    assert_eq!(p.finished(1, 0), Some(Report { phase: HashPhase::Prefilter, done: 3, total: 3 }));
    assert!(!p.can_confirm(4) && p.can_confirm(2));
    p.confirm(2);
    assert_eq!(p.finished(2, 0), Some(Report { phase: HashPhase::Confirm, done: 2, total: 2 }));
    assert_eq!(p.left(), 0);
    let groups = vec![SizeGroup { size: 1, members: vec![0, 1] }, SizeGroup { size: 2, members: vec![2, 3, 4] }];
    assert_eq!(count_files(&groups), Some(5));
}
