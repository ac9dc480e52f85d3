//! Reading volumes: file records, the master file table, directories and the walk over them.

use std::collections::{HashMap, HashSet};

use diskforge::dir_enum::{filetime_to_u64, DirBatches, RawDirEntry};
use diskforge::mft_load::{
    check_volume, next_pointer_buffer, MftReader, PointerReply, VolumeData, VolumeReply,
};
use diskforge::mft_scan::{apply_fixup, parse_retrieval_pointers, process_record, FixupResult, NtfsContext};
use diskforge::mft_tree::{build_tree, try_build_tree, volume_tree};
use diskforge::model::NodeKind;
use diskforge::owners::{account_name, child_path, owners_to_ask, set_owner};
use diskforge::scan::{
    as_drive_root, cluster_size, compressed_size, drive_letter_of, physical_size, plan_scan,
    reparse_tag_of, system_time_to_filetime, DirItem, ScanPlan,
};
use diskforge::scan_walk::{DirReply, Walk};

fn put16(b: &mut [u8], at: usize, n: u16) {
    b[at..at + 2].copy_from_slice(&n.to_le_bytes());
}

fn put32(b: &mut [u8], at: usize, n: u32) {
    b[at..at + 4].copy_from_slice(&n.to_le_bytes());
}

fn put64(b: &mut [u8], at: usize, n: u64) {
    b[at..at + 8].copy_from_slice(&n.to_le_bytes());
}

fn context() -> NtfsContext {
    NtfsContext {
        base_file_records: HashMap::new(),
        parent_to_children: HashMap::new(),
        bytes_per_cluster: 4096,
        bytes_per_record: 1024,
        fixup_failures: 0,
        fixup_unreadable: 0,
    }
}

/// A file record with a time, one name and a resident stream of `size` bytes.
fn record(flags: u16, parent: u64, name: &str, size: u32) -> Vec<u8> {
    let mut r = vec![0u8; 1024];
    r[0..4].copy_from_slice(b"FILE");
    put16(&mut r, 4, 48);
    put16(&mut r, 6, 3);
    put16(&mut r, 20, 56);
    put16(&mut r, 22, flags);
    let mut at = 56;
    // standard information
    put32(&mut r, at, 0x10);
    put32(&mut r, at + 4, 24 + 48);
    put32(&mut r, at + 16, 48);
    put16(&mut r, at + 20, 24);
    put64(&mut r, at + 24, 100);
    put64(&mut r, at + 32, 200);
    put64(&mut r, at + 48, 300);
    put32(&mut r, at + 56, 0x20);
    at += 72;
    // name
    let units: Vec<u16> = name.encode_utf16().collect();
    let len = (24 + 66 + units.len() * 2 + 7) / 8 * 8;
    put32(&mut r, at, 0x30);
    put32(&mut r, at + 4, len as u32);
    put32(&mut r, at + 16, (66 + units.len() * 2) as u32);
    put16(&mut r, at + 20, 24);
    put64(&mut r, at + 24, parent | (7 << 48));
    r[at + 24 + 0x40] = units.len() as u8;
    r[at + 24 + 0x41] = 1;
    for (i, u) in units.iter().enumerate() {
        put16(&mut r, at + 24 + 0x42 + 2 * i, *u);
    }
    at += len;
    // data
    put32(&mut r, at, 0x80);
    put32(&mut r, at + 4, 24);
    put32(&mut r, at + 16, size);
    put16(&mut r, at + 20, 24);
    at += 24;
    put32(&mut r, at, 0xFFFF_FFFF);
    // the update sequence: the ends of both sectors carry its number
    put16(&mut r, 48, 0x1234);
    for s in 1..=2 {
        let end = s * 512 - 2;
        let saved = [r[end], r[end + 1]];
        r[48 + 2 * s] = saved[0];
        r[48 + 2 * s + 1] = saved[1];
        put16(&mut r, end, 0x1234);
    }
    r
}

#[test]
fn a_file_record_gives_its_file_and_its_name() {
    let mut ctx = context();
    let mut r = record(1, 5, "hello.txt", 13);
    process_record(&mut r, 40, &mut ctx, 512);
    let f = ctx.base_file_records[&40];
    assert_eq!(f.logical_size, 13);
    assert_eq!(f.physical_size, 16);
    assert_eq!((f.created_ft, f.last_modified_ft, f.accessed_ft), (100, 200, 300));
    assert_eq!(f.attributes, 0x20);
    assert_eq!(ctx.parent_to_children[&5].len(), 1);
    assert_eq!(ctx.parent_to_children[&5][0].name, "hello.txt");
    assert_eq!(ctx.parent_to_children[&5][0].base_record, 40);
}

#[test]
fn a_torn_record_is_counted_and_left_out() {
    let mut ctx = context();
    let mut r = record(1, 5, "torn.txt", 13);
    r[1022] = 0;
    assert_eq!(apply_fixup(&mut r.clone(), 512), FixupResult::Mismatch);
    process_record(&mut r, 40, &mut ctx, 512);
    assert_eq!(ctx.fixup_failures, 1);
    assert!(ctx.base_file_records.is_empty());
    let mut bad = record(1, 5, "bad.txt", 13);
    put16(&mut bad, 6, 0);
    process_record(&mut bad, 41, &mut ctx, 512);
    assert_eq!(ctx.fixup_unreadable, 1);
    assert!(ctx.parent_to_children.is_empty());
}

#[test]
fn a_record_that_is_not_in_use_adds_nothing() {
    let mut ctx = context();
    let mut r = record(0, 5, "gone.txt", 13);
    process_record(&mut r, 40, &mut ctx, 512);
    assert!(ctx.base_file_records.is_empty());
    let mut other = vec![0u8; 1024];
    process_record(&mut other, 41, &mut ctx, 512);
    assert!(ctx.base_file_records.is_empty());
}

#[test]
fn a_volume_tree_counts_a_hard_link_once() {
    let mut ctx = context();
    process_record(&mut record(3, 5, ".", 0), 5, &mut ctx, 512);
    process_record(&mut record(3, 5, "dir", 0), 30, &mut ctx, 512);
    process_record(&mut record(1, 5, "a.txt", 16), 31, &mut ctx, 512);
    let mut again = record(1, 30, "b.txt", 16);
    process_record(&mut again, 31, &mut ctx, 512);
    let tree = volume_tree(&ctx, 'c').unwrap();
    assert_eq!(tree.file_count, 2);
    assert_eq!(tree.folder_count, 1);
    assert_eq!(tree.logical_size, 32);
    assert_eq!(tree.physical_size, 16);
    assert_eq!(tree.kind, NodeKind::Folder);
}

#[test]
fn a_directory_that_contains_itself_has_no_tree() {
    let mut ctx = context();
    process_record(&mut record(3, 5, "root", 0), 5, &mut ctx, 512);
    let mut seen: HashSet<u64> = HashSet::new();
    assert!(try_build_tree(&ctx, 5, "C:", 0, &mut seen).is_none());
}

#[test]
fn retrieval_pointers_become_runs() {
    let mut b = vec![0u8; 16 + 32];
    put32(&mut b, 0, 2);
    put64(&mut b, 8, 0);
    put64(&mut b, 16, 10);
    put64(&mut b, 24, 1000);
    put64(&mut b, 32, 12);
    put64(&mut b, 40, 5000);
    assert_eq!(parse_retrieval_pointers(&b), vec![(0, 1000, 10), (10, 5000, 2)]);
    assert!(parse_retrieval_pointers(&b[..20]).is_empty());
}

#[test]
fn the_master_file_table_is_read_run_by_run() {
    let data = VolumeData {
        bytes_per_cluster: 1024,
        bytes_per_file_record: 1024,
        bytes_per_sector: 512,
        mft_valid_data_length: 3 * 1024,
    };
    let g = match check_volume('d', VolumeReply::Data(data)) {
        Ok(g) => g,
        Err(e) => panic!("{}", e.message()),
    };
    let mut b = vec![0u8; 16 + 32];
    put32(&mut b, 0, 2);
    put64(&mut b, 16, 2);
    put64(&mut b, 24, 100);
    put64(&mut b, 32, 3);
    put64(&mut b, 40, 7);
    let mut reader = match MftReader::new(g, 3 * 1024, PointerReply::Buffer(b)) {
        Ok(r) => r,
        Err(e) => panic!("{}", e.message()),
    };
    let first = reader.next_read().unwrap();
    assert_eq!((first.offset, first.len), (100 * 1024, 2048));
    let mut piece = record(3, 5, ".", 0);
    piece.extend(record(1, 0, "one", 5));
    reader.accept(&piece);
    let second = reader.next_read().unwrap();
    assert_eq!((second.offset, second.len), (7 * 1024, 1024));
    reader.accept(&record(1, 0, "two", 7));
    assert!(reader.next_read().is_none());
    let ctx = match reader.finish() {
        Ok(c) => c,
        Err(e) => panic!("{}", e.message()),
    };
    assert_eq!(ctx.base_file_records.len(), 3);
    assert_eq!(ctx.base_file_records[&2].logical_size, 7);
    let names: Vec<&str> = ctx.parent_to_children[&0].iter().map(|n| n.name.as_str()).collect();
    assert_eq!(names, vec!["one", "two"]);
}

#[test]
fn a_table_that_breaks_off_is_no_result() {
    let data = VolumeData {
        bytes_per_cluster: 1024,
        bytes_per_file_record: 1024,
        bytes_per_sector: 512,
        mft_valid_data_length: 2048,
    };
    let g = match check_volume('d', VolumeReply::Data(data)) {
        Ok(g) => g,
        Err(e) => panic!("{}", e.message()),
    };
    let mut b = vec![0u8; 32];
    put32(&mut b, 0, 1);
    put64(&mut b, 16, 2);
    put64(&mut b, 24, 100);
    let reader = match MftReader::new(g, 2048, PointerReply::Buffer(b)) {
        Ok(r) => r,
        Err(e) => panic!("{}", e.message()),
    };
    match reader.finish() {
        Ok(_) => panic!("nothing was read"),
        Err(e) => assert_eq!(e.message(), "$MFT 读取中断（读到 0/2048 字节），回退常规遍历"),
    }
}

#[test]
fn every_way_a_volume_can_refuse_is_told() {
    let texts = [
        (VolumeReply::NotOpened, "无法打开卷设备 \\\\.\\E:（需要管理员权限）"),
        (VolumeReply::NoData, "FSCTL_GET_NTFS_VOLUME_DATA 失败（E 可能不是 NTFS）"),
    ];
    for (reply, want) in texts {
        match check_volume('E', reply) {
            Ok(_) => panic!("refused"),
            Err(e) => assert_eq!(e.message(), want),
        }
    }
    let odd = VolumeData {
        bytes_per_cluster: 0,
        bytes_per_file_record: 1024,
        bytes_per_sector: 512,
        mft_valid_data_length: 0,
    };
    match check_volume('E', VolumeReply::Data(odd)) {
        Ok(_) => panic!("refused"),
        Err(e) => assert!(e.message().contains("BytesPerCluster 为 0")),
    }
    let fine = VolumeData { bytes_per_cluster: 512, ..odd };
    let g = match check_volume('E', VolumeReply::Data(fine)) {
        Ok(g) => g,
        Err(e) => panic!("{}", e.message()),
    };
    match MftReader::new(g, 0, PointerReply::NotOpened(5)) {
        Ok(_) => panic!("refused"),
        Err(e) => assert_eq!(e.message(), "无法打开 $MFT::$DATA（错误码 5），回退常规遍历"),
    }
    match MftReader::new(g, 0, PointerReply::Failed) {
        Ok(_) => panic!("refused"),
        Err(e) => assert!(e.message().starts_with("FSCTL_GET_RETRIEVAL_POINTERS")),
    }
    match MftReader::new(g, 10, PointerReply::Buffer(vec![0; 32])) {
        Ok(_) => panic!("refused"),
        Err(e) => assert_eq!(e.message(), "$MFT 有效数据长度异常（10 字节），回退常规遍历"),
    }
    assert_eq!(next_pointer_buffer(544, true), Some(1088));
    assert_eq!(next_pointer_buffer(544, false), None);
}

fn dir_record(name: &str, attrs: u32, size: u64, id: u64, last: bool) -> Vec<u8> {
    let units: Vec<u16> = name.encode_utf16().collect();
    let len = (112 + units.len() * 2 + 7) / 8 * 8;
    let mut r = vec![0u8; len];
    put32(&mut r, 0, if last { 0 } else { len as u32 });
    put64(&mut r, 8, 1);
    put64(&mut r, 16, 2);
    put64(&mut r, 24, 3);
    put64(&mut r, 40, size);
    put64(&mut r, 48, size);
    put32(&mut r, 56, attrs);
    put32(&mut r, 60, (units.len() * 2) as u32);
    put64(&mut r, 96, id);
    for (i, u) in units.iter().enumerate() {
        put16(&mut r, 104 + 2 * i, *u);
    }
    r
}

#[test]
fn a_batch_of_directory_records_is_read() {
    let mut buf = dir_record(".", 0x10, 0, 0, false);
    buf.extend(dir_record("file.bin", 0x20, 77, 9, false));
    buf.extend(dir_record("子目录", 0x10, 0, 10, true));
    buf.resize(4096, 0);
    let mut d = DirBatches::new();
    let call = d.next_call();
    assert!(call.restart);
    assert_eq!(call.clear, 0);
    d.accept(&buf);
    assert_eq!(d.count(), 2);
    let call = d.next_call();
    assert!(!call.restart);
    assert!(call.clear > 0);
    let v = d.finish(18).unwrap();
    assert_eq!(v[0].name, "file.bin");
    assert_eq!((v[0].logical, v[0].file_id, v[0].is_dir), (77, 9, false));
    assert_eq!((v[0].created_ft, v[0].accessed_ft, v[0].modified_ft), (1, 2, 3));
    assert_eq!(v[1].name, "子目录");
    assert!(v[1].is_dir);
}

#[test]
fn a_directory_that_fails_half_way_is_an_error() {
    let mut d = DirBatches::new();
    d.next_call();
    d.accept(&dir_record("file.bin", 0x20, 77, 9, true));
    assert_eq!(d.count(), 1);
    match d.finish(5) {
        Ok(_) => panic!("entries of a directory that failed"),
        Err(e) => assert_eq!(e, 5),
    }
    assert_eq!(filetime_to_u64(-1), 0);
    assert_eq!(filetime_to_u64(12), 12);
}

fn item(name: &str, is_dir: bool, size: u64, id: u64) -> DirItem {
    DirItem {
        entry: RawDirEntry {
            name: name.to_string(),
            is_dir,
            logical: size,
            physical: size,
            attrs: if is_dir { 0x10 } else { 0x20 },
            modified_ft: 0,
            created_ft: 0,
            accessed_ft: 0,
            file_id: id,
        },
        tag: 0,
    }
}

#[test]
fn a_walk_puts_every_directory_into_its_place() {
    let mut w = Walk::new("C:\\".to_string(), 0, 0x10);
    let (root, depth) = w.next().unwrap();
    assert_eq!((root, depth), (0, 0));
    w.accept(root, DirReply::Read(vec![item("a", true, 0, 1), item("b", true, 0, 2), item("f", false, 5, 3)]));
    let (first, _) = w.next().unwrap();
    let (second, _) = w.next().unwrap();
    assert!(w.next().is_none());
    assert!(!w.is_over());
    // the later directory is done first
    w.accept(second, DirReply::Read(vec![item("g", false, 10, 4)]));
    w.accept(first, DirReply::Read(vec![item("h", false, 20, 3)]));
    assert!(w.is_over());
    let tree = w.finish().unwrap();
    assert_eq!(tree.file_count, 3);
    assert_eq!(tree.folder_count, 2);
    // h has the number of f and takes no space on the disk of its own
    assert_eq!(tree.logical_size, 35);
    assert_eq!(tree.physical_size, 15);
    assert_eq!(tree.children.len(), 3);
}

#[test]
fn a_walk_whose_root_cannot_be_read_fails() {
    let mut w = Walk::new("C:\\".to_string(), 0, 0x10);
    let (root, _) = w.next().unwrap();
    w.accept(root, DirReply::Unreadable);
    assert!(w.is_over());
    assert!(w.finish().is_err());
}

#[test]
fn a_directory_below_the_root_that_cannot_be_read_is_empty() {
    let mut w = Walk::new("C:\\".to_string(), 0, 0x10);
    let (root, _) = w.next().unwrap();
    w.accept(root, DirReply::Read(vec![item("a", true, 0, 1), item("f", false, 5, 3)]));
    let (a, _) = w.next().unwrap();
    w.accept(a, DirReply::Unreadable);
    assert!(w.is_over());
    let tree = w.finish().unwrap();
    assert_eq!(tree.children.len(), 2);
    assert_eq!(tree.logical_size, 5);
}

#[test]
fn a_walk_where_reading_broke_off_fails() {
    let mut w = Walk::new("C:\\".to_string(), 0, 0x10);
    let (root, _) = w.next().unwrap();
    w.accept(root, DirReply::Read(vec![item("a", true, 0, 1)]));
    let (a, _) = w.next().unwrap();
    w.accept(a, DirReply::Failed);
    assert!(w.is_over());
    assert_eq!(w.finish().err(), Some("扫描过程中发生内部错误（部分目录未能处理，已记录日志）".to_string()));
    let unfinished = Walk::new("C:\\".to_string(), 0, 0x10);
    assert!(unfinished.finish().is_err());
}

#[test]
fn paths_and_plans() {
    assert_eq!(drive_letter_of("c:\\x"), Some('C'));
    assert_eq!(drive_letter_of(""), None);
    assert_eq!(as_drive_root("d:\\"), Some('D'));
    assert_eq!(as_drive_root("d:\\x"), None);
    assert!(matches!(plan_scan("d:/", true), ScanPlan::Table('D')));
    assert!(matches!(plan_scan("d:/", false), ScanPlan::Walk));
    assert!(matches!(plan_scan("d:\\games", true), ScanPlan::Walk));
}

#[test]
fn sizes_on_disk() {
    assert_eq!(physical_size(1, 0x20, None, 4096), 4096);
    assert_eq!(physical_size(4096, 0x20, None, 4096), 4096);
    assert_eq!(physical_size(0, 0x20, None, 4096), 0);
    assert_eq!(physical_size(100_000, 0x800, Some(512), 4096), 512);
    assert_eq!(compressed_size(5, 1, 0), Some(0x1_0000_0005));
    assert_eq!(compressed_size(0xFFFF_FFFF, 0, 2), None);
    assert_eq!(cluster_size(false, 8, 512), 4096);
    assert_eq!(cluster_size(true, 4, 512), 2048);
    assert_eq!(reparse_tag_of(true, &[0x0C, 0, 0, 0xA0]), 0xA000_000C);
    assert_eq!(reparse_tag_of(true, &[1, 2]), 0);
    assert_eq!(system_time_to_filetime(Some((0, 100))), 116_444_736_000_000_001);
    assert_eq!(system_time_to_filetime(None), 0);
}

#[test]
fn owners_are_asked_for_where_they_are_shown() {
    let mut w = Walk::new("C:\\".to_string(), 0, 0x10);
    let (root, _) = w.next().unwrap();
    w.accept(root, DirReply::Read(vec![item("dir", true, 0, 1), item("f", false, 5, 3)]));
    let (dir, _) = w.next().unwrap();
    w.accept(dir, DirReply::Read(vec![item("deep", false, 7, 4)]));
    let mut tree = w.finish().unwrap();
    let closed: Vec<String> = owners_to_ask(&tree, "C:\\").into_iter().map(|q| q.full_path).collect();
    assert_eq!(closed.len(), 2);
    let at = tree.children.iter().position(|c| c.name == "dir").unwrap();
    tree.children[at].expanded = true;
    let open = owners_to_ask(&tree, "C:\\");
    assert_eq!(open.len(), 3);
    let q = open.iter().find(|q| q.full_path == "C:\\dir\\deep").unwrap();
    set_owner(&mut tree, &q.path, "me".to_string());
    assert_eq!(tree.children[at].children[0].owner, "me");
    assert_eq!(child_path("C:", "x"), "C:\\x");
}

#[test]
fn accounts_are_written_with_their_domain() {
    let name: Vec<u16> = "alice".encode_utf16().collect();
    let domain: Vec<u16> = "LAB".encode_utf16().collect();
    assert_eq!(account_name(true, &name, &domain), "LAB\\alice");
    assert_eq!(account_name(true, &name, &[]), "alice");
    assert_eq!(account_name(false, &name, &domain), "");
}

#[test]
fn a_record_has_the_tree_below_it() {
    let mut ctx = context();
    process_record(&mut record(3, 5, ".", 0), 5, &mut ctx, 512);
    process_record(&mut record(3, 5, "dir", 0), 30, &mut ctx, 512);
    process_record(&mut record(1, 30, "a.txt", 16), 31, &mut ctx, 512);
    let mut seen: HashSet<u64> = HashSet::new();
    let tree = build_tree(&ctx, 30, "dir", 1, &mut seen);
    assert_eq!(tree.name, "dir");
    assert_eq!(tree.file_count, 1);
    assert_eq!(tree.children[0].name, "a.txt");
    assert_eq!(tree.logical_size, 16);
    assert!(seen.contains(&31));
}
