//! How sizes, times, attributes and fields of a table are written.

use diskforge::calendar::days_to_ymd;
use diskforge::export::{escape_csv_field, format_tag};
use diskforge::format::{
    format_attributes, format_filetime, format_filetime_local, human_size, human_size_compact,
    truncate_text, DateTime, TimeCache,
};

#[test]
fn test_escape_csv_field_basic() {
    assert_eq!(escape_csv_field("hello.txt"), "hello.txt");
    assert_eq!(escape_csv_field("a,b"), "\"a,b\"");
    assert_eq!(escape_csv_field("a\"b"), "\"a\"\"b\"");
}

#[test]
fn test_escape_csv_field_formula_injection() {
    assert_eq!(escape_csv_field("=cmd|'/c calc'!A0"), "'=cmd|'/c calc'!A0");
    assert_eq!(escape_csv_field("+1+1"), "'+1+1");
    assert_eq!(escape_csv_field("-2+3"), "'-2+3");
    assert_eq!(escape_csv_field("@SUM(1)"), "'@SUM(1)");
    assert_eq!(escape_csv_field("-1.23"), "'-1.23");
}

#[test]
fn test_human_size_bytes() {
    assert_eq!(human_size(0), "0.00 B");
    assert_eq!(human_size(1), "1.00 B");
    assert_eq!(human_size(1023), "1023.00 B");
}

#[test]
fn test_human_size_kb_mb_gb() {
    assert_eq!(human_size(1024), "1.00 KB");
    assert_eq!(human_size(1024 * 1024), "1.00 MB");
    assert_eq!(human_size(1024 * 1024 * 1024), "1.00 GB");
    assert_eq!(human_size(1024_u64.pow(4)), "1.00 TB");
}

#[test]
fn test_human_size_compact() {
    assert_eq!(human_size_compact(0), "0B");
    assert_eq!(human_size_compact(1024), "1.00K");
    assert_eq!(human_size_compact(1024 * 1024), "1.00M");
    assert_eq!(human_size_compact(1024 * 1024 * 1024), "1.00G");
    assert_eq!(human_size_compact(1024_u64.pow(4)), "1.00T");
}

#[test]
fn test_format_filetime_zero() {
    assert_eq!(format_filetime(0), "");
}

#[test]
fn test_format_filetime_unix_epoch() {
    let ft = 11_644_473_600u64 * 10_000_000;
    let s = format_filetime(ft);
    assert!(s.starts_with("1970-01-01"), "got: {}", s);
}

#[test]
fn test_format_filetime_known_date() {
    let ft = 13_349_788_200u64 * 10_000_000;
    let s = format_filetime(ft);
    assert_eq!(s, "2024-01-15 10:30");
}

#[test]
fn test_format_attributes_empty() {
    assert_eq!(format_attributes(0), "—");
}

#[test]
fn test_format_attributes_normal() {
    assert_eq!(format_attributes(0x80), "—");
}

#[test]
fn test_format_attributes_directory() {
    assert_eq!(format_attributes(0x10), "—");
}

#[test]
fn test_format_attributes_system_archive() {
    let s = format_attributes(0x24);
    assert!(s.contains('S'), "should contain S: {}", s);
    assert!(s.contains('A'), "should contain A: {}", s);
    assert!(!s.contains('D'), "should not contain D: {}", s);
}

#[test]
fn test_format_attributes_hidden_system_directory() {
    let s = format_attributes(0x16);
    assert!(s.contains('H'));
    assert!(s.contains('S'));
}

#[test]
fn sizes_are_written_as_the_standard_library_writes_the_quotient() {
    for b in [1536u64, 1600, 1_234_567, 999_999_999, 1_099_511_627_775, 5_000_000_000_000_000, u64::MAX] {
        let mut v = b as f64;
        let units = ["B", "KB", "MB", "GB", "TB"];
        let mut u = 0;
        while v >= 1024.0 && u < 4 {
            v /= 1024.0;
            u += 1;
        }
        assert_eq!(human_size(b), format!("{:.2} {}", v, units[u]));
    }
}

#[test]
fn a_half_is_rounded_as_the_nearest_double_lies() {
    assert_eq!(human_size(1024 + 5), "1.00 KB");
    assert_eq!(human_size(1024 + 6), "1.01 KB");
    assert_eq!(human_size(1024 * 1024 - 1), "1024.00 KB");
}

#[test]
fn days_since_1970_give_dates() {
    for (days, want) in [
        (0, (1970, 1, 1)),
        (59, (1970, 3, 1)),
        (11_016, (2000, 2, 29)),
        (19_737, (2024, 1, 15)),
    ] {
        let d = days_to_ymd(days);
        assert_eq!((d.year, d.month, d.day), want);
    }
}

#[test]
fn local_times_are_remembered() {
    let mut cache = TimeCache::new();
    let ft = 13_349_788_200u64 * 10_000_000;
    let local = DateTime { year: 2024, month: 1, day: 15, hour: 18, minute: 30 };
    assert!(cache.known(ft).is_none());
    assert_eq!(format_filetime_local(&mut cache, ft, Some(local)), "2024-01-15 18:30");
    assert!(cache.known(ft).is_some());
    assert_eq!(format_filetime_local(&mut cache, ft, None), "2024-01-15 18:30");
    assert_eq!(format_filetime_local(&mut cache, 0, None), "");
}

#[test]
fn a_text_that_does_not_fit_is_cut_and_marked() {
    assert_eq!(truncate_text("abcdef", |s: &str| s.chars().count() <= 6), "abcdef");
    assert_eq!(truncate_text("abcdef", |s: &str| s.chars().count() <= 4), "abc…");
    assert_eq!(truncate_text("abcdef", |_: &str| false), "");
}

#[test]
fn reparse_tags_are_written_in_hexadecimal() {
    assert_eq!(format_tag(0), "");
    assert_eq!(format_tag(0xA000_000C), "0xA000000C");
    assert_eq!(format_tag(0xA000_0003), "0xA0000003");
}

#[test]
fn line_breaks_in_fields_are_quoted() {
    assert_eq!(escape_csv_field("a\nb"), "\"a\nb\"");
    assert_eq!(escape_csv_field(""), "");
    assert_eq!(escape_csv_field("=a,\"b\""), "\"'=a,\"\"b\"\"\"");
}

#[test]
fn later_times_are_written_later() {
    let mut last = String::new();
    for secs in [0u64, 59, 60, 3_599, 3_600, 86_399, 86_400, 951_782_399, 951_782_400, 1_705_314_600, 253_402_300_799] {
        let text = format_filetime((secs + 11_644_473_600) * 10_000_000);
        assert_eq!(text.len(), 16);
        assert!(last <= text, "{last} {text}");
        last = text;
    }
    assert_eq!(last, "9999-12-31 23:59");
    assert_eq!(format_filetime(11_644_473_600 * 10_000_000 - 1), "");
}

#[test]
fn the_cache_of_times_is_not_noticed() {
    let mut cache = TimeCache::new();
    let times: Vec<u64> = (0..70_000u64).map(|i| (i * 60 + 11_644_473_600) * 10_000_000).collect();
    for &ft in &times {
        assert_eq!(format_filetime_local(&mut cache, ft, None), format_filetime(ft));
    }
    for &ft in times.iter().step_by(997) {
        assert_eq!(format_filetime_local(&mut cache, ft, None), format_filetime(ft));
    }
}
