use dashmap::DashSet;
use diskviz::scanner::dirmeta::{classify_entry, entry_kind, entry_meta, parse_attr_records, EntryKind};
use diskviz::scanner::volume::{volume_used_bytes, VolumeStat};
use diskviz::scanner::walk_stats::{emit_progress_if_due, report_for, window_open, WalkStats};
use std::sync::atomic::Ordering;

#[test]
fn classify_counts_each_identity_once() {
    let visited: DashSet<(u64, u64)> = DashSet::new();
    assert_eq!(classify_entry(&visited, true, 0, 1, 10), EntryKind::NewDir);
    assert_eq!(classify_entry(&visited, true, 0, 1, 10), EntryKind::SeenDir);
    assert_eq!(classify_entry(&visited, false, 2, 1, 11), EntryKind::NewFile);
    assert_eq!(classify_entry(&visited, false, 2, 1, 11), EntryKind::SeenFile);
    // A file with a single link is never looked up.
    assert_eq!(classify_entry(&visited, false, 1, 1, 10), EntryKind::NewFile);
    assert_eq!(classify_entry(&visited, false, 1, 1, 10), EntryKind::NewFile);
    assert_eq!(visited.len(), 2);
}

#[test]
fn entry_kinds_and_kept_sizes() {
    assert_eq!(entry_kind(true, 0, false), EntryKind::SeenDir);
    assert_eq!(entry_kind(false, 1, false), EntryKind::NewFile);
    assert_eq!(entry_kind(false, 3, false), EntryKind::SeenFile);
    assert_eq!(entry_meta(EntryKind::SeenFile, 4096, 7).size, 0);
    assert_eq!(entry_meta(EntryKind::NewFile, 4096, 7).size, 4096);
    assert_eq!(entry_meta(EntryKind::SeenDir, 4096, 7).mtime, 7);
}

fn put_u32(b: &mut Vec<u8>, at: usize, v: u32) {
    b[at..at + 4].copy_from_slice(&v.to_le_bytes());
}

fn put_u64(b: &mut Vec<u8>, at: usize, v: u64) {
    b[at..at + 8].copy_from_slice(&v.to_le_bytes());
}

/// One packed record: fixed part, then the name with its terminating zero.
fn record(name: &str, objtype: u32, dev: u32, mtime: i64, ino: u64, nlink: u32, alloc: i64) -> Vec<u8> {
    let name_at = 76usize;
    let total = name_at + name.len() + 1;
    let mut b = vec![0u8; total];
    put_u32(&mut b, 0, total as u32);
    put_u32(&mut b, 24, (name_at - 24) as u32);
    put_u32(&mut b, 28, (name.len() + 1) as u32);
    put_u32(&mut b, 32, dev);
    put_u32(&mut b, 36, objtype);
    put_u64(&mut b, 40, mtime as u64);
    put_u64(&mut b, 56, ino);
    put_u32(&mut b, 64, nlink);
    put_u64(&mut b, 68, alloc as u64);
    b[name_at..name_at + name.len()].copy_from_slice(name.as_bytes());
    b
}

#[test]
fn parse_records_decodes_fields() {
    let mut buf = record("a.txt", 1, 0xFFFF_FFFE, 1_700_000_000, 42, 1, 8192);
    buf.extend(record("sub", 2, 3, -5, 43, 0, 4096));
    buf.extend(record("neg", 1, 3, 0, 44, 2, -1));
    let out = parse_attr_records(&buf, 3);
    assert_eq!(out.len(), 3);
    assert_eq!(out[0].0, b"a.txt".to_vec());
    assert_eq!(out[0].1.size, 8192);
    assert_eq!(out[0].1.mtime, 1_700_000_000);
    assert!(!out[0].1.is_dir);
    assert_eq!(out[0].1.dev, 0xFFFF_FFFE);
    assert_eq!(out[0].1.ino, 42);
    assert_eq!(out[0].1.nlink, 1);
    assert_eq!(out[1].0, b"sub".to_vec());
    assert!(out[1].1.is_dir);
    assert_eq!(out[1].1.size, 0, "directories report no size");
    assert_eq!(out[1].1.mtime, -5);
    assert_eq!(out[2].1.size, 0, "negative allocation reads as 0");
    assert_eq!(out[2].1.nlink, 2);
}

#[test]
fn parse_records_stops_at_truncation_and_count() {
    let mut buf = record("a", 1, 0, 0, 1, 1, 10);
    buf.extend(record("b", 1, 0, 0, 2, 1, 20));
    assert_eq!(parse_attr_records(&buf, 1).len(), 1);
    let cut = buf.len() - 3;
    let out = parse_attr_records(&buf[..cut], 2);
    assert_eq!(out.len(), 1);
    assert_eq!(out[0].0, b"a".to_vec());
    assert!(parse_attr_records(&buf, 0).is_empty());
}

#[test]
fn parse_records_skips_empty_names() {
    let mut buf = record("", 1, 0, 0, 1, 1, 10);
    buf.extend(record("b", 1, 0, 0, 2, 1, 20));
    let out = parse_attr_records(&buf, 2);
    assert_eq!(out.len(), 1);
    assert_eq!(out[0].0, b"b".to_vec());
}

#[test]
fn volume_used_is_used_fragments_times_size() {
    assert_eq!(volume_used_bytes(None), None);
    assert_eq!(volume_used_bytes(Some(VolumeStat { blocks: 1000, bfree: 400, frsize: 4096 })), Some(600 * 4096));
    assert_eq!(volume_used_bytes(Some(VolumeStat { blocks: 10, bfree: 40, frsize: 4096 })), Some(0));
    assert_eq!(volume_used_bytes(Some(VolumeStat { blocks: u64::MAX, bfree: 0, frsize: 2 })), Some(u64::MAX));
}

#[test]
fn progress_window_and_claim() {
    assert!(window_open(180, 100));
    assert!(!window_open(179, 100));
    assert!(!window_open(50, 100));
    let stats = WalkStats::default();
    stats.file_count.store(3, Ordering::Relaxed);
    stats.dir_count.store(2, Ordering::Relaxed);
    stats.bytes_scanned.store(99, Ordering::Relaxed);
    // The clock is far past 80 ms after the epoch: the first caller claims
    // the window, the next one within it stays quiet.
    let p = emit_progress_if_due("/a", &stats).expect("first report");
    assert_eq!(p.current_path, "/a");
    assert_eq!((p.files_scanned, p.directories_scanned, p.bytes_scanned), (3, 2, 99));
    assert!(emit_progress_if_due("/b", &stats).is_none());
}

#[test]
fn report_only_when_window_open_and_claimed() {
    let p = report_for(180, 100, true, "/x/y", 3, 2, 500).expect("open and claimed");
    assert_eq!(p.current_path, "/x/y");
    assert_eq!((p.files_scanned, p.directories_scanned, p.bytes_scanned), (3, 2, 500));
    assert!(report_for(180, 100, false, "/x/y", 3, 2, 500).is_none());
    assert!(report_for(179, 100, true, "/x/y", 3, 2, 500).is_none());
    assert!(report_for(50, 100, true, "/x/y", 3, 2, 500).is_none());
}
