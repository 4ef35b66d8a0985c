use diskviz::commands::{build_dto_at, delete_node, display_name, get_subtree, is_removable, is_viewable, node_index, summary_of};
use diskviz::scanner::assemble::{progress_due, ArenaBuilder, ScanError};
use diskviz::scanner::tree::ScanTree;
use diskviz::scanner::{age_bucket, extension_of};

/// Walks a small tree in the order a depth-first walk yields it:
///
/// ```text
/// /data            (depth 0)
///   a.BIN  100     (depth 1, 40 days old)
///   sub            (depth 1)
///     b.bin 200    (depth 2, fresh)
///     .c.txt 300   (depth 2, 3 years old)
///     deep         (depth 2)
///       d 400      (depth 3, no extension)
/// ```
fn scanned(now: i64) -> ScanTree {
    let day = 86_400;
    let mut b = ArenaBuilder::new();
    b.push_entry(0, "/data".to_string(), true, 0, now);
    b.push_entry(1, "a.BIN".to_string(), false, 100, now - 40 * day);
    b.push_entry(1, "sub".to_string(), true, 0, now);
    b.push_entry(2, "b.bin".to_string(), false, 200, now);
    b.push_entry(2, ".c.txt".to_string(), false, 300, now - 3 * 365 * day);
    b.push_entry(2, "deep".to_string(), true, 0, now);
    b.push_entry(3, "d".to_string(), false, 400, now - 2 * day);
    match b.finish("/data".to_string(), now, 7) {
        Ok(t) => t,
        Err(_) => panic!("finish failed"),
    }
}

const NOW: i64 = 1_700_000_000;

#[test]
fn builder_aggregates_sizes_and_counts() {
    let tree = scanned(NOW);
    assert_eq!(tree.total_files, 4, "four files");
    assert_eq!(tree.total_dirs, 2, "sub and sub/deep");
    assert_eq!(tree.total_size, 1000);
    assert_eq!(tree.scan_duration_ms, 7);
    let root = &tree.nodes[tree.root as usize];
    assert_eq!(root.size, tree.total_size);
    assert_eq!(root.file_count, 4);
    assert_eq!(root.dir_count, 2);
    // Children largest first: sub (900) before a.BIN (100).
    let sub = &tree.nodes[root.children[0] as usize];
    assert_eq!(sub.name, "sub");
    assert_eq!(sub.size, 900);
    assert_eq!(sub.file_count, 3);
    assert_eq!(sub.dir_count, 1);
    let sub_sizes: Vec<u64> = sub.children.iter().map(|&c| tree.nodes[c as usize].size).collect();
    assert_eq!(sub_sizes, vec![400, 300, 200]);
}

#[test]
fn builder_marks_hidden_and_links_parents() {
    let tree = scanned(NOW);
    let hidden: Vec<&str> = tree.nodes.iter().filter(|n| n.is_hidden).map(|n| n.name.as_str()).collect();
    assert_eq!(hidden, vec![".c.txt"]);
    for (i, n) in tree.nodes.iter().enumerate() {
        if let Some(p) = n.parent {
            assert!((p as usize) < i);
            assert!(tree.nodes[p as usize].children.contains(&(i as u32)));
        }
    }
}

#[test]
fn builder_stats_histogram_and_extensions() {
    let tree = scanned(NOW);
    let root_stats = tree.dir_stats.get(&tree.root).expect("root has dir_stats");
    let hist_total: u32 = root_stats.age_hist.iter().sum();
    assert_eq!(hist_total, 4, "age_hist covers all 4 files");
    // fresh -> 0; 2 days -> 1; 40 days -> 3; 3 years -> 7.
    assert_eq!(root_stats.age_hist, [1, 1, 0, 1, 0, 0, 0, 1, 0]);
    let bin_id = tree.ext_names.iter().position(|e| e == "bin").expect(".bin interned") as u32;
    let txt_id = tree.ext_names.iter().position(|e| e == "txt").expect(".txt interned") as u32;
    let none_id = tree.ext_names.iter().position(|e| e.is_empty()).expect("no extension interned") as u32;
    assert_eq!(tree.ext_names.len(), 3);
    let sizes: Vec<u64> = root_stats.exts.iter().map(|&(_, s)| s).collect();
    assert_eq!(sizes, vec![400, 300, 300]);
    assert!(root_stats.exts.iter().any(|&(e, s)| e == bin_id && s == 300));
    assert!(root_stats.exts.iter().any(|&(e, s)| e == txt_id && s == 300));
    assert!(root_stats.exts.iter().any(|&(e, s)| e == none_id && s == 400));
    // Files have no statistics; every directory has.
    for (i, n) in tree.nodes.iter().enumerate() {
        assert_eq!(tree.dir_stats.contains_key(&(i as u32)), n.is_dir);
    }
}

#[test]
fn builder_without_root_fails() {
    let mut b = ArenaBuilder::new();
    b.push_entry(1, "orphan".to_string(), false, 5, 0);
    assert!(matches!(b.finish("/x".to_string(), 0, 0), Err(ScanError::RootMissing)));
}

#[test]
fn builder_overflowing_totals_fail() {
    let mut b = ArenaBuilder::new();
    b.push_entry(0, "/x".to_string(), true, 0, 0);
    b.push_entry(1, "a".to_string(), false, u64::MAX, 0);
    b.push_entry(1, "b".to_string(), true, 5, 0);
    assert!(matches!(b.finish("/x".to_string(), 0, 0), Err(ScanError::TotalsOverflow)));
}

#[test]
fn builder_reports_progress_when_due() {
    let mut b = ArenaBuilder::new();
    b.push_entry(0, "/x".to_string(), true, 0, 0);
    b.push_entry(1, "f".to_string(), false, 10, 0);
    assert!(b.take_progress("/x/f".to_string(), 5).is_none());
    let p = b.take_progress("/x/f".to_string(), 80).expect("80 ms passed");
    assert_eq!(p.current_path, "/x/f");
    assert_eq!(p.files_scanned, 1);
    assert_eq!(p.directories_scanned, 1);
    assert_eq!(p.bytes_scanned, 10);
    assert_eq!(b.since_emit, 0);
    assert!(progress_due(4096, 0));
    assert!(!progress_due(4095, 79));
}

#[test]
fn remove_subtree_lowers_ancestors_and_totals() {
    let mut tree = scanned(NOW);
    let sub = tree.nodes.iter().position(|n| n.name == "sub").unwrap() as u32;
    let deep = tree.nodes.iter().position(|n| n.name == "deep").unwrap() as u32;
    let (size, files, dirs) = tree.remove_subtree_at(deep, NOW);
    assert_eq!((size, files, dirs), (600, 3, 1));
    assert_eq!(tree.nodes[sub as usize].size, 500);
    assert_eq!(tree.nodes[sub as usize].file_count, 2);
    assert_eq!(tree.nodes[sub as usize].dir_count, 0);
    assert!(!tree.nodes[sub as usize].children.contains(&deep));
    assert_eq!(tree.nodes[deep as usize].size, 0);
    assert!(!tree.dir_stats.contains_key(&deep));
    let root_stats = &tree.dir_stats[&tree.root];
    assert_eq!(root_stats.age_hist, [1, 0, 0, 1, 0, 0, 0, 1, 0]);
    assert!(root_stats.exts.iter().all(|&(_, s)| s == 300));
    assert_eq!(root_stats.exts.len(), 2);
}

#[test]
fn remove_file_takes_its_extension_off() {
    let mut tree = scanned(NOW);
    let a = tree.nodes.iter().position(|n| n.name == "a.BIN").unwrap() as u32;
    let r = tree.remove_subtree_at(a, NOW);
    assert_eq!(r, (900, 3, 2));
    let bin_id = tree.ext_names.iter().position(|e| e == "bin").unwrap() as u32;
    let root_stats = &tree.dir_stats[&tree.root];
    assert!(root_stats.exts.iter().any(|&(e, s)| e == bin_id && s == 200));
    assert_eq!(root_stats.age_hist, [1, 1, 0, 0, 0, 0, 0, 1, 0]);
}

#[test]
fn remove_subtree_uses_the_scan_clock() {
    // The file was 40 days old when the scan ran; its bucket then is the one
    // taken off, whatever the clock reads now.
    let mut tree = scanned(NOW);
    let a = tree.nodes.iter().position(|n| n.name == "a.BIN").unwrap() as u32;
    assert_eq!(tree.remove_subtree(a), (900, 3, 2));
    assert_eq!(tree.dir_stats[&tree.root].age_hist, [1, 1, 0, 0, 0, 0, 0, 1, 0]);
}

#[test]
fn remove_root_empties_totals() {
    let mut tree = scanned(NOW);
    let root = tree.root;
    assert_eq!(tree.remove_subtree(root), (0, 0, 0));
}

#[test]
fn path_of_joins_names_below_root() {
    let tree = scanned(NOW);
    let d = tree.nodes.iter().position(|n| n.name == "d").unwrap() as u32;
    let expected = std::path::PathBuf::from("/data").join("sub").join("deep").join("d");
    assert_eq!(tree.path_of(d), expected.to_string_lossy());
    assert_eq!(tree.path_of(tree.root), "/data");
}

#[test]
fn display_name_of_root_is_last_component() {
    let mut tree = scanned(NOW);
    assert_eq!(display_name(&tree, tree.root), "data");
    let sub = tree.nodes.iter().position(|n| n.name == "sub").unwrap() as u32;
    assert_eq!(display_name(&tree, sub), "sub");
    tree.root_path = "/".to_string();
    assert_eq!(display_name(&tree, tree.root), "/");
}

#[test]
fn dto_slices_and_summarises() {
    let tree = scanned(NOW);
    let d = build_dto_at(&tree, tree.root, 1, 100, 0, NOW);
    assert_eq!(d.id, tree.root.to_string());
    assert_eq!(d.name, "data");
    assert_eq!(d.path, "/data");
    assert_eq!(d.node_type, "directory");
    assert_eq!(d.size, 1000);
    assert_eq!(d.children.len(), 2);
    assert_eq!(d.children[0].name, "sub");
    assert_eq!(d.children[0].node_type, "directory");
    // Depth 1: the grandchildren are not included, but counted as hidden.
    assert!(d.children[0].children.is_empty());
    assert_eq!(d.children[0].hidden_children, 3);
    assert_eq!(d.children[0].hidden_size, 900);
    assert_eq!(d.children[1].node_type, "file");
    assert_eq!(d.hidden_children, 0);
    assert_eq!(d.hidden_size, 0);
    assert_eq!(d.permissions, "");
    assert_eq!(d.file_types.len(), 3);
    assert_eq!(d.file_types[0].size, 400);
    assert_eq!(d.file_types_other, 0);
    // Four files, median the second: bucket 1 (3 days).
    assert_eq!(d.median_mtime, NOW - 3 * 86_400);
}

#[test]
fn dto_offset_skips_children() {
    let tree = scanned(NOW);
    let d = build_dto_at(&tree, tree.root, 2, 100, 1, NOW);
    assert_eq!(d.children.len(), 1);
    assert_eq!(d.children[0].name, "a.BIN");
    assert_eq!(d.hidden_children, 0);
    let far = build_dto_at(&tree, tree.root, 2, 100, 10, NOW);
    assert!(far.children.is_empty());
    assert_eq!(far.hidden_children, 0);
}

#[test]
fn get_subtree_errors() {
    let tree = scanned(NOW);
    assert_eq!(get_subtree(Some(&tree), "x1", None, None, None).err().unwrap(), "invalid node id");
    assert_eq!(get_subtree(None, "1", None, None, None).err().unwrap(), "no scan loaded");
    assert_eq!(get_subtree(None, "nope", None, None, None).err().unwrap(), "invalid node id");
    assert_eq!(get_subtree(Some(&tree), "99", None, None, None).err().unwrap(), "node id out of range");
    let ok = get_subtree(Some(&tree), "+0", None, None, None).unwrap();
    assert_eq!(ok.id, "0");
    assert_eq!(ok.children.len(), 2);
}

#[test]
fn node_index_parses_like_u32() {
    let tree = scanned(NOW);
    assert_eq!(node_index(Some(&tree), "3"), Ok(3));
    assert!(node_index(Some(&tree), "-1").is_err());
    assert!(node_index(Some(&tree), "4294967296").is_err());
    assert!(node_index(Some(&tree), "").is_err());
    assert_eq!(node_index(Some(&tree), "4294967295").err().unwrap(), "node id out of range");
}

#[test]
fn delete_node_reports_new_summary() {
    let mut tree = scanned(NOW);
    let before = summary_of(&tree);
    assert_eq!(before.root_id, "0");
    assert_eq!(before.total_size, 1000);
    let sub = tree.nodes.iter().position(|n| n.name == "sub").unwrap() as u32;
    let s = delete_node(&mut tree, sub);
    assert_eq!(s.total_size, 100);
    assert_eq!(s.total_files, 1);
    assert_eq!(s.total_directories, 0);
    assert_eq!(s.scan_duration_ms, 7);
    assert_eq!(s.root_id, "0");
}

#[test]
fn age_buckets_and_extensions() {
    assert_eq!(age_bucket(-3), 0);
    assert_eq!(age_bucket(0), 0);
    assert_eq!(age_bucket(1), 1);
    assert_eq!(age_bucket(29), 2);
    assert_eq!(age_bucket(1824), 7);
    assert_eq!(age_bucket(1825), 8);
    assert_eq!(extension_of("Photo.JPG"), "jpg");
    assert_eq!(extension_of("a.tar.gz"), "gz");
    assert_eq!(extension_of(".bashrc"), "");
    assert_eq!(extension_of("README"), "");
    assert_eq!(extension_of("a."), "");
    assert_eq!(extension_of("..hidden"), "hidden");
}

#[test]
fn file_types_add_up_to_file_bytes() {
    let tree = scanned(NOW);
    let root_stats = &tree.dir_stats[&tree.root];
    let total: u64 = root_stats.exts.iter().map(|&(_, s)| s).sum();
    assert_eq!(total, 1000);
    let sub = tree.nodes.iter().position(|n| n.name == "sub").unwrap() as u32;
    let sub_total: u64 = tree.dir_stats[&sub].exts.iter().map(|&(_, s)| s).sum();
    assert_eq!(sub_total, 900);
    let sub_hist: u32 = tree.dir_stats[&sub].age_hist.iter().sum();
    assert_eq!(sub_hist as u64, tree.nodes[sub as usize].file_count);
}

#[test]
fn finished_scan_passes_shape_checks() {
    let mut tree = scanned(NOW);
    assert!(is_viewable(&tree));
    assert!(is_removable(&tree));
    let sub = tree.nodes.iter().position(|n| n.name == "sub").unwrap();
    let dup = tree.nodes[sub].children[0];
    tree.nodes[sub].children.push(dup);
    assert!(!is_removable(&tree), "a child listed twice");
    tree.nodes[sub].children.pop();
    tree.nodes[sub].children.push(99);
    assert!(!is_viewable(&tree), "a child out of range");
    assert!(!is_removable(&tree));
}
