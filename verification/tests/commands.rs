use diskviz::commands::{adaptive_visible_count, build_dto_at, node_index, subtree_stats, subtree_stats_at};
use diskviz::commands::menu::{route_menu_event, MenuAction};
use diskviz::scanner::arena::Node;
use diskviz::scanner::tree::{DirStats, ScanTree};
use diskviz::scanner::{AGE_BUCKET_REP_DAYS, SECS_PER_DAY};
use std::collections::HashMap;

/// Build a minimal `ScanTree` with a root directory containing one file child
/// per entry of `sizes` (largest first), each with its own extension id.
fn build_test_tree(sizes: &[u64]) -> ScanTree {
    let mut nodes: Vec<Node> = Vec::new();

    let child_indices: Vec<u32> = (1..=sizes.len() as u32).collect();
    nodes.push(Node {
        name: "/root".into(),
        size: sizes.iter().sum(),
        file_count: sizes.len() as u64,
        dir_count: 0,
        is_dir: true,
        is_hidden: false,
        mtime: 0,
        parent: None,
        children: child_indices.clone(),
    });

    let mut ext_names: Vec<String> = Vec::new();
    let mut age_hist = [0u32; 9];

    for (i, &sz) in sizes.iter().enumerate() {
        let ext = format!("ext{}", i);
        ext_names.push(ext);
        nodes.push(Node {
            name: format!("file{}.ext{}", i, i),
            size: sz,
            file_count: 0,
            dir_count: 0,
            is_dir: false,
            is_hidden: false,
            mtime: 0,
            parent: Some(0),
            children: vec![],
        });
        age_hist[0] += 1;
    }

    let exts: Vec<(u32, u64)> = sizes
        .iter()
        .enumerate()
        .map(|(i, &sz)| (i as u32, sz))
        .collect();

    let mut dir_stats: HashMap<u32, DirStats> = HashMap::new();
    dir_stats.insert(0, DirStats { age_hist, exts });

    ScanTree {
        nodes,
        root: 0,
        root_path: "/root".to_string(),
        total_size: sizes.iter().sum(),
        total_files: sizes.len() as u64,
        total_dirs: 0,
        scan_duration_ms: 0,
        ext_names,
        dir_stats,
        scan_now_secs: 0,
    }
}

fn now_secs() -> i64 {
    std::time::SystemTime::now()
        .duration_since(std::time::UNIX_EPOCH)
        .map(|d| d.as_secs() as i64)
        .unwrap_or(0)
}

// ── adaptive_visible_count ───────────────────────────────────────────────────

#[test]
fn avc_len_le_min_shown_returns_all() {
    let sizes: Vec<u64> = (1..=12).map(|i| i * 1000).rev().collect();
    let tree = build_test_tree(&sizes);
    let children = &tree.nodes[0].children;
    assert_eq!(adaptive_visible_count(&tree, children, 0, 200), 12, "≤ MIN_SHOWN → all returned");
}

#[test]
fn avc_other_is_never_biggest_tile() {
    let sizes: Vec<u64> = (0..20u64).map(|i| 1_000_000 / (i + 1)).collect();
    let tree = build_test_tree(&sizes);
    let children = &tree.nodes[0].children;
    let n = adaptive_visible_count(&tree, children, 0, 200);
    let node_sizes: Vec<u64> = children.iter().map(|&c| tree.nodes[c as usize].size).collect();
    let total: u64 = node_sizes.iter().sum();
    let shown_sum: u64 = node_sizes[..n].iter().sum();
    let hidden = total - shown_sum;
    assert!(
        hidden <= node_sizes[n - 1],
        "hidden ({hidden}) must be ≤ smallest shown tile ({})",
        node_sizes[n - 1]
    );
}

#[test]
fn avc_respects_max_clamp() {
    let sizes: Vec<u64> = (1..=30u64).map(|i| 1_000_000 / i).collect();
    let tree = build_test_tree(&sizes);
    let children = &tree.nodes[0].children;
    let max = 15usize;
    let n = adaptive_visible_count(&tree, children, 0, max);
    assert!(n <= max, "n ({n}) must be ≤ max ({max})");
}

#[test]
fn avc_offset_past_end_returns_zero() {
    let sizes = vec![100u64, 200, 300];
    let tree = build_test_tree(&sizes);
    let children = &tree.nodes[0].children;
    assert_eq!(adaptive_visible_count(&tree, children, 100, 200), 0);
}

#[test]
fn avc_stops_at_first_count_where_rest_fits() {
    // 13 children: twelve of 100, then one of 50. After twelve, the hidden
    // remainder (50) is no larger than the twelfth tile (100): twelve shown.
    let mut sizes: Vec<u64> = vec![100; 12];
    sizes.push(50);
    let tree = build_test_tree(&sizes);
    let children = &tree.nodes[0].children;
    assert_eq!(adaptive_visible_count(&tree, children, 0, 200), 12);
}

#[test]
fn avc_grows_until_rest_fits() {
    // Twelve tiles of 10, then 5, 4, 3 and 2 ... the remainder after twelve
    // is 14 > 10; after thirteen it is 9 > 5; after fourteen it is 5 > 4;
    // after fifteen it is 2 <= 3: fifteen shown.
    let mut sizes: Vec<u64> = vec![10; 12];
    sizes.extend_from_slice(&[5, 4, 3, 2]);
    let tree = build_test_tree(&sizes);
    let children = &tree.nodes[0].children;
    assert_eq!(adaptive_visible_count(&tree, children, 0, 200), 15);
}

#[test]
fn avc_cap_below_minimum_still_shows_minimum() {
    let sizes: Vec<u64> = (1..=30u64).map(|i| 1_000_000 / i).collect();
    let tree = build_test_tree(&sizes);
    let children = &tree.nodes[0].children;
    assert_eq!(adaptive_visible_count(&tree, children, 0, 5), 12);
}

#[test]
fn avc_offset_counts_only_the_rest() {
    let sizes: Vec<u64> = (1..=20u64).map(|i| 1000 * (21 - i)).collect();
    let tree = build_test_tree(&sizes);
    let children = &tree.nodes[0].children;
    // From offset 10 ten children remain: all of them.
    assert_eq!(adaptive_visible_count(&tree, children, 10, 200), 10);
}

// ── subtree_stats ────────────────────────────────────────────────────────────

#[test]
fn subtree_stats_empty_returns_zero_triple() {
    let tree = build_test_tree(&[]);
    let (ft, other, median) = subtree_stats(&tree, 0);
    assert!(ft.is_empty(), "no exts");
    assert_eq!(other, 0);
    assert_eq!(median, 0, "no files → median 0");
}

#[test]
fn subtree_stats_no_dir_stats_returns_zero_triple() {
    let tree = build_test_tree(&[100, 200]);
    let (ft, other, _median) = subtree_stats(&tree, 1);
    assert!(ft.is_empty());
    assert_eq!(other, 0);
}

#[test]
fn subtree_stats_top_8_exts_and_other() {
    let sizes: Vec<u64> = (1..=10u64).map(|i| (11 - i) * 1000).collect();
    let tree = build_test_tree(&sizes);
    let (ft, other, _median) = subtree_stats(&tree, 0);
    assert_eq!(ft.len(), 8, "top-8 ext types returned");
    let expected_other: u64 = sizes[8] + sizes[9];
    assert_eq!(other, expected_other, "file_types_other is sum of exts beyond top-8");
}

#[test]
fn subtree_stats_exactly_8_exts_no_other() {
    let sizes: Vec<u64> = (1..=8u64).map(|i| (9 - i) * 1000).collect();
    let tree = build_test_tree(&sizes);
    let (ft, other, _median) = subtree_stats(&tree, 0);
    assert_eq!(ft.len(), 8);
    assert_eq!(other, 0, "exactly 8 exts → no remainder");
}

#[test]
fn subtree_stats_median_bucket_index() {
    let mut tree = build_test_tree(&[100, 200, 300]);
    tree.dir_stats.insert(
        0,
        DirStats {
            age_hist: [0, 0, 3, 0, 0, 0, 0, 0, 0],
            exts: vec![],
        },
    );
    let (_ft, _other, median_mtime) = subtree_stats(&tree, 0);
    let now = now_secs();
    let rep_days = AGE_BUCKET_REP_DAYS[2];
    let expected = now - rep_days * SECS_PER_DAY;
    assert!(
        (median_mtime - expected).abs() < 5,
        "median_mtime ({median_mtime}) should be close to now - REP_DAYS[2]*SECS_PER_DAY ({expected})"
    );
}

#[test]
fn subtree_stats_at_names_and_sizes_in_order() {
    let tree = build_test_tree(&[500, 300, 100]);
    let (ft, other, median) = subtree_stats_at(&tree, 0, 1_000_000_000);
    assert_eq!(ft.len(), 3);
    assert_eq!(ft[0].ext, "ext0");
    assert_eq!(ft[0].size, 500);
    assert_eq!(ft[2].ext, "ext2");
    assert_eq!(ft[2].size, 100);
    assert_eq!(other, 0);
    // All three files in bucket 0, represented as 0 days old.
    assert_eq!(median, 1_000_000_000);
}

#[test]
fn subtree_stats_at_median_is_the_middle_file() {
    let mut tree = build_test_tree(&[1, 2, 3, 4, 5]);
    // Two files under a day old, one in bucket 3, two in bucket 8: the third
    // of five files sits in bucket 3.
    tree.dir_stats.insert(0, DirStats { age_hist: [2, 0, 0, 1, 0, 0, 0, 0, 2], exts: vec![] });
    let now = 2_000_000_000i64;
    let (_, _, median) = subtree_stats_at(&tree, 0, now);
    assert_eq!(median, now - 60 * 86_400);
    // With four files, the second is the median: bucket 0.
    tree.dir_stats.insert(0, DirStats { age_hist: [2, 0, 0, 0, 0, 0, 0, 0, 2], exts: vec![] });
    let (_, _, median) = subtree_stats_at(&tree, 0, now);
    assert_eq!(median, now);
}

#[test]
fn node_ids_read_back() {
    let tree = build_test_tree(&[1, 2, 3]);
    for i in 0..4u32 {
        assert_eq!(node_index(Some(&tree), &i.to_string()), Ok(i));
    }
}

#[test]
fn slice_hidden_tile_is_never_biggest() {
    let sizes: Vec<u64> = (0..40u64).map(|i| 1_000_000 / (i + 1)).collect();
    let tree = build_test_tree(&sizes);
    let d = build_dto_at(&tree, 0, 1, 100, 0, 1_000_000_000);
    let shown = d.children.len();
    assert!(shown >= 12);
    assert!(d.hidden_size <= d.children[shown - 1].size);
    assert_eq!(shown as u64 + d.hidden_children, 40);
    let shown_sum: u64 = d.children.iter().map(|c| c.size).sum();
    assert_eq!(shown_sum + d.hidden_size, sizes.iter().sum::<u64>());
}

#[test]
fn menu_fixed_items_route_by_name() {
    assert_eq!(route_menu_event("open-folder"), Some(MenuAction::OpenFolder));
    assert_eq!(route_menu_event("show-shortcuts"), Some(MenuAction::ShowShortcuts));
    assert_eq!(route_menu_event("show-notices"), Some(MenuAction::ShowNotices));
    assert_eq!(route_menu_event("viz-treemap"), Some(MenuAction::SetVisualization("treemap".to_string())));
    assert_eq!(route_menu_event("viz-sunburst"), Some(MenuAction::SetVisualization("sunburst".to_string())));
    assert_eq!(route_menu_event("open-folder").unwrap().event_name(), "menu-open-folder");
    assert_eq!(route_menu_event("open-folder").unwrap().payload(), None);
}

#[test]
fn menu_theme_and_accent_carry_the_rest_of_the_id() {
    let theme = route_menu_event("theme-frappé").unwrap();
    assert_eq!(theme, MenuAction::SetTheme("frappé".to_string()));
    assert_eq!(theme.event_name(), "menu-set-theme");
    assert_eq!(theme.payload(), Some("frappé".to_string()));
    let accent = route_menu_event("accent-lavender").unwrap();
    assert_eq!(accent.event_name(), "menu-set-accent");
    assert_eq!(accent.payload(), Some("lavender".to_string()));
    assert_eq!(route_menu_event("theme-"), Some(MenuAction::SetTheme(String::new())));
    assert_eq!(route_menu_event("viz-sunburst").unwrap().event_name(), "menu-set-visualization");
}

#[test]
fn menu_unknown_items_send_nothing() {
    assert_eq!(route_menu_event("viz-pie"), None);
    assert_eq!(route_menu_event("Theme-latte"), None);
    assert_eq!(route_menu_event(""), None);
    assert_eq!(route_menu_event("open-folder "), None);
}
