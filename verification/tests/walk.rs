use diskviz::scanner::assemble::numbers_fit;
use diskviz::scanner::finalize::finalize;
use diskviz::scanner::dirmeta::EntryKind;
use diskviz::scanner::walk_common::{entry_leaf, flatten, is_hidden_name, RawNode};

fn leaf(name: &str, size: u64, mtime: i64) -> RawNode {
    RawNode { name: name.into(), size, mtime, is_dir: false, is_hidden: false, children: vec![] }
}

#[test]
fn flatten_child_idx_gt_parent_idx() {
    // Tree layout:
    //   root (dir)
    //     ├── file_a (file, size 100)
    //     └── sub   (dir)
    //           └── file_b (file, size 200)
    let root_raw = RawNode {
        name: "root".into(),
        size: 0,
        mtime: 0,
        is_dir: true,
        is_hidden: false,
        children: vec![
            RawNode {
                name: "file_a".into(),
                size: 100,
                mtime: 1000,
                is_dir: false,
                is_hidden: false,
                children: vec![],
            },
            RawNode {
                name: "sub".into(),
                size: 0,
                mtime: 0,
                is_dir: true,
                is_hidden: false,
                children: vec![RawNode {
                    name: "file_b".into(),
                    size: 200,
                    mtime: 2000,
                    is_dir: false,
                    is_hidden: false,
                    children: vec![],
                }],
            },
        ],
    };

    let root_path = "/base";
    let (nodes, root_idx) = flatten(root_raw, root_path);

    assert_eq!(root_idx, 0, "root always at index 0");
    assert_eq!(nodes.len(), 4, "root + file_a + sub + file_b");

    assert_eq!(nodes[0].name, "/base");
    assert!(nodes[0].is_dir);
    assert!(nodes[0].parent.is_none());

    for (i, node) in nodes.iter().enumerate() {
        if let Some(p) = node.parent {
            assert!(i as u32 > p, "node {i} has parent {p} but child idx must be > parent idx");
        }
    }

    for (i, node) in nodes.iter().enumerate().skip(1) {
        let parent_idx = node.parent.expect("non-root must have a parent") as usize;
        assert!(
            nodes[parent_idx].children.contains(&(i as u32)),
            "parent {parent_idx} must list child {i} in its children vec"
        );
    }

    let file_a = nodes.iter().find(|n| n.name == "file_a").unwrap();
    assert_eq!(file_a.size, 100);
    assert_eq!(file_a.mtime, 1000);

    let file_b = nodes.iter().find(|n| n.name == "file_b").unwrap();
    assert_eq!(file_b.size, 200);
    assert_eq!(file_b.mtime, 2000);
}

#[test]
fn flatten_is_preorder_left_to_right() {
    let root = RawNode {
        name: "ignored".into(),
        size: 0,
        mtime: 5,
        is_dir: true,
        is_hidden: false,
        children: vec![
            RawNode { name: "a".into(), size: 0, mtime: 0, is_dir: true, is_hidden: false, children: vec![leaf("a1", 1, 0), leaf("a2", 2, 0)] },
            leaf("b", 3, 0),
            RawNode { name: ".c".into(), size: 0, mtime: 0, is_dir: true, is_hidden: true, children: vec![leaf("c1", 4, 0)] },
        ],
    };
    let (nodes, root) = flatten(root, "/scan/here");
    let names: Vec<&str> = nodes.iter().map(|n| n.name.as_str()).collect();
    assert_eq!(names, vec!["/scan/here", "a", "a1", "a2", "b", ".c", "c1"]);
    let parents: Vec<Option<u32>> = nodes.iter().map(|n| n.parent).collect();
    assert_eq!(parents, vec![None, Some(0), Some(1), Some(1), Some(0), Some(0), Some(5)]);
    assert_eq!(nodes[0].children, vec![1, 4, 5]);
    assert_eq!(nodes[1].children, vec![2, 3]);
    assert_eq!(nodes[5].children, vec![6]);
    assert!(nodes[5].is_hidden);
    assert_eq!(nodes[0].mtime, 5);
    assert_eq!(root, 0);
    assert!(nodes.iter().all(|n| n.file_count == 0 && n.dir_count == 0));
}

#[test]
fn flatten_single_root() {
    let (nodes, root) = flatten(leaf("x", 7, 9), "/only");
    assert_eq!(nodes.len(), 1);
    assert_eq!(root, 0);
    assert_eq!(nodes[0].name, "/only");
    assert_eq!(nodes[0].size, 7);
    assert!(nodes[0].children.is_empty());
}

#[test]
fn flattened_walk_finishes_into_totals() {
    let root = RawNode {
        name: "r".into(),
        size: 0,
        mtime: 0,
        is_dir: true,
        is_hidden: false,
        children: vec![
            leaf("x.txt", 10, 0),
            RawNode { name: "d".into(), size: 0, mtime: 0, is_dir: true, is_hidden: false, children: vec![leaf("y.TXT", 30, 0), leaf("z", 5, 0)] },
        ],
    };
    let (nodes, root_idx) = flatten(root, "/top");
    assert!(numbers_fit(&nodes, 100));
    let tree = finalize(nodes, root_idx, "/top".to_string(), 100, 3);
    assert_eq!(tree.total_size, 45);
    assert_eq!(tree.total_files, 3);
    assert_eq!(tree.total_dirs, 1);
    let kids: Vec<&str> = tree.nodes[0].children.iter().map(|&c| tree.nodes[c as usize].name.as_str()).collect();
    assert_eq!(kids, vec!["d", "x.txt"]);
    let txt = tree.ext_names.iter().position(|e| e == "txt").unwrap() as u32;
    assert!(tree.dir_stats[&0].exts.contains(&(txt, 40)));
}

#[test]
fn entry_leaves_keep_size_only_when_first_counted() {
    let f = entry_leaf(EntryKind::NewFile, "a.txt".to_string(), 4096, 12);
    assert_eq!((f.size, f.mtime, f.is_dir, f.is_hidden), (4096, 12, false, false));
    assert!(f.children.is_empty());
    let linked = entry_leaf(EntryKind::SeenFile, ".b".to_string(), 4096, 3);
    assert_eq!((linked.size, linked.is_dir, linked.is_hidden), (0, false, true));
    let seen_dir = entry_leaf(EntryKind::SeenDir, "d".to_string(), 99, 1);
    assert_eq!((seen_dir.name.as_str(), seen_dir.size, seen_dir.is_dir), ("d", 0, true));
}

#[test]
fn hidden_names_start_with_a_dot() {
    assert!(is_hidden_name(".git"));
    assert!(is_hidden_name("."));
    assert!(!is_hidden_name("git"));
    assert!(!is_hidden_name(""));
    assert!(!is_hidden_name("a.b"));
}
