//! The scanned tree: the arena plus aggregate totals and precomputed
//! per-directory statistics, and what it means for them to be right.

use std::collections::HashMap;
use vstd::prelude::*;

use super::accum::ids_distinct;
use super::age::{spec_age_bucket, SECS_PER_DAY};
use super::arena::{is_child, parents_of, parents_precede, tree_total, Node};
use super::ext::ext_key;
use super::sort::sorted_by_weight_desc;

verus! {

/// Aggregated file-type and age data for one directory node.
pub struct DirStats {
    /// Age histogram: count of file descendants in each bucket.
    pub age_hist: [u32; 9],
    /// Extensions sorted descending by total size; ids index `ScanTree::ext_names`.
    pub exts: Vec<(u32, u64)>,
}

/// The scanned tree plus aggregate totals.
pub struct ScanTree {
    pub nodes: Vec<Node>,
    pub root: u32,
    /// The scanned path, as text.
    pub root_path: String,
    pub total_size: u64,
    pub total_files: u64,
    pub total_dirs: u64,
    pub scan_duration_ms: u64,
    /// Extension interner: ext id to lowercased extension (no dot).
    pub ext_names: Vec<String>,
    /// Precomputed subtree stats keyed by directory node index.
    pub dir_stats: HashMap<u32, DirStats>,
    /// The clock reading (unix seconds) that file ages were bucketed against.
    pub scan_now_secs: i64,
}

// ── Weights ──────────────────────────────────────────────────────────────────

/// A node's own size.
pub open spec fn size_w(ns: Seq<Node>) -> spec_fn(int) -> int {
    |j: int| ns[j].size as int
}

/// 1 for a file, 0 for a directory.
pub open spec fn file_w(ns: Seq<Node>) -> spec_fn(int) -> int {
    |j: int| if ns[j].is_dir { 0int } else { 1int }
}

/// 1 for a directory, 0 for a file.
pub open spec fn dir_w(ns: Seq<Node>) -> spec_fn(int) -> int {
    |j: int| if ns[j].is_dir { 1int } else { 0int }
}

/// Whole days between `mtime` and `now`, never negative.
pub open spec fn age_days(now: int, mtime: int) -> int {
    if now - mtime > 0 { (now - mtime) / (SECS_PER_DAY as int) } else { 0 }
}

/// 1 for a file whose age falls in bucket `b`.
pub open spec fn bucket_w(ns: Seq<Node>, now: int, b: int) -> spec_fn(int) -> int {
    |j: int| if !ns[j].is_dir && spec_age_bucket(age_days(now, ns[j].mtime as int)) == b { 1int } else { 0int }
}

/// 1 for a file whose extension key is `x`.
pub open spec fn ext_count_w(ns: Seq<Node>, x: Seq<char>) -> spec_fn(int) -> int {
    |j: int| if !ns[j].is_dir && ext_key(ns[j].name@) == x { 1int } else { 0int }
}

/// The size of a file whose extension key is `x`.
pub open spec fn ext_size_w(ns: Seq<Node>, x: Seq<char>) -> spec_fn(int) -> int {
    |j: int| if !ns[j].is_dir && ext_key(ns[j].name@) == x { ns[j].size as int } else { 0int }
}

/// The parent links along which statistics flow: only links to a directory.
pub open spec fn dir_parents(ns: Seq<Node>) -> Seq<Option<u32>> {
    Seq::new(
        ns.len(),
        |j: int|
            match ns[j].parent {
                Some(p) => if (p as int) < ns.len() && ns[p as int].is_dir { Some(p) } else { None },
                None => None,
            },
    )
}

// ── Shape of an arena ────────────────────────────────────────────────────────

/// The children list of `k` holds valid, distinct indices.
pub open spec fn children_listed_once(ns: Seq<Node>, k: int) -> bool {
    let cs = ns[k].children@;
    &&& forall|a: int, b: int| 0 <= a < b < cs.len() ==> cs[a] != cs[b]
    &&& forall|t: int| 0 <= t < cs.len() ==> (#[trigger] cs[t] as int) < ns.len()
}

/// Children lists are exactly the nodes that name each node as parent.
pub open spec fn children_exact(ns: Seq<Node>) -> bool {
    &&& forall|k: int| 0 <= k < ns.len() ==> #[trigger] children_listed_once(ns, k)
    &&& forall|k: int, c: int| 0 <= k < ns.len() && 0 <= c < ns.len() ==>
        (#[trigger] ns[k].children@.contains(c as u32) <==> is_child(parents_of(ns), c, k))
}

/// The shape an arena has when it comes out of a walk: indices fit in `u32`,
/// parents precede children, children lists match the parent links, the root
/// has no parent and nothing is aggregated yet.
pub open spec fn arena_ready(ns: Seq<Node>, root: int) -> bool {
    &&& ns.len() <= u32::MAX
    &&& 0 <= root < ns.len()
    &&& ns[root].parent is None
    &&& parents_precede(parents_of(ns))
    &&& children_exact(ns)
    &&& forall|k: int| 0 <= k < ns.len() ==> (#[trigger] ns[k]).file_count == 0 && ns[k].dir_count == 0
}

/// Every total fits in a `u64` and every file age can be computed in an `i64`.
pub open spec fn numbers_ready(ns: Seq<Node>, now: i64) -> bool {
    &&& forall|k: int| 0 <= k < ns.len() ==> #[trigger] tree_total(parents_of(ns), size_w(ns), k) <= u64::MAX
    &&& forall|k: int| 0 <= k < ns.len() ==> #[trigger] tree_total(parents_of(ns), file_w(ns), k) <= u64::MAX
    &&& forall|k: int| 0 <= k < ns.len() ==> #[trigger] tree_total(parents_of(ns), dir_w(ns), k) <= u64::MAX
    &&& forall|j: int| 0 <= j < ns.len() && !(#[trigger] ns[j]).is_dir ==>
        i64::MIN <= now - ns[j].mtime <= i64::MAX
}

// ── What the finished tree holds ─────────────────────────────────────────────

/// Node `k` of `out` is node `k` of `ns` with its subtree totals filled in and
/// its children ordered largest first.
pub open spec fn node_aggregated(ns: Seq<Node>, out: Seq<Node>, k: int) -> bool {
    let ps = parents_of(ns);
    &&& out[k].name == ns[k].name
    &&& out[k].is_dir == ns[k].is_dir
    &&& out[k].is_hidden == ns[k].is_hidden
    &&& out[k].mtime == ns[k].mtime
    &&& out[k].parent == ns[k].parent
    &&& out[k].size == tree_total(ps, size_w(ns), k)
    &&& out[k].file_count == tree_total(ps, file_w(ns), k) - file_w(ns)(k)
    &&& out[k].dir_count == tree_total(ps, dir_w(ns), k) - dir_w(ns)(k)
    &&& out[k].children@.to_multiset() == ns[k].children@.to_multiset()
    &&& forall|a: int, b: int| 0 <= a < b < out[k].children@.len() ==>
        out[out[k].children@[a] as int].size >= out[out[k].children@[b] as int].size
}

/// Some file of the arena has extension key `x`.
pub open spec fn ext_is_used(ns: Seq<Node>, x: Seq<char>) -> bool {
    exists|j: int| 0 <= j < ns.len() && !ns[j].is_dir && #[trigger] ext_key(ns[j].name@) == x
}

/// Some interned name reads `x`.
pub open spec fn ext_is_named(names: Seq<String>, x: Seq<char>) -> bool {
    exists|e: int| 0 <= e < names.len() && (#[trigger] names[e])@ == x
}

/// The interned extensions are distinct and are exactly the extension keys
/// of the files.
pub open spec fn ext_names_match(ns: Seq<Node>, names: Seq<String>) -> bool {
    &&& forall|a: int, b: int| 0 <= a < b < names.len() ==> names[a]@ != names[b]@
    &&& forall|e: int| 0 <= e < names.len() ==> #[trigger] ext_is_used(ns, names[e]@)
    &&& forall|j: int| 0 <= j < ns.len() && !ns[j].is_dir ==> #[trigger] ext_is_named(names, ext_key(ns[j].name@))
}

/// The statistics of directory `k`: its age histogram counts the files below
/// it per bucket, and its extension list holds, largest first, each extension
/// found below it with the summed size of those files.
pub open spec fn dir_stats_match(ns: Seq<Node>, now: int, names: Seq<String>, k: int, s: DirStats) -> bool {
    let dp = dir_parents(ns);
    &&& forall|b: int| 0 <= b < 9 ==> s.age_hist@[b] == #[trigger] tree_total(dp, bucket_w(ns, now, b), k) as u32
    &&& ids_distinct(s.exts@)
    &&& sorted_by_weight_desc(s.exts@)
    &&& forall|t: int| 0 <= t < s.exts@.len() ==> (#[trigger] s.exts@[t]).0 < names.len()
    &&& forall|t: int| 0 <= t < s.exts@.len() ==> (#[trigger] s.exts@[t]).1
        == tree_total(dp, ext_size_w(ns, names[s.exts@[t].0 as int]@), k)
    &&& forall|e: int| 0 <= e < names.len() ==> ((exists|t: int| 0 <= t < s.exts@.len() && (#[trigger] s.exts@[t]).0 == e)
        <==> tree_total(dp, ext_count_w(ns, names[e]@), k) > 0)
}

/// Exactly the directories have statistics, and each matches its subtree.
pub open spec fn stats_match(ns: Seq<Node>, now: int, names: Seq<String>, stats: Map<u32, DirStats>) -> bool {
    &&& forall|k: u32| #[trigger] stats.contains_key(k) <==> ((k as int) < ns.len() && ns[k as int].is_dir)
    &&& forall|k: u32| #[trigger] stats.contains_key(k) ==> dir_stats_match(ns, now, names, k as int, stats[k])
}

/// What a finished scan holds, relative to the arena `ns` it was built from.
pub open spec fn finalized_from(t: ScanTree, ns: Seq<Node>, root: int, now: i64) -> bool {
    &&& t.nodes@.len() == ns.len()
    &&& t.root == root
    &&& t.scan_now_secs == now
    &&& forall|k: int| 0 <= k < ns.len() ==> #[trigger] node_aggregated(ns, t.nodes@, k)
    &&& t.total_size == t.nodes@[root].size
    &&& t.total_files == t.nodes@[root].file_count
    &&& t.total_dirs == t.nodes@[root].dir_count
    &&& t.ext_names@.len() <= ns.len()
    &&& ext_names_match(ns, t.ext_names@)
    &&& stats_match(ns, now as int, t.ext_names@, t.dir_stats@)
}

} // verus!
