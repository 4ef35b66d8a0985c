//! The age histogram of a finished directory accounts for every file below
//! it: each file falls in exactly one bucket.

use vstd::prelude::*;

use super::age::spec_age_bucket;
use super::arena::{
    below_on, children_total, is_child, lemma_children_total_shrinks, lemma_totals_add, lemma_totals_monotone, lemma_totals_nonneg,
    nonneg_on, parents_of, parents_precede, tree_total, Node,
};
use super::finalize::lemma_file_childless;
use super::remove::{file_delta_exts, file_delta_hist, is_ancestor, lemma_ancestor_below, removal_stats, stats_reduced};
use super::tree::{
    age_days, arena_ready, bucket_w, dir_parents, dir_stats_match, file_w, finalized_from, node_aggregated, numbers_ready,
    stats_match, DirStats, ScanTree,
};

verus! {

/// Total of the first nine entries of a histogram.
pub open spec fn hist_total(h: Seq<u32>) -> int {
    h[0] + h[1] + h[2] + h[3] + h[4] + h[5] + h[6] + h[7] + h[8]
}

/// 1 for a file whose age bucket is below `m`.
pub open spec fn bucket_below_w(ns: Seq<Node>, now: int, m: int) -> spec_fn(int) -> int {
    |j: int| if !ns[j].is_dir && spec_age_bucket(age_days(now, ns[j].mtime as int)) < m { 1int } else { 0int }
}

/// Every node with a parent hangs off a directory of the arena.
pub open spec fn parents_are_dirs(ns: Seq<Node>) -> bool {
    forall|j: int| 0 <= j < ns.len() ==> ((#[trigger] ns[j]).parent matches Some(p) ==> (p as int) < ns.len() && ns[p as int].is_dir)
}

/// The zero weight totals to zero.
proof fn lemma_zero_weight(ps: Seq<Option<u32>>, z: spec_fn(int) -> int, k: int)
    requires
        forall|j: int| 0 <= j < ps.len() ==> #[trigger] z(j) == 0,
    ensures
        tree_total(ps, z, k) == 0,
{
    lemma_totals_add(ps, z, z, z, k);
}

/// Counting files below bucket `m` adds up the buckets below `m`.
proof fn lemma_buckets_below(ns: Seq<Node>, now: int, k: int, m: int)
    requires
        0 <= m <= 9,
    ensures
        tree_total(dir_parents(ns), bucket_below_w(ns, now, m), k)
            == (if m == 0 { 0 } else { tree_total(dir_parents(ns), bucket_below_w(ns, now, m - 1), k)
                + tree_total(dir_parents(ns), bucket_w(ns, now, m - 1), k) }),
{
    let dp = dir_parents(ns);
    if m == 0 {
        lemma_zero_weight(dp, bucket_below_w(ns, now, 0), k);
    } else {
        assert forall|j: int| 0 <= j < dp.len() implies #[trigger] bucket_below_w(ns, now, m)(j)
            == bucket_below_w(ns, now, m - 1)(j) + bucket_w(ns, now, m - 1)(j) by {}
        lemma_totals_add(dp, bucket_below_w(ns, now, m - 1), bucket_w(ns, now, m - 1), bucket_below_w(ns, now, m), k);
    }
}

/// In a finished scan whose parents are all directories, the age histogram
/// of a directory counts every file below it: its buckets add up to the
/// directory's file count.
pub proof fn law_histogram_counts_every_file(t: ScanTree, ns: Seq<Node>, root: int, now: i64, k: u32)
    requires
        arena_ready(ns, root),
        finalized_from(t, ns, root, now),
        parents_are_dirs(ns),
        (k as int) < ns.len(),
        ns[k as int].is_dir,
        t.nodes@[k as int].file_count <= u32::MAX,
    ensures
        t.dir_stats@.contains_key(k),
        hist_total(t.dir_stats@[k].age_hist@) == t.nodes@[k as int].file_count,
{
    let ki = k as int;
    let ps = parents_of(ns);
    let dp = dir_parents(ns);
    assert(dp =~= ps) by {
        assert forall|j: int| 0 <= j < ns.len() implies dp[j] == ps[j] by {
            assert(parents_are_dirs(ns));
            assert(ns[j].parent matches Some(p) ==> (p as int) < ns.len() && ns[p as int].is_dir);
        }
    }
    assert(stats_match(ns, now as int, t.ext_names@, t.dir_stats@));
    assert(t.dir_stats@.contains_key(k));
    let s = t.dir_stats@[k];
    assert(dir_stats_match(ns, now as int, t.ext_names@, ki, s));
    assert(node_aggregated(ns, t.nodes@, ki));
    let total = tree_total(ps, file_w(ns), ki);
    assert(total == t.nodes@[ki].file_count);
    lemma_buckets_below(ns, now as int, ki, 9);
    lemma_buckets_below(ns, now as int, ki, 8);
    lemma_buckets_below(ns, now as int, ki, 7);
    lemma_buckets_below(ns, now as int, ki, 6);
    lemma_buckets_below(ns, now as int, ki, 5);
    lemma_buckets_below(ns, now as int, ki, 4);
    lemma_buckets_below(ns, now as int, ki, 3);
    lemma_buckets_below(ns, now as int, ki, 2);
    lemma_buckets_below(ns, now as int, ki, 1);
    lemma_buckets_below(ns, now as int, ki, 0);
    assert forall|j: int| 0 <= j < ns.len() implies #[trigger] bucket_below_w(ns, now as int, 9)(j) == file_w(ns)(j) by {
        let b = spec_age_bucket(age_days(now as int, ns[j].mtime as int));
        assert(0 <= b < 9);
    }
    super::arena::lemma_totals_agree(ps, bucket_below_w(ns, now as int, 9), file_w(ns), ki);
    assert forall|b: int| 0 <= b < 9 implies #[trigger] s.age_hist@[b] == tree_total(dp, bucket_w(ns, now as int, b), ki) by {
        assert(s.age_hist@[b] == tree_total(dp, bucket_w(ns, now as int, b), ki) as u32);
        assert(below_on(bucket_w(ns, now as int, b), file_w(ns), ns.len() as int));
        assert(nonneg_on(bucket_w(ns, now as int, b), ns.len() as int));
        lemma_totals_monotone(dp, bucket_w(ns, now as int, b), file_w(ns), ki);
        lemma_totals_nonneg(dp, bucket_w(ns, now as int, b), ki);
    }
}


// ── Removal takes files off the histograms above them ───────────────────────

/// A child's total is part of its parent's total.
proof fn lemma_child_total_le_parent(ps: Seq<Option<u32>>, w: spec_fn(int) -> int, c: int, k: int)
    requires
        nonneg_on(w, ps.len() as int),
        parents_precede(ps),
        0 <= c < ps.len(),
        is_child(ps, c, k),
    ensures
        tree_total(ps, w, c) <= tree_total(ps, w, k),
{
    assert(ps[c] matches Some(p) && p < c);
    lemma_children_total_shrinks(ps, w, k, k + 1, c);
    lemma_totals_nonneg(ps, w, k);
    lemma_totals_nonneg(ps, w, c);
    assert(children_total(ps, w, k, c) == tree_total(ps, w, c) + children_total(ps, w, k, c + 1));
}

/// A node's total is part of every ancestor's.
proof fn lemma_ancestor_total_ge(ps: Seq<Option<u32>>, w: spec_fn(int) -> int, a: int, x: int)
    requires
        nonneg_on(w, ps.len() as int),
        parents_precede(ps),
        is_ancestor(ps, a, x),
    ensures
        tree_total(ps, w, x) <= tree_total(ps, w, a),
    decreases x,
{
    lemma_ancestor_below(ps, a, x);
    let p = ps[x]->0 as int;
    lemma_child_total_le_parent(ps, w, x, p);
    if p != a {
        lemma_ancestor_total_ge(ps, w, a, p);
    }
}

/// Ancestors are directories when every parent is one.
pub proof fn lemma_ancestor_is_dir(ns: Seq<Node>, a: int, x: int)
    requires
        parents_are_dirs(ns),
        is_ancestor(parents_of(ns), a, x),
    ensures
        0 <= a < ns.len(),
        ns[a].is_dir,
    decreases x,
{
    let ps = parents_of(ns);
    lemma_ancestor_below(ps, a, x);
    assert(ps[x] == ns[x].parent);
    let p = ps[x]->0 as int;
    if p != a {
        lemma_ancestor_is_dir(ns, a, p);
    }
}

/// In a finished scan whose parents are all directories, removing the
/// subtree at `idx` with the scan's own clock takes exactly the removed
/// files off the age histogram of every directory above it: each bucket
/// loses the files of that bucket below `idx` (never more than it held).
pub proof fn law_removal_takes_files_off_histograms(
    before: ScanTree,
    ns: Seq<Node>,
    root: int,
    after_stats: Map<u32, DirStats>,
    idx: int,
    a: u32,
)
    requires
        arena_ready(ns, root),
        numbers_ready(ns, before.scan_now_secs),
        finalized_from(before, ns, root, before.scan_now_secs),
        parents_are_dirs(ns),
        0 <= idx < ns.len(),
        removal_stats(before, idx, before.scan_now_secs, after_stats),
        is_ancestor(parents_of(ns), a as int, idx),
        before.nodes@[a as int].file_count <= u32::MAX,
    ensures
        after_stats.contains_key(a),
        forall|b: int| 0 <= b < 9 ==> #[trigger] after_stats[a].age_hist@[b]
            == tree_total(parents_of(ns), bucket_w(ns, before.scan_now_secs as int, b), a as int)
            - tree_total(parents_of(ns), bucket_w(ns, before.scan_now_secs as int, b), idx),
{
    let now = before.scan_now_secs;
    let ps = parents_of(ns);
    let dp = dir_parents(ns);
    let o = before.nodes@;
    let ai = a as int;
    assert(dp =~= ps) by {
        assert forall|j: int| 0 <= j < ns.len() implies dp[j] == ps[j] by {
            assert(ns[j].parent matches Some(p) ==> (p as int) < ns.len() && ns[p as int].is_dir);
        }
    }
    lemma_ancestor_is_dir(ns, ai, idx);
    lemma_ancestor_below(ps, ai, idx);
    assert(parents_of(o) =~= ps) by {
        assert forall|j: int| 0 <= j < o.len() implies parents_of(o)[j] == ps[j] by {
            assert(node_aggregated(ns, o, j));
        }
    }
    let m0 = before.dir_stats@;
    assert(stats_match(ns, now as int, before.ext_names@, m0));
    assert(m0.contains_key(a));
    assert(dir_stats_match(ns, now as int, before.ext_names@, ai, m0[a]));
    assert(node_aggregated(ns, o, ai));
    assert(node_aggregated(ns, o, idx));
    let x = o[idx];
    if x.is_dir {
        assert(m0.contains_key(idx as u32));
        assert(dir_stats_match(ns, now as int, before.ext_names@, idx, m0[idx as u32]));
    }
    let m1 = if x.is_dir { m0.remove(idx as u32) } else { m0 };
    let dh = if x.is_dir { m0[idx as u32].age_hist@ } else { file_delta_hist(x, now) };
    let dx = if x.is_dir { m0[idx as u32].exts@ } else { file_delta_exts(x, before.ext_names@) };
    assert(m0.contains_key(idx as u32) <==> ((idx as u32) as int) < ns.len() && ns[(idx as u32) as int].is_dir);
    assert(x.is_dir == ns[idx].is_dir);
    assert(!x.is_dir || m0.contains_key(idx as u32));
    assert(m1.contains_key(a));
    assert(m1[a] == m0[a]);
    assert(is_ancestor(parents_of(o), ai, idx));
    assert(removal_stats(before, idx, now, after_stats));
    assert(stats_reduced(m1[a], dh, dx, after_stats[a]));
    assert forall|b: int| 0 <= b < 9 implies #[trigger] after_stats[a].age_hist@[b]
        == tree_total(ps, bucket_w(ns, now as int, b), ai) - tree_total(ps, bucket_w(ns, now as int, b), idx) by {
        let w = bucket_w(ns, now as int, b);
        assert(nonneg_on(w, ns.len() as int));
        assert(below_on(w, file_w(ns), ns.len() as int));
        lemma_totals_monotone(ps, w, file_w(ns), ai);
        lemma_totals_nonneg(ps, w, idx);
        lemma_ancestor_total_ge(ps, w, ai, idx);
        let ta = tree_total(ps, w, ai);
        let tx = tree_total(ps, w, idx);
        assert(m0[a].age_hist@[b] == ta);
        if x.is_dir {
            assert(m0[idx as u32].age_hist@[b] == tx);
        } else {
            assert(!ns[idx].is_dir);
            lemma_file_childless(ns, w, idx, idx + 1);
            assert(file_delta_hist(x, now)[b] == tx);
        }
    }
}

} // verus!
