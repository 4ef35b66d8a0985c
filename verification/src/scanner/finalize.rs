//! Turning a freshly walked arena into a finished `ScanTree`: bottom-up size
//! and count aggregation, extension interning, per-directory age and
//! file-type statistics, and largest-first ordering of children.

use rayon::iter::{IntoParallelRefMutIterator, ParallelIterator};
use std::collections::HashMap;
use vstd::prelude::*;

use super::accum::{has_id, ids_distinct, value_of, ExtAccum};
use super::age::{age_bucket, spec_age_bucket, SECS_PER_DAY};
use super::arena::{
    aggregate_totals, agree_on, below_on, children_total, is_child, lemma_childless,
    lemma_children_total_shrinks, lemma_fewer_links, lemma_totals_agree, lemma_totals_monotone,
    lemma_totals_nonneg, lemma_zero_total_transfers, links_within, nonneg_on, parents_of,
    parents_precede, totals_fit, tree_total, vec_weight, Node,
};
use super::ext::{ext_key, extension_of};
use super::sort::{
    indices_sorted_desc, sort_by_weight_desc, sort_indices_by_weight_desc, sorted_by_weight_desc,
};
use super::tree::{
    age_days, arena_ready, bucket_w, children_exact, dir_parents, dir_stats_match, dir_w,
    ext_count_w, ext_names_match, ext_size_w, file_w, finalized_from, node_aggregated,
    numbers_ready, size_w, stats_match, DirStats, ScanTree,
};

verus! {

/// The parent links of the arena, as a vector.
pub fn collect_parents(nodes: &Vec<Node>) -> (r: Vec<Option<u32>>)
    ensures
        r@ == parents_of(nodes@),
{
    let mut r: Vec<Option<u32>> = Vec::new();
    let mut i: usize = 0;
    while i < nodes.len()
        invariant
            i <= nodes.len(),
            r@.len() == i,
            forall|j: int| 0 <= j < i ==> #[trigger] r@[j] == nodes@[j].parent,
        decreases nodes.len() - i,
    {
        r.push(nodes[i].parent);
        i = i + 1;
    }
    assert(r@ =~= parents_of(nodes@));
    r
}

/// The links to directory parents only, as a vector.
pub fn collect_dir_parents(nodes: &Vec<Node>) -> (r: Vec<Option<u32>>)
    ensures
        r@ == dir_parents(nodes@),
{
    let n = nodes.len();
    let mut r: Vec<Option<u32>> = Vec::new();
    let mut i: usize = 0;
    while i < n
        invariant
            n == nodes.len(),
            i <= n,
            r@.len() == i,
            forall|j: int| 0 <= j < i ==> #[trigger] r@[j] == dir_parents(nodes@)[j],
        decreases n - i,
    {
        let link = match nodes[i].parent {
            Some(p) => {
                if (p as usize) < n && nodes[p as usize].is_dir {
                    Some(p)
                } else {
                    None
                }
            },
            None => None,
        };
        r.push(link);
        i = i + 1;
    }
    assert(r@ =~= dir_parents(nodes@));
    r
}

/// Links to directory parents are among all parent links.
pub proof fn lemma_dir_links_within(ns: Seq<Node>)
    ensures
        links_within(dir_parents(ns), parents_of(ns)),
        parents_precede(parents_of(ns)) ==> parents_precede(dir_parents(ns)),
{
    if parents_precede(parents_of(ns)) {
        assert forall|j: int| 0 <= j < dir_parents(ns).len() implies (#[trigger] dir_parents(ns)[j] matches Some(p) ==> p < j) by {
            assert(parents_of(ns)[j] == ns[j].parent);
        }
    }
}

/// A file has no children along directory links.
pub proof fn lemma_file_childless(ns: Seq<Node>, w: spec_fn(int) -> int, k: int, from: int)
    requires
        0 <= k < ns.len(),
        !ns[k].is_dir,
    ensures
        children_total(dir_parents(ns), w, k, from) == 0,
{
    let dp = dir_parents(ns);
    assert forall|c: int| 0 <= c < dp.len() implies !is_child(dp, c, k) by {
        if is_child(dp, c, k) {
            assert(ns[c].parent matches Some(p) && p as int == k);
        }
    }
    lemma_childless(dp, w, k, from);
}

pub enum NodeWeight {
    Size,
    File,
    Dir,
}

/// One weight per node: its size, whether it is a file, or whether it is a directory.
pub fn collect_weights(nodes: &Vec<Node>, which: NodeWeight) -> (r: Vec<u64>)
    ensures
        r@.len() == nodes@.len(),
        agree_on(
            vec_weight(r@),
            match which {
                NodeWeight::Size => size_w(nodes@),
                NodeWeight::File => file_w(nodes@),
                NodeWeight::Dir => dir_w(nodes@),
            },
            nodes@.len() as int,
        ),
{
    let mut r: Vec<u64> = Vec::new();
    let mut i: usize = 0;
    while i < nodes.len()
        invariant
            i <= nodes.len(),
            r@.len() == i,
            forall|j: int| 0 <= j < i ==> #[trigger] r@[j] as int == (match which {
                NodeWeight::Size => size_w(nodes@),
                NodeWeight::File => file_w(nodes@),
                NodeWeight::Dir => dir_w(nodes@),
            })(j),
        decreases nodes.len() - i,
    {
        let x: u64 = match which {
            NodeWeight::Size => nodes[i].size,
            NodeWeight::File => if nodes[i].is_dir { 0 } else { 1 },
            NodeWeight::Dir => if nodes[i].is_dir { 1 } else { 0 },
        };
        r.push(x);
        i = i + 1;
    }
    r
}

/// Subtree totals of one of the node weights; they fit by assumption.
fn node_totals(parents: &Vec<Option<u32>>, nodes: &Vec<Node>, which: NodeWeight) -> (r: Vec<u64>)
    requires
        parents@ == parents_of(nodes@),
        parents_precede(parents@),
        totals_fit(parents@, match which {
            NodeWeight::Size => size_w(nodes@),
            NodeWeight::File => file_w(nodes@),
            NodeWeight::Dir => dir_w(nodes@),
        }),
    ensures
        r@.len() == nodes@.len(),
        forall|k: int| 0 <= k < r@.len() ==> #[trigger] r@[k] == tree_total(parents@, match which {
            NodeWeight::Size => size_w(nodes@),
            NodeWeight::File => file_w(nodes@),
            NodeWeight::Dir => dir_w(nodes@),
        }, k),
{
    let ghost w = match which {
        NodeWeight::Size => size_w(nodes@),
        NodeWeight::File => file_w(nodes@),
        NodeWeight::Dir => dir_w(nodes@),
    };
    let weights = collect_weights(nodes, which);
    assert forall|k: int| 0 <= k < parents@.len() implies #[trigger] tree_total(parents@, vec_weight(weights@), k) <= u64::MAX by {
        lemma_totals_agree(parents@, vec_weight(weights@), w, k);
    }
    let r = aggregate_totals(parents, &weights).unwrap();
    assert forall|k: int| 0 <= k < r@.len() implies #[trigger] r@[k] == tree_total(parents@, w, k) by {
        lemma_totals_agree(parents@, vec_weight(weights@), w, k);
    }
    r
}

/// Some file at index `from` or later has extension id `e`.
pub open spec fn id_used(ns: Seq<Node>, eids: Seq<u32>, e: int, from: int) -> bool {
    exists|j: int| from <= j < ns.len() && !ns[j].is_dir && #[trigger] eids[j] as int == e
}

/// Position of a name with the same text, if any.
fn find_name(names: &Vec<String>, x: &String) -> (r: Option<usize>)
    ensures
        r matches Some(i) ==> i < names.len() && names@[i as int]@ == x@,
        r is None ==> forall|i: int| 0 <= i < names.len() ==> (#[trigger] names@[i])@ != x@,
{
    let mut i: usize = 0;
    while i < names.len()
        invariant
            i <= names.len(),
            forall|t: int| 0 <= t < i ==> (#[trigger] names@[t])@ != x@,
        decreases names.len() - i,
    {
        if names[i] == *x {
            return Some(i);
        }
        i = i + 1;
    }
    None
}

/// Ids of the files' extension keys, and the interned keys.  Ids are handed
/// out in the order keys are first met walking the arena from its end; a
/// text-keyed cache serves repeated keys, and every cache answer is checked
/// against the interned text before it is used.
pub fn intern_extensions(nodes: &Vec<Node>) -> (r: (Vec<u32>, Vec<String>))
    requires
        nodes.len() <= u32::MAX,
    ensures
        r.0@.len() == nodes@.len(),
        r.1@.len() <= nodes@.len(),
        forall|a: int, b: int| 0 <= a < b < r.1@.len() ==> r.1@[a]@ != r.1@[b]@,
        forall|j: int| 0 <= j < nodes@.len() && !(#[trigger] nodes@[j]).is_dir ==>
            (r.0@[j] as int) < r.1@.len() && r.1@[r.0@[j] as int]@ == ext_key(nodes@[j].name@),
        forall|e: int| 0 <= e < r.1@.len() ==> #[trigger] id_used(nodes@, r.0@, e, 0),
{
    let n = nodes.len();
    let mut eids: Vec<u32> = vec![0u32; n];
    let mut names: Vec<String> = Vec::new();
    let mut cache: HashMap<String, u32> = HashMap::new();
    let mut i: usize = n;
    while i > 0
        invariant
            n == nodes.len(),
            n <= u32::MAX,
            i <= n,
            eids@.len() == n,
            names@.len() <= n - i,
            forall|a: int, b: int| 0 <= a < b < names@.len() ==> names@[a]@ != names@[b]@,
            forall|j: int| i <= j < n && !(#[trigger] nodes@[j]).is_dir ==>
                (eids@[j] as int) < names@.len() && names@[eids@[j] as int]@ == ext_key(nodes@[j].name@),
            forall|e: int| 0 <= e < names@.len() ==> #[trigger] id_used(nodes@, eids@, e, i as int),
        decreases i,
    {
        let j = i - 1;
        if !nodes[j].is_dir {
            let x = extension_of(nodes[j].name.as_str());
            let cached: Option<u32> = match cache.get(&x) {
                Some(id) => {
                    let id = *id;
                    if (id as usize) < names.len() && names[id as usize] == x {
                        Some(id)
                    } else {
                        None
                    }
                },
                None => None,
            };
            let id: u32 = match cached {
                Some(id) => id,
                None => {
                    match find_name(&names, &x) {
                        Some(k) => k as u32,
                        None => {
                            let id = names.len() as u32;
                            let ghost before = names@;
                            names.push(x.clone());
                            cache.insert(x, id);
                            proof {
                                assert forall|a: int, b: int| 0 <= a < b < names@.len() implies names@[a]@ != names@[b]@ by {
                                    if b == names@.len() - 1 {
                                        assert(names@[a] == before[a]);
                                    } else {
                                        assert(names@[a] == before[a]);
                                        assert(names@[b] == before[b]);
                                    }
                                }
                            }
                            id
                        },
                    }
                },
            };
            let ghost old_eids = eids@;
            eids.set(j, id);
            proof {
                assert forall|e: int| 0 <= e < names@.len() implies #[trigger] id_used(nodes@, eids@, e, j as int) by {
                    if e == id as int {
                        assert(eids@[j as int] as int == e);
                    } else {
                        assert(id_used(nodes@, old_eids, e, i as int));
                        let t = choose|t: int| i <= t < nodes@.len() && !nodes@[t].is_dir && #[trigger] old_eids[t] as int == e;
                        assert(eids@[t] == old_eids[t]);
                    }
                }
                assert forall|t: int| j <= t < n && !(#[trigger] nodes@[t]).is_dir implies
                    (eids@[t] as int) < names@.len() && names@[eids@[t] as int]@ == ext_key(nodes@[t].name@) by {
                    if t != j {
                        assert(eids@[t] == old_eids[t]);
                    }
                }
            }
        } else {
            proof {
                assert forall|e: int| 0 <= e < names@.len() implies #[trigger] id_used(nodes@, eids@, e, j as int) by {
                    assert(id_used(nodes@, eids@, e, i as int));
                }
            }
        }
        i = j;
    }
    (eids, names)
}

/// The age bucket of every file (0 for directories).
fn file_buckets(nodes: &Vec<Node>, now: i64) -> (r: Vec<usize>)
    requires
        forall|j: int| 0 <= j < nodes@.len() && !(#[trigger] nodes@[j]).is_dir ==>
            i64::MIN <= now - nodes@[j].mtime <= i64::MAX,
    ensures
        r@.len() == nodes@.len(),
        forall|j: int| 0 <= j < r@.len() ==> #[trigger] r@[j] < 9,
        forall|j: int| 0 <= j < r@.len() && !nodes@[j].is_dir ==>
            #[trigger] r@[j] as int == spec_age_bucket(age_days(now as int, nodes@[j].mtime as int)),
{
    let mut r: Vec<usize> = Vec::new();
    let mut i: usize = 0;
    while i < nodes.len()
        invariant
            i <= nodes.len(),
            r@.len() == i,
            forall|j: int| 0 <= j < nodes@.len() && !(#[trigger] nodes@[j]).is_dir ==>
                i64::MIN <= now - nodes@[j].mtime <= i64::MAX,
            forall|j: int| 0 <= j < i ==> #[trigger] r@[j] < 9,
            forall|j: int| 0 <= j < i && !nodes@[j].is_dir ==>
                #[trigger] r@[j] as int == spec_age_bucket(age_days(now as int, nodes@[j].mtime as int)),
        decreases nodes.len() - i,
    {
        if nodes[i].is_dir {
            r.push(0);
        } else {
            let delta: i64 = now - nodes[i].mtime;
            let days: i64 = if delta > 0 { delta / SECS_PER_DAY } else { 0 };
            assert(days == age_days(now as int, nodes@[i as int].mtime as int));
            r.push(age_bucket(days));
        }
        i = i + 1;
    }
    r
}

/// For each age bucket, the number of files of that bucket below every node
/// (following directory links).
fn age_histograms(dparents: &Vec<Option<u32>>, nodes: &Vec<Node>, buckets: &Vec<usize>, now: i64) -> (r: Vec<Vec<u64>>)
    requires
        dparents@ == dir_parents(nodes@),
        parents_precede(parents_of(nodes@)),
        buckets@.len() == nodes@.len(),
        forall|j: int| 0 <= j < buckets@.len() && !nodes@[j].is_dir ==>
            #[trigger] buckets@[j] as int == spec_age_bucket(age_days(now as int, nodes@[j].mtime as int)),
        forall|k: int| 0 <= k < nodes@.len() ==> #[trigger] tree_total(parents_of(nodes@), file_w(nodes@), k) <= u64::MAX,
    ensures
        r@.len() == 9,
        forall|b: int| 0 <= b < 9 ==> (#[trigger] r@[b])@.len() == nodes@.len(),
        forall|b: int, k: int| 0 <= b < 9 && 0 <= k < nodes@.len() ==>
            #[trigger] r@[b]@[k] == tree_total(dir_parents(nodes@), bucket_w(nodes@, now as int, b), k),
{
    let ghost ns = nodes@;
    let ghost dp = dir_parents(ns);
    let ghost ps = parents_of(ns);
    proof {
        lemma_dir_links_within(ns);
    }
    let n = nodes.len();
    let mut r: Vec<Vec<u64>> = Vec::new();
    let mut b: usize = 0;
    while b < 9
        invariant
            n == nodes.len(),
            ns == nodes@,
            dparents@ == dp,
            dp == dir_parents(ns),
            ps == parents_of(ns),
            links_within(dp, ps),
            parents_precede(dp),
            buckets@.len() == n,
            forall|j: int| 0 <= j < buckets@.len() && !nodes@[j].is_dir ==>
                #[trigger] buckets@[j] as int == spec_age_bucket(age_days(now as int, nodes@[j].mtime as int)),
            forall|k: int| 0 <= k < n ==> #[trigger] tree_total(ps, file_w(ns), k) <= u64::MAX,
            b <= 9,
            r@.len() == b,
            forall|c: int| 0 <= c < b ==> (#[trigger] r@[c])@.len() == n,
            forall|c: int, k: int| 0 <= c < b && 0 <= k < n ==>
                #[trigger] r@[c]@[k] == tree_total(dp, bucket_w(ns, now as int, c), k),
        decreases 9 - b,
    {
        let ghost bw = bucket_w(ns, now as int, b as int);
        let mut w: Vec<u64> = Vec::new();
        let mut j: usize = 0;
        while j < n
            invariant
                n == nodes.len(),
                ns == nodes@,
                bw == bucket_w(ns, now as int, b as int),
                buckets@.len() == n,
                forall|t: int| 0 <= t < buckets@.len() && !nodes@[t].is_dir ==>
                    #[trigger] buckets@[t] as int == spec_age_bucket(age_days(now as int, nodes@[t].mtime as int)),
                j <= n,
                w@.len() == j,
                forall|t: int| 0 <= t < j ==> #[trigger] w@[t] as int == bw(t),
            decreases n - j,
        {
            let x: u64 = if !nodes[j].is_dir && buckets[j] == b { 1 } else { 0 };
            w.push(x);
            j = j + 1;
        }
        assert(agree_on(vec_weight(w@), bw, n as int));
        assert(below_on(bw, file_w(ns), n as int));
        assert(nonneg_on(file_w(ns), n as int));
        assert forall|k: int| 0 <= k < n implies #[trigger] tree_total(dp, vec_weight(w@), k) <= u64::MAX by {
            lemma_totals_agree(dp, vec_weight(w@), bw, k);
            lemma_totals_monotone(dp, bw, file_w(ns), k);
            lemma_fewer_links(dp, ps, file_w(ns), k);
        }
        let t = aggregate_totals(dparents, &w).unwrap();
        assert forall|k: int| 0 <= k < n implies #[trigger] t@[k] == tree_total(dp, bw, k) by {
            lemma_totals_agree(dp, vec_weight(w@), bw, k);
        }
        r.push(t);
        b = b + 1;
    }
    r
}

// ── File-type totals per directory ───────────────────────────────────────────

/// 1 for a file whose extension id is `e`.
pub open spec fn id_count_w(ns: Seq<Node>, eids: Seq<u32>, e: u32) -> spec_fn(int) -> int {
    |j: int| if !ns[j].is_dir && eids[j] == e { 1int } else { 0int }
}

/// The size of a file whose extension id is `e`.
pub open spec fn id_size_w(ns: Seq<Node>, eids: Seq<u32>, e: u32) -> spec_fn(int) -> int {
    |j: int| if !ns[j].is_dir && eids[j] == e { ns[j].size as int } else { 0int }
}

/// First child index still to be folded into `k` once every node from `i` on is done.
pub open spec fn lo(i: int, k: int) -> int {
    if i > k + 1 { i } else { k + 1 }
}

/// Accumulator `k` holds, per extension id, the totals of the children of
/// `k` with index at least `lo(i, k)`.
pub open spec fn accum_ok(acc: Seq<ExtAccum>, ns: Seq<Node>, eids: Seq<u32>, nnames: int, i: int) -> bool {
    let dp = dir_parents(ns);
    &&& forall|k: int| 0 <= k < acc.len() ==> (#[trigger] acc[k]).wf()
    &&& forall|k: int, e: u32| 0 <= k < acc.len() ==>
        (#[trigger] acc[k].sums@.contains_key(e) <==> children_total(dp, id_count_w(ns, eids, e), k, lo(i, k)) > 0)
    &&& forall|k: int, e: u32| 0 <= k < acc.len() && #[trigger] acc[k].sums@.contains_key(e) ==>
        acc[k].sums@[e] as int == children_total(dp, id_size_w(ns, eids, e), k, lo(i, k)) && (e as int) < nnames
}

/// `f` lists, per extension id, the totals of the subtree of `j`.
pub open spec fn pairs_ok(f: Seq<(u32, u64)>, ns: Seq<Node>, eids: Seq<u32>, nnames: int, j: int) -> bool {
    let dp = dir_parents(ns);
    &&& ids_distinct(f)
    &&& forall|t: int| 0 <= t < f.len() ==> ((#[trigger] f[t]).0 as int) < nnames
    &&& forall|e: u32| #[trigger] has_id(f, e) <==> tree_total(dp, id_count_w(ns, eids, e), j) > 0
    &&& forall|e: u32| #[trigger] has_id(f, e) ==> value_of(f, e) == tree_total(dp, id_size_w(ns, eids, e), j)
}

/// The extension list of directory `k`, by id: distinct ids, largest first,
/// each with the summed size of its files below `k`, and exactly the ids
/// found below `k`.
pub open spec fn exts_by_id(ns: Seq<Node>, eids: Seq<u32>, nnames: int, k: int, s: Seq<(u32, u64)>) -> bool {
    let dp = dir_parents(ns);
    &&& ids_distinct(s)
    &&& sorted_by_weight_desc(s)
    &&& forall|t: int| 0 <= t < s.len() ==> ((#[trigger] s[t]).0 as int) < nnames
    &&& forall|t: int| 0 <= t < s.len() ==> (#[trigger] s[t]).1 == tree_total(dp, id_size_w(ns, eids, s[t].0), k)
    &&& forall|e: u32| #[trigger] has_id(s, e) <==> tree_total(dp, id_count_w(ns, eids, e), k) > 0
}

proof fn lemma_id_weights(ns: Seq<Node>, eids: Seq<u32>, e: u32)
    ensures
        nonneg_on(id_count_w(ns, eids, e), ns.len() as int),
        nonneg_on(id_size_w(ns, eids, e), ns.len() as int),
        below_on(id_size_w(ns, eids, e), size_w(ns), ns.len() as int),
        forall|j: int| 0 <= j < ns.len() && #[trigger] id_count_w(ns, eids, e)(j) == 0 ==> id_size_w(ns, eids, e)(j) == 0,
{
}

/// Reordering a list with distinct ids keeps which ids it has and their values.
proof fn lemma_permuted_pairs(f: Seq<(u32, u64)>, g: Seq<(u32, u64)>)
    requires
        f.to_multiset() == g.to_multiset(),
        ids_distinct(f),
        ids_distinct(g),
    ensures
        forall|e: u32| #[trigger] has_id(g, e) == has_id(f, e),
        forall|e: u32| #[trigger] value_of(g, e) == value_of(f, e),
        forall|t: int| 0 <= t < g.len() ==> f.contains(#[trigger] g[t]),
{
    broadcast use vstd::seq_lib::group_to_multiset_ensures;
    assert forall|t: int| 0 <= t < g.len() implies f.contains(#[trigger] g[t]) by {
        assert(g.contains(g[t]));
        assert(g.to_multiset().count(g[t]) > 0);
    }
    assert forall|e: u32| #[trigger] has_id(g, e) == has_id(f, e) && value_of(g, e) == value_of(f, e) by {
        if has_id(g, e) {
            let t = choose|t: int| 0 <= t < g.len() && (#[trigger] g[t]).0 == e;
            assert(g.contains(g[t]));
            assert(g.to_multiset().count(g[t]) > 0);
            assert(f.contains(g[t]));
            let u = choose|u: int| 0 <= u < f.len() && f[u] == g[t];
            super::accum::lemma_value_of_at(f, u);
            super::accum::lemma_value_of_at(g, t);
        }
        if has_id(f, e) {
            let u = choose|u: int| 0 <= u < f.len() && (#[trigger] f[u]).0 == e;
            assert(f.contains(f[u]));
            assert(f.to_multiset().count(f[u]) > 0);
            assert(g.contains(f[u]));
        }
    }
}

/// One step of the reverse pass keeps the accumulators right: node `j`'s
/// totals `f` are added into its directory parent, if any.
proof fn lemma_accum_step(
    old_acc: Seq<ExtAccum>,
    new_acc: Seq<ExtAccum>,
    f: Seq<(u32, u64)>,
    ns: Seq<Node>,
    eids: Seq<u32>,
    nnames: int,
    j: int,
)
    requires
        parents_precede(parents_of(ns)),
        0 <= j < ns.len(),
        old_acc.len() == ns.len(),
        new_acc.len() == ns.len(),
        accum_ok(old_acc, ns, eids, nnames, j + 1),
        pairs_ok(f, ns, eids, nnames, j),
        dir_parents(ns)[j] is None ==> new_acc == old_acc,
        dir_parents(ns)[j] matches Some(p) ==> {
            &&& forall|k: int| 0 <= k < new_acc.len() && k != p ==> new_acc[k] == old_acc[k]
            &&& new_acc[p as int].wf()
            &&& forall|e: u32| #[trigger] new_acc[p as int].sums@.contains_key(e)
                <==> (old_acc[p as int].sums@.contains_key(e) || has_id(f, e))
            &&& forall|e: u32| #[trigger] new_acc[p as int].sums@.contains_key(e) ==> new_acc[p as int].sums@[e] as int
                == (if old_acc[p as int].sums@.contains_key(e) { old_acc[p as int].sums@[e] as int } else { 0 }) + value_of(f, e)
        },
    ensures
        accum_ok(new_acc, ns, eids, nnames, j),
{
    let dp = dir_parents(ns);
    lemma_dir_links_within(ns);
    assert forall|k: int| 0 <= k < new_acc.len() implies (#[trigger] new_acc[k]).wf() by {
        if dp[j] is Some {
            let p = dp[j]->0;
            if k != p {
                assert(new_acc[k] == old_acc[k]);
            }
        }
    }
    assert forall|k: int, e: u32| 0 <= k < new_acc.len() implies
        (#[trigger] new_acc[k].sums@.contains_key(e) <==> children_total(dp, id_count_w(ns, eids, e), k, lo(j, k)) > 0)
        && (new_acc[k].sums@.contains_key(e) ==> new_acc[k].sums@[e] as int
            == children_total(dp, id_size_w(ns, eids, e), k, lo(j, k)) && (e as int) < nnames) by {
        let cw = id_count_w(ns, eids, e);
        let sw = id_size_w(ns, eids, e);
        lemma_id_weights(ns, eids, e);
        let is_parent = dp[j] is Some && k == dp[j]->0 as int;
        assert(old_acc[k].sums@.contains_key(e) <==> children_total(dp, cw, k, lo(j + 1, k)) > 0);
        assert(old_acc[k].sums@.contains_key(e) ==> old_acc[k].sums@[e] as int
            == children_total(dp, sw, k, lo(j + 1, k)) && (e as int) < nnames);
        if !is_parent {
            if dp[j] is Some {
                assert(new_acc[k] == old_acc[k]);
            }
            if k < j {
                assert(lo(j, k) == j);
                assert(lo(j + 1, k) == j + 1);
                assert(!is_child(dp, j, k));
                assert(children_total(dp, cw, k, j) == children_total(dp, cw, k, j + 1));
                assert(children_total(dp, sw, k, j) == children_total(dp, sw, k, j + 1));
            }
        } else {
            let p = dp[j]->0 as int;
            assert(p < j);
            assert(is_child(dp, j, p));
            assert(lo(j, p) == j);
            assert(lo(j + 1, p) == j + 1);
            assert(children_total(dp, cw, p, j) == tree_total(dp, cw, j) + children_total(dp, cw, p, j + 1));
            assert(children_total(dp, sw, p, j) == tree_total(dp, sw, j) + children_total(dp, sw, p, j + 1));
            lemma_totals_nonneg(dp, cw, j);
            lemma_totals_nonneg(dp, cw, p);
            lemma_zero_total_transfers(dp, cw, sw, j);
            lemma_zero_total_transfers(dp, cw, sw, p);
            if has_id(f, e) {
                let t = choose|t: int| 0 <= t < f.len() && (#[trigger] f[t]).0 == e;
                assert(f[t].0 == e);
            }
        }
    }
}

/// Adding `f` into the accumulator of `j`'s parent cannot overflow: each sum
/// is part of a subtree size, and subtree sizes fit.
proof fn lemma_merge_fits(acc: Seq<ExtAccum>, f: Seq<(u32, u64)>, ns: Seq<Node>, eids: Seq<u32>, nnames: int, j: int, p: int)
    requires
        parents_precede(parents_of(ns)),
        0 <= j < ns.len(),
        acc.len() == ns.len(),
        accum_ok(acc, ns, eids, nnames, j + 1),
        pairs_ok(f, ns, eids, nnames, j),
        is_child(dir_parents(ns), j, p),
        forall|k: int| 0 <= k < ns.len() ==> #[trigger] tree_total(parents_of(ns), size_w(ns), k) <= u64::MAX,
    ensures
        forall|t: int| 0 <= t < f.len() ==> (acc[p].sums@.contains_key((#[trigger] f[t]).0)
            ==> acc[p].sums@[f[t].0] + f[t].1 <= u64::MAX),
{
    let dp = dir_parents(ns);
    let ps = parents_of(ns);
    lemma_dir_links_within(ns);
    assert(ps[j] matches Some(q) && q < j);
    assert forall|t: int| 0 <= t < f.len() && acc[p].sums@.contains_key((#[trigger] f[t]).0)
        implies acc[p].sums@[f[t].0] + f[t].1 <= u64::MAX by {
        let e = f[t].0;
        let sw = id_size_w(ns, eids, e);
        lemma_id_weights(ns, eids, e);
        if acc[p].sums@.contains_key(e) {
            super::accum::lemma_value_of_at(f, t);
            assert(lo(j + 1, p) == j + 1);
            assert(acc[p].sums@[e] as int == children_total(dp, sw, p, j + 1));
            assert(has_id(f, e));
            assert(f[t].1 == tree_total(dp, sw, j));
            assert(children_total(dp, sw, p, j) == tree_total(dp, sw, j) + children_total(dp, sw, p, j + 1));
            lemma_children_total_shrinks(dp, sw, p, p + 1, j);
            lemma_totals_nonneg(dp, sw, p);
            assert(sw(p) >= 0);
            assert(nonneg_on(size_w(ns), ns.len() as int));
            lemma_totals_monotone(dp, sw, size_w(ns), p);
            lemma_fewer_links(dp, ps, size_w(ns), p);
        }
    }
}

/// For every directory, its extension list: per extension id the summed
/// size of the files below it, largest first.  One reverse pass folds each
/// finished node into its directory parent.
fn ext_totals(dparents: &Vec<Option<u32>>, nodes: &Vec<Node>, eids: &Vec<u32>, nnames: usize) -> (r: Vec<Vec<(u32, u64)>>)
    requires
        dparents@ == dir_parents(nodes@),
        parents_precede(parents_of(nodes@)),
        eids@.len() == nodes@.len(),
        forall|j: int| 0 <= j < nodes@.len() && !(#[trigger] nodes@[j]).is_dir ==> (eids@[j] as int) < nnames,
        forall|k: int| 0 <= k < nodes@.len() ==> #[trigger] tree_total(parents_of(nodes@), size_w(nodes@), k) <= u64::MAX,
    ensures
        r@.len() == nodes@.len(),
        forall|k: int| 0 <= k < nodes@.len() && (#[trigger] nodes@[k]).is_dir ==>
            exts_by_id(nodes@, eids@, nnames as int, k, r@[k]@),
{
    let ghost ns = nodes@;
    let ghost dp = dir_parents(ns);
    proof {
        lemma_dir_links_within(ns);
    }
    let n = nodes.len();
    let mut acc: Vec<ExtAccum> = Vec::new();
    let mut out: Vec<Vec<(u32, u64)>> = Vec::new();
    let mut t: usize = 0;
    while t < n
        invariant
            n == nodes.len(),
            t <= n,
            acc@.len() == t,
            out@.len() == t,
            forall|k: int| 0 <= k < t ==> (#[trigger] acc@[k]).wf() && acc@[k].sums@ == Map::<u32, u64>::empty(),
        decreases n - t,
    {
        acc.push(ExtAccum::new());
        out.push(Vec::new());
        t = t + 1;
    }
    assert(accum_ok(acc@, ns, eids@, nnames as int, n as int)) by {
        assert forall|k: int, e: u32| 0 <= k < acc@.len() implies
            (#[trigger] acc@[k].sums@.contains_key(e) <==> children_total(dp, id_count_w(ns, eids@, e), k, lo(n as int, k)) > 0) by {
            assert(lo(n as int, k) >= n);
        }
    }
    let mut i: usize = n;
    while i > 0
        invariant
            n == nodes.len(),
            ns == nodes@,
            dp == dir_parents(ns),
            dparents@ == dp,
            parents_precede(parents_of(ns)),
            parents_precede(dp),
            eids@.len() == n,
            forall|j: int| 0 <= j < n && !(#[trigger] ns[j]).is_dir ==> (eids@[j] as int) < nnames,
            forall|k: int| 0 <= k < n ==> #[trigger] tree_total(parents_of(ns), size_w(ns), k) <= u64::MAX,
            i <= n,
            acc@.len() == n,
            out@.len() == n,
            accum_ok(acc@, ns, eids@, nnames as int, i as int),
            forall|k: int| i <= k < n && (#[trigger] ns[k]).is_dir ==> exts_by_id(ns, eids@, nnames as int, k, out@[k]@),
        decreases i,
    {
        let j = i - 1;
        let ghost jj = j as int;
        let is_dir = nodes[j].is_dir;
        let f: Vec<(u32, u64)> = if is_dir {
            let mut g = acc[j].pairs();
            let ghost g0v = g@;
            sort_by_weight_desc(&mut g);
            proof {
                assert(lo(i as int, jj) == jj + 1);
                lemma_permuted_pairs(g0v, g@);
                assert forall|e: u32| #[trigger] has_id(g@, e) <==> tree_total(dp, id_count_w(ns, eids@, e), jj) > 0 by {
                    assert(id_count_w(ns, eids@, e)(jj) == 0);
                }
                assert forall|e: u32| #[trigger] has_id(g@, e) implies value_of(g@, e) == tree_total(dp, id_size_w(ns, eids@, e), jj) by {
                    assert(id_size_w(ns, eids@, e)(jj) == 0);
                    let t = choose|t: int| 0 <= t < g0v.len() && (#[trigger] g0v[t]).0 == e;
                    super::accum::lemma_value_of_at(g0v, t);
                }
                assert forall|t: int| 0 <= t < g@.len() implies ((#[trigger] g@[t]).0 as int) < nnames by {
                    assert(g0v.contains(g@[t]));
                    let u = choose|u: int| 0 <= u < g0v.len() && g0v[u] == g@[t];
                    assert(acc@[jj].sums@.contains_key(g0v[u].0)) by {
                        assert(has_id(g0v, g0v[u].0));
                    }
                }
                assert forall|t: int| 0 <= t < g@.len() implies (#[trigger] g@[t]).1
                    == tree_total(dp, id_size_w(ns, eids@, g@[t].0), jj) by {
                    super::accum::lemma_value_of_at(g@, t);
                }
                assert(exts_by_id(ns, eids@, nnames as int, jj, g@));
            }
            g
        } else {
            let e = eids[j];
            let v = vec![(e, nodes[j].size)];
            proof {
                assert forall|x: u32| #[trigger] has_id(v@, x) <==> tree_total(dp, id_count_w(ns, eids@, x), jj) > 0 by {
                    lemma_file_childless(ns, id_count_w(ns, eids@, x), jj, jj + 1);
                    if has_id(v@, x) {
                        let t = choose|t: int| 0 <= t < v@.len() && (#[trigger] v@[t]).0 == x;
                    }
                    if x == e {
                        assert(v@[0].0 == x);
                    }
                }
                assert forall|x: u32| #[trigger] has_id(v@, x) implies value_of(v@, x) == tree_total(dp, id_size_w(ns, eids@, x), jj) by {
                    lemma_file_childless(ns, id_size_w(ns, eids@, x), jj, jj + 1);
                    super::accum::lemma_value_of_at(v@, 0);
                    let t = choose|t: int| 0 <= t < v@.len() && (#[trigger] v@[t]).0 == x;
                }
            }
            v
        };
        assert(pairs_ok(f@, ns, eids@, nnames as int, jj));
        let ghost old_acc = acc@;
        match dparents[j] {
            Some(p) => {
                let pu = p as usize;
                proof {
                    assert(is_child(dp, jj, p as int));
                    lemma_merge_fits(acc@, f@, ns, eids@, nnames as int, jj, p as int);
                }
                acc[pu].merge(&f);
            },
            None => {},
        }
        proof {
            lemma_accum_step(old_acc, acc@, f@, ns, eids@, nnames as int, jj);
        }
        if is_dir {
            out.set(j, f);
        }
        proof {
            assert forall|k: int| j <= k < n && (#[trigger] ns[k]).is_dir implies exts_by_id(ns, eids@, nnames as int, k, out@[k]@) by {
                if k == jj {
                    assert(is_dir);
                }
            }
        }
        i = j;
    }
    out
}

// ── Ordering children and assembling the tree ────────────────────────────────

/// Two nodes agree on everything but their children lists.
pub open spec fn same_but_children(a: Node, b: Node) -> bool {
    &&& b.name == a.name
    &&& b.size == a.size
    &&& b.file_count == a.file_count
    &&& b.dir_count == a.dir_count
    &&& b.is_dir == a.is_dir
    &&& b.is_hidden == a.is_hidden
    &&& b.mtime == a.mtime
    &&& b.parent == a.parent
}

/// `rayon`'s `par_iter_mut().for_each(..)` visits every element of the
/// vector exactly once, in parallel; the closure only sorts that node's
/// children with `sort_indices_by_weight_desc`, whose contract is restated
/// here per node.
#[verifier::external_body]
fn sort_all_children(nodes: &mut Vec<Node>, sizes: &Vec<u64>)
    requires
        forall|k: int, t: int| 0 <= k < old(nodes)@.len() && 0 <= t < old(nodes)@[k].children@.len()
            ==> (#[trigger] old(nodes)@[k].children@[t] as int) < sizes@.len(),
    ensures
        final(nodes)@.len() == old(nodes)@.len(),
        forall|k: int| 0 <= k < old(nodes)@.len() ==> same_but_children(old(nodes)@[k], #[trigger] final(nodes)@[k]),
        forall|k: int| 0 <= k < old(nodes)@.len() ==>
            (#[trigger] final(nodes)@[k]).children@.to_multiset() == old(nodes)@[k].children@.to_multiset(),
        forall|k: int| 0 <= k < old(nodes)@.len() ==> indices_sorted_desc((#[trigger] final(nodes)@[k]).children@, sizes@),
{
    nodes.par_iter_mut().for_each(|n| sort_indices_by_weight_desc(&mut n.children, sizes));
}

/// Id weights and text weights coincide once ids are resolved to their text.
proof fn lemma_ids_resolve(ns: Seq<Node>, eids: Seq<u32>, names: Seq<String>, e: int)
    requires
        0 <= e < names.len(),
        names.len() <= u32::MAX,
        eids.len() == ns.len(),
        forall|a: int, b: int| 0 <= a < b < names.len() ==> names[a]@ != names[b]@,
        forall|j: int| 0 <= j < ns.len() && !(#[trigger] ns[j]).is_dir ==>
            (eids[j] as int) < names.len() && names[eids[j] as int]@ == ext_key(ns[j].name@),
    ensures
        agree_on(id_count_w(ns, eids, e as u32), ext_count_w(ns, names[e]@), ns.len() as int),
        agree_on(id_size_w(ns, eids, e as u32), ext_size_w(ns, names[e]@), ns.len() as int),
{
    assert forall|j: int| 0 <= j < ns.len() && !ns[j].is_dir implies (eids[j] == e as u32 <==> ext_key(ns[j].name@) == names[e]@) by {
        let d = eids[j] as int;
        if ext_key(ns[j].name@) == names[e]@ && d != e {
            if d < e {
                assert(names[d]@ != names[e]@);
            } else {
                assert(names[e]@ != names[d]@);
            }
        }
    }
}

/// The statistics of one directory, by extension id.
pub open spec fn dir_stats_by_id(ns: Seq<Node>, now: int, eids: Seq<u32>, nnames: int, k: int, s: DirStats) -> bool {
    &&& forall|b: int| 0 <= b < 9 ==> s.age_hist@[b] == #[trigger] tree_total(dir_parents(ns), bucket_w(ns, now, b), k) as u32
    &&& exts_by_id(ns, eids, nnames, k, s.exts@)
}

/// Assembles the per-directory statistics from the histograms and the
/// extension lists, keyed by node index.
fn build_dir_stats(nodes: &Vec<Node>, hist: &Vec<Vec<u64>>, exts: Vec<Vec<(u32, u64)>>, Ghost(eids): Ghost<Seq<u32>>, nnames: usize, now: i64) -> (r: HashMap<u32, DirStats>)
    requires
        nodes@.len() <= u32::MAX,
        exts@.len() == nodes@.len(),
        hist@.len() == 9,
        forall|b: int| 0 <= b < 9 ==> (#[trigger] hist@[b])@.len() == nodes@.len(),
        forall|b: int, x: int| 0 <= b < 9 && 0 <= x < nodes@.len() ==>
            #[trigger] hist@[b]@[x] == tree_total(dir_parents(nodes@), bucket_w(nodes@, now as int, b), x),
        forall|x: int| 0 <= x < nodes@.len() && (#[trigger] nodes@[x]).is_dir ==>
            exts_by_id(nodes@, eids, nnames as int, x, exts@[x]@),
    ensures
        forall|x: u32| #[trigger] r@.contains_key(x) <==> ((x as int) < nodes@.len() && nodes@[x as int].is_dir),
        forall|x: u32| #[trigger] r@.contains_key(x) ==> dir_stats_by_id(nodes@, now as int, eids, nnames as int, x as int, r@[x]),
{
    broadcast use vstd::std_specs::hash::group_hash_axioms;
    let ghost ns = nodes@;
    let ghost ex = exts@;
    let ghost dp = dir_parents(ns);
    let n = nodes.len();
    let mut exts = exts;
    let mut dir_stats: HashMap<u32, DirStats> = HashMap::new();
    let mut k: usize = n;
    while k > 0
        invariant
            n == nodes.len(),
            ns == nodes@,
            dp == dir_parents(ns),
            n <= u32::MAX,
            k <= n,
            exts@.len() == k,
            forall|x: int| 0 <= x < k ==> exts@[x] == ex[x],
            ex.len() == n,
            hist@.len() == 9,
            forall|b: int| 0 <= b < 9 ==> (#[trigger] hist@[b])@.len() == n,
            forall|b: int, x: int| 0 <= b < 9 && 0 <= x < n ==>
                #[trigger] hist@[b]@[x] == tree_total(dp, bucket_w(ns, now as int, b), x),
            forall|x: int| 0 <= x < n && (#[trigger] ns[x]).is_dir ==>
                exts_by_id(ns, eids, nnames as int, x, ex[x]@),
            forall|x: u32| #[trigger] dir_stats@.contains_key(x) <==> (k <= (x as int) < n && ns[x as int].is_dir),
            forall|x: u32| #[trigger] dir_stats@.contains_key(x) ==> dir_stats_by_id(ns, now as int, eids, nnames as int, x as int, dir_stats@[x]),
        decreases k,
    {
        k = k - 1;
        let e = exts.pop().unwrap();
        if nodes[k].is_dir {
            #[verifier::truncate]
            let h0 = hist[0][k] as u32;
            #[verifier::truncate]
            let h1 = hist[1][k] as u32;
            #[verifier::truncate]
            let h2 = hist[2][k] as u32;
            #[verifier::truncate]
            let h3 = hist[3][k] as u32;
            #[verifier::truncate]
            let h4 = hist[4][k] as u32;
            #[verifier::truncate]
            let h5 = hist[5][k] as u32;
            #[verifier::truncate]
            let h6 = hist[6][k] as u32;
            #[verifier::truncate]
            let h7 = hist[7][k] as u32;
            #[verifier::truncate]
            let h8 = hist[8][k] as u32;
            let age_hist: [u32; 9] = [h0, h1, h2, h3, h4, h5, h6, h7, h8];
            let ghost kk = k as int;
            let ds = DirStats { age_hist, exts: e };
            proof {
                assert(age_hist@ == seq![h0, h1, h2, h3, h4, h5, h6, h7, h8]);
                assert forall|b: int| 0 <= b < 9 implies age_hist@[b] == #[trigger] tree_total(dp, bucket_w(ns, now as int, b), kk) as u32 by {
                    assert(hist@[b]@[kk] == tree_total(dp, bucket_w(ns, now as int, b), kk));
                }
                assert(dir_stats_by_id(ns, now as int, eids, nnames as int, kk, ds));
            }
            dir_stats.insert(k as u32, ds);
        }
    }
    dir_stats
}

/// Writes the subtree totals into the nodes.
fn write_totals(nodes: &mut Vec<Node>, sizes: &Vec<u64>, files: &Vec<u64>, dirs: &Vec<u64>, Ghost(ns): Ghost<Seq<Node>>)
    requires
        old(nodes)@ == ns,
        parents_precede(parents_of(ns)),
        sizes@.len() == ns.len(),
        files@.len() == ns.len(),
        dirs@.len() == ns.len(),
        forall|x: int| 0 <= x < ns.len() ==> #[trigger] sizes@[x] == tree_total(parents_of(ns), size_w(ns), x),
        forall|x: int| 0 <= x < ns.len() ==> #[trigger] files@[x] == tree_total(parents_of(ns), file_w(ns), x),
        forall|x: int| 0 <= x < ns.len() ==> #[trigger] dirs@[x] == tree_total(parents_of(ns), dir_w(ns), x),
    ensures
        final(nodes)@.len() == ns.len(),
        forall|x: int| 0 <= x < ns.len() ==> (#[trigger] final(nodes)@[x]).children == ns[x].children
            && final(nodes)@[x].name == ns[x].name
            && final(nodes)@[x].is_dir == ns[x].is_dir && final(nodes)@[x].is_hidden == ns[x].is_hidden
            && final(nodes)@[x].mtime == ns[x].mtime && final(nodes)@[x].parent == ns[x].parent
            && final(nodes)@[x].size == tree_total(parents_of(ns), size_w(ns), x)
            && final(nodes)@[x].file_count == tree_total(parents_of(ns), file_w(ns), x) - file_w(ns)(x)
            && final(nodes)@[x].dir_count == tree_total(parents_of(ns), dir_w(ns), x) - dir_w(ns)(x),
{
    let ghost ps = parents_of(ns);
    let n = nodes.len();
    let mut i: usize = 0;
    while i < n
        invariant
            n == nodes.len(),
            i <= n,
            ns.len() == n,
            ps == parents_of(ns),
            sizes@.len() == n,
            files@.len() == n,
            dirs@.len() == n,
            forall|x: int| 0 <= x < n ==> #[trigger] sizes@[x] == tree_total(ps, size_w(ns), x),
            forall|x: int| 0 <= x < n ==> #[trigger] files@[x] == tree_total(ps, file_w(ns), x),
            forall|x: int| 0 <= x < n ==> #[trigger] dirs@[x] == tree_total(ps, dir_w(ns), x),
            forall|x: int| 0 <= x < n ==> (#[trigger] nodes@[x]).children == ns[x].children
                && nodes@[x].name == ns[x].name
                && nodes@[x].is_dir == ns[x].is_dir && nodes@[x].is_hidden == ns[x].is_hidden
                && nodes@[x].mtime == ns[x].mtime && nodes@[x].parent == ns[x].parent,
            forall|x: int| 0 <= x < i ==> (#[trigger] nodes@[x]).size == tree_total(ps, size_w(ns), x)
                && nodes@[x].file_count == tree_total(ps, file_w(ns), x) - file_w(ns)(x)
                && nodes@[x].dir_count == tree_total(ps, dir_w(ns), x) - dir_w(ns)(x),
        decreases n - i,
    {
        proof {
            assert(nonneg_on(file_w(ns), n as int));
            assert(nonneg_on(dir_w(ns), n as int));
            super::arena::lemma_children_total_nonneg_pub(ps, file_w(ns), i as int);
            super::arena::lemma_children_total_nonneg_pub(ps, dir_w(ns), i as int);
        }
        let own_file: u64 = if nodes[i].is_dir { 0 } else { 1 };
        let own_dir: u64 = if nodes[i].is_dir { 1 } else { 0 };
        nodes[i].size = sizes[i];
        nodes[i].file_count = files[i] - own_file;
        nodes[i].dir_count = dirs[i] - own_dir;
        i = i + 1;
    }
}

/// After sorting, each node is aggregated and its children ordered by size.
proof fn lemma_nodes_aggregated(ns: Seq<Node>, before: Seq<Node>, out: Seq<Node>, sizes: Seq<u64>)
    requires
        children_exact(ns),
        before.len() == ns.len(),
        out.len() == ns.len(),
        sizes.len() == ns.len(),
        forall|x: int| 0 <= x < ns.len() ==> #[trigger] sizes[x] == tree_total(parents_of(ns), size_w(ns), x),
        forall|x: int| 0 <= x < ns.len() ==> (#[trigger] before[x]).children == ns[x].children
            && before[x].name == ns[x].name
            && before[x].is_dir == ns[x].is_dir && before[x].is_hidden == ns[x].is_hidden
            && before[x].mtime == ns[x].mtime && before[x].parent == ns[x].parent
            && before[x].size == tree_total(parents_of(ns), size_w(ns), x)
            && before[x].file_count == tree_total(parents_of(ns), file_w(ns), x) - file_w(ns)(x)
            && before[x].dir_count == tree_total(parents_of(ns), dir_w(ns), x) - dir_w(ns)(x),
        forall|k: int| 0 <= k < ns.len() ==> same_but_children(before[k], #[trigger] out[k]),
        forall|k: int| 0 <= k < ns.len() ==> (#[trigger] out[k]).children@.to_multiset() == before[k].children@.to_multiset(),
        forall|k: int| 0 <= k < ns.len() ==> indices_sorted_desc((#[trigger] out[k]).children@, sizes),
    ensures
        forall|x: int| 0 <= x < ns.len() ==> #[trigger] node_aggregated(ns, out, x),
{
    broadcast use vstd::seq_lib::group_to_multiset_ensures;
    assert forall|x: int| 0 <= x < ns.len() implies #[trigger] node_aggregated(ns, out, x) by {
        assert(same_but_children(before[x], out[x]));
        assert(indices_sorted_desc(out[x].children@, sizes));
        assert(super::tree::children_listed_once(ns, x));
        assert forall|a: int, b: int| 0 <= a < b < out[x].children@.len() implies
            out[out[x].children@[a] as int].size >= out[out[x].children@[b] as int].size by {
            let ca = out[x].children@[a];
            let cb = out[x].children@[b];
            assert(sizes[ca as int] >= sizes[cb as int]);
            assert(out[x].children@.contains(ca));
            assert(out[x].children@.to_multiset().count(ca) > 0);
            assert(ns[x].children@.contains(ca));
            assert(out[x].children@.contains(cb));
            assert(out[x].children@.to_multiset().count(cb) > 0);
            assert(ns[x].children@.contains(cb));
            let ua = choose|u: int| 0 <= u < ns[x].children@.len() && ns[x].children@[u] == ca;
            let ub = choose|u: int| 0 <= u < ns[x].children@.len() && ns[x].children@[u] == cb;
            assert((ns[x].children@[ua] as int) < ns.len());
            assert((ns[x].children@[ub] as int) < ns.len());
            assert(same_but_children(before[ca as int], out[ca as int]));
            assert(same_but_children(before[cb as int], out[cb as int]));
        }
    }
}

/// Resolving ids to text turns the statistics by id into the statistics by text.
proof fn lemma_stats_resolve(ns: Seq<Node>, now: int, eids: Seq<u32>, names: Seq<String>, stats: Map<u32, DirStats>)
    requires
        names.len() <= u32::MAX,
        eids.len() == ns.len(),
        forall|a: int, b: int| 0 <= a < b < names.len() ==> names[a]@ != names[b]@,
        forall|j: int| 0 <= j < ns.len() && !(#[trigger] ns[j]).is_dir ==>
            (eids[j] as int) < names.len() && names[eids[j] as int]@ == ext_key(ns[j].name@),
        forall|x: u32| #[trigger] stats.contains_key(x) <==> ((x as int) < ns.len() && ns[x as int].is_dir),
        forall|x: u32| #[trigger] stats.contains_key(x) ==> dir_stats_by_id(ns, now, eids, names.len() as int, x as int, stats[x]),
    ensures
        stats_match(ns, now, names, stats),
{
    let dp = dir_parents(ns);
    assert forall|x: u32| #[trigger] stats.contains_key(x) implies dir_stats_match(ns, now, names, x as int, stats[x]) by {
        let s = stats[x];
        let xk = x as int;
        assert(dir_stats_by_id(ns, now, eids, names.len() as int, xk, s));
        assert forall|q: int| 0 <= q < s.exts@.len() implies (#[trigger] s.exts@[q]).1
            == tree_total(dp, ext_size_w(ns, names[s.exts@[q].0 as int]@), xk) by {
            let e = s.exts@[q].0 as int;
            lemma_ids_resolve(ns, eids, names, e);
            lemma_totals_agree(dp, id_size_w(ns, eids, e as u32), ext_size_w(ns, names[e]@), xk);
        }
        assert forall|e: int| 0 <= e < names.len() implies ((exists|q: int| 0 <= q < s.exts@.len() && (#[trigger] s.exts@[q]).0 == e)
            <==> tree_total(dp, ext_count_w(ns, names[e]@), xk) > 0) by {
            lemma_ids_resolve(ns, eids, names, e);
            lemma_totals_agree(dp, id_count_w(ns, eids, e as u32), ext_count_w(ns, names[e]@), xk);
            assert(has_id(s.exts@, e as u32) <==> tree_total(dp, id_count_w(ns, eids, e as u32), xk) > 0);
            if exists|q: int| 0 <= q < s.exts@.len() && (#[trigger] s.exts@[q]).0 == e {
                let q = choose|q: int| 0 <= q < s.exts@.len() && (#[trigger] s.exts@[q]).0 == e;
                assert(s.exts@[q].0 == e as u32);
            }
            if has_id(s.exts@, e as u32) {
                let q = choose|q: int| 0 <= q < s.exts@.len() && (#[trigger] s.exts@[q]).0 == e as u32;
                assert(s.exts@[q].0 as int == e);
            }
        }
    }
}

/// The interned extensions and the per-directory statistics of an arena.
fn compute_stats(nodes: &Vec<Node>, now_secs: i64) -> (r: (Vec<String>, HashMap<u32, DirStats>))
    requires
        nodes@.len() <= u32::MAX,
        parents_precede(parents_of(nodes@)),
        numbers_ready(nodes@, now_secs),
    ensures
        r.0@.len() <= nodes@.len(),
        ext_names_match(nodes@, r.0@),
        stats_match(nodes@, now_secs as int, r.0@, r.1@),
{
    let ghost ns = nodes@;
    let (eids, ext_names) = intern_extensions(nodes);
    let buckets = file_buckets(nodes, now_secs);
    let dparents = collect_dir_parents(nodes);
    let hist = age_histograms(&dparents, nodes, &buckets, now_secs);
    let exts = ext_totals(&dparents, nodes, &eids, ext_names.len());
    let dir_stats = build_dir_stats(nodes, &hist, exts, Ghost(eids@), ext_names.len(), now_secs);
    proof {
        lemma_stats_resolve(ns, now_secs as int, eids@, ext_names@, dir_stats@);
        let names = ext_names@;
        assert forall|e: int| 0 <= e < names.len() implies #[trigger] super::tree::ext_is_used(ns, names[e]@) by {
            assert(id_used(ns, eids@, e, 0));
            let j = choose|j: int| 0 <= j < ns.len() && !ns[j].is_dir && #[trigger] eids@[j] as int == e;
            assert(names[eids@[j] as int]@ == ext_key(ns[j].name@));
        }
        assert forall|j: int| 0 <= j < ns.len() && !ns[j].is_dir implies #[trigger] super::tree::ext_is_named(names, ext_key(ns[j].name@)) by {
            let e = eids@[j] as int;
            assert(names[e]@ == ext_key(ns[j].name@));
        }
        assert(ext_names_match(ns, names));
    }
    (ext_names, dir_stats)
}

/// The nodes with their subtree totals filled in and children ordered largest first.
fn aggregate_nodes(nodes: Vec<Node>) -> (out: Vec<Node>)
    requires
        parents_precede(parents_of(nodes@)),
        children_exact(nodes@),
        totals_fit(parents_of(nodes@), size_w(nodes@)),
        totals_fit(parents_of(nodes@), file_w(nodes@)),
        totals_fit(parents_of(nodes@), dir_w(nodes@)),
    ensures
        out@.len() == nodes@.len(),
        forall|x: int| 0 <= x < nodes@.len() ==> #[trigger] node_aggregated(nodes@, out@, x),
{
    let mut nodes = nodes;
    let ghost ns = nodes@;
    let parents = collect_parents(&nodes);
    let sizes = node_totals(&parents, &nodes, NodeWeight::Size);
    let files = node_totals(&parents, &nodes, NodeWeight::File);
    let dirs = node_totals(&parents, &nodes, NodeWeight::Dir);
    write_totals(&mut nodes, &sizes, &files, &dirs, Ghost(ns));
    let ghost before_sort = nodes@;
    proof {
        assert forall|x: int, t: int| 0 <= x < nodes@.len() && 0 <= t < nodes@[x].children@.len()
            implies (#[trigger] nodes@[x].children@[t] as int) < sizes@.len() by {
            assert(super::tree::children_listed_once(ns, x));
        }
    }
    sort_all_children(&mut nodes, &sizes);
    proof {
        lemma_nodes_aggregated(ns, before_sort, nodes@, sizes@);
    }
    nodes
}

/// Finishes a walked arena: aggregates sizes and counts bottom-up, interns
/// extensions, computes every directory's age histogram and file-type list,
/// orders children largest first and records the totals of the root.
pub fn finalize(nodes: Vec<Node>, root: u32, root_path: String, now_secs: i64, scan_duration_ms: u64) -> (t: ScanTree)
    requires
        arena_ready(nodes@, root as int),
        numbers_ready(nodes@, now_secs),
    ensures
        finalized_from(t, nodes@, root as int, now_secs),
        t.root_path == root_path,
        t.scan_duration_ms == scan_duration_ms,
{
    let ghost ns = nodes@;
    let (ext_names, dir_stats) = compute_stats(&nodes, now_secs);
    let nodes = aggregate_nodes(nodes);
    let total_size = nodes[root as usize].size;
    let total_files = nodes[root as usize].file_count;
    let total_dirs = nodes[root as usize].dir_count;
    ScanTree {
        nodes,
        root,
        root_path,
        total_size,
        total_files,
        total_dirs,
        scan_duration_ms,
        ext_names,
        dir_stats,
        scan_now_secs: now_secs,
    }
}

} // verus!
