//! The file-type composition of a finished directory adds up: its listed
//! extensions, each with the summed size of its files, together weigh
//! exactly the files below the directory.

use vstd::prelude::*;

use super::accum::ids_distinct;
use super::arena::{lemma_totals_add, lemma_totals_agree, lemma_zero_total_transfers, nonneg_on, tree_total, Node};
use super::ext::ext_key;
use super::tree::{
    arena_ready, dir_parents, dir_stats_match, ext_count_w, ext_is_named, ext_names_match, ext_size_w, finalized_from,
    stats_match, ScanTree,
};
use crate::commands::stats::pair_sum;

verus! {

/// The size of a file; 0 for a directory.
pub open spec fn file_size_w(ns: Seq<Node>) -> spec_fn(int) -> int {
    |j: int| if !ns[j].is_dir { ns[j].size as int } else { 0int }
}

/// `f(0) + ... + f(m - 1)`.
pub open spec fn sum_below(f: spec_fn(int) -> int, m: int) -> int
    decreases m,
{
    if m <= 0 {
        0
    } else {
        sum_below(f, m - 1) + f(m - 1)
    }
}

/// A node's size under the first `m` interned extensions, summed.
pub open spec fn names_size_w(ns: Seq<Node>, names: Seq<String>, m: int) -> spec_fn(int) -> int {
    |j: int| sum_below(|e: int| ext_size_w(ns, names[e]@)(j), m)
}

/// Removing a pair takes its weight off the sum.
proof fn lemma_pair_sum_remove(s: Seq<(u32, u64)>, p: int)
    requires
        0 <= p < s.len(),
    ensures
        pair_sum(s, 0, s.len() as int) == pair_sum(s.remove(p), 0, s.len() - 1) + s[p].1,
    decreases s.len(),
{
    let n = s.len() as int;
    if p == n - 1 {
        assert(s.remove(p) =~= s.drop_last());
        lemma_pair_sum_prefix(s, s.drop_last(), n - 1);
    } else {
        let d = s.drop_last();
        lemma_pair_sum_remove(d, p);
        assert(s.remove(p).drop_last() =~= d.remove(p));
        assert(s.remove(p)[n - 2] == s[n - 1]);
        lemma_pair_sum_prefix(s, d, n - 1);
        lemma_pair_sum_prefix(s.remove(p), d.remove(p), n - 2);
    }
}

/// Sums over a common prefix agree.
proof fn lemma_pair_sum_prefix(s: Seq<(u32, u64)>, q: Seq<(u32, u64)>, m: int)
    requires
        0 <= m <= s.len(),
        m <= q.len(),
        forall|t: int| 0 <= t < m ==> #[trigger] s[t] == q[t],
    ensures
        pair_sum(s, 0, m) == pair_sum(q, 0, m),
    decreases m,
{
    if m > 0 {
        lemma_pair_sum_prefix(s, q, m - 1);
    }
}

/// Summing the weights of distinct ids below `n`, listed with `f` of each,
/// and listing every id whose `f` is not zero, gives the sum of `f` below `n`.
proof fn lemma_sum_over_ids(s: Seq<(u32, u64)>, f: spec_fn(int) -> int, n: int)
    requires
        ids_distinct(s),
        forall|t: int| 0 <= t < s.len() ==> ((#[trigger] s[t]).0 as int) < n,
        forall|t: int| 0 <= t < s.len() ==> (#[trigger] s[t]).1 == f(s[t].0 as int),
        forall|e: int| 0 <= e < n && #[trigger] f(e) != 0 ==> exists|t: int| 0 <= t < s.len() && (#[trigger] s[t]).0 == e,
    ensures
        pair_sum(s, 0, s.len() as int) == sum_below(f, n),
    decreases n,
{
    if n <= 0 {
        if s.len() > 0 {
            assert((s[0].0 as int) < n);
        }
    } else {
        let e = n - 1;
        if exists|t: int| 0 <= t < s.len() && (#[trigger] s[t]).0 == e {
            let p = choose|t: int| 0 <= t < s.len() && (#[trigger] s[t]).0 == e;
            let r = s.remove(p);
            lemma_pair_sum_remove(s, p);
            assert forall|t: int| 0 <= t < r.len() implies ((#[trigger] r[t]).0 as int) < n - 1 by {
                let u = if t < p { t } else { t + 1 };
                assert(r[t] == s[u]);
                if u < p {
                    assert(s[u].0 != s[p].0);
                } else {
                    assert(s[p].0 != s[u].0);
                }
            }
            assert forall|a: int, b: int| 0 <= a < b < r.len() implies (#[trigger] r[a]).0 != (#[trigger] r[b]).0 by {
                let ua = if a < p { a } else { a + 1 };
                let ub = if b < p { b } else { b + 1 };
                assert(r[a] == s[ua]);
                assert(r[b] == s[ub]);
            }
            assert forall|t: int| 0 <= t < r.len() implies (#[trigger] r[t]).1 == f(r[t].0 as int) by {
                let u = if t < p { t } else { t + 1 };
                assert(r[t] == s[u]);
            }
            assert forall|x: int| 0 <= x < n - 1 && #[trigger] f(x) != 0 implies exists|t: int| 0 <= t < r.len() && (#[trigger] r[t]).0 == x by {
                let u = choose|t: int| 0 <= t < s.len() && (#[trigger] s[t]).0 == x;
                assert(u != p);
                let t = if u < p { u } else { u - 1 };
                assert(r[t] == s[u]);
            }
            lemma_sum_over_ids(r, f, n - 1);
        } else {
            assert(f(e) == 0);
            assert forall|t: int| 0 <= t < s.len() implies ((#[trigger] s[t]).0 as int) < n - 1 by {
                assert(s[t].0 != e);
            }
            lemma_sum_over_ids(s, f, n - 1);
        }
    }
}

/// The size of node `j` under the first `m` names: its size when it is a
/// file whose key is among them, else 0.
proof fn lemma_names_size(ns: Seq<Node>, names: Seq<String>, j: int, m: int)
    requires
        0 <= m <= names.len(),
        forall|a: int, b: int| 0 <= a < b < names.len() ==> names[a]@ != names[b]@,
    ensures
        names_size_w(ns, names, m)(j) == (if !ns[j].is_dir && exists|e: int| 0 <= e < m && (#[trigger] names[e])@ == ext_key(ns[j].name@) {
            ns[j].size as int
        } else {
            0
        }),
    decreases m,
{
    if m > 0 {
        lemma_names_size(ns, names, j, m - 1);
        let key = ext_key(ns[j].name@);
        if !ns[j].is_dir && names[m - 1]@ == key {
            if exists|e: int| 0 <= e < m - 1 && (#[trigger] names[e])@ == key {
                let e = choose|e: int| 0 <= e < m - 1 && (#[trigger] names[e])@ == key;
                assert(names[e]@ != names[m - 1]@);
            }
        }
        if !ns[j].is_dir && exists|e: int| 0 <= e < m && (#[trigger] names[e])@ == key {
            let e = choose|e: int| 0 <= e < m && (#[trigger] names[e])@ == key;
            if e < m - 1 {
                assert(exists|x: int| 0 <= x < m - 1 && (#[trigger] names[x])@ == key);
            }
        }
    }
}

/// Totals over the first `m` names add up name by name.
proof fn lemma_names_total(ns: Seq<Node>, names: Seq<String>, ps: Seq<Option<u32>>, k: int, m: int)
    requires
        0 <= m,
    ensures
        tree_total(ps, names_size_w(ns, names, m), k) == sum_below(|e: int| tree_total(ps, ext_size_w(ns, names[e]@), k), m),
    decreases m,
{
    if m == 0 {
        lemma_totals_add(ps, names_size_w(ns, names, 0), names_size_w(ns, names, 0), names_size_w(ns, names, 0), k);
    } else {
        lemma_names_total(ns, names, ps, k, m - 1);
        assert forall|j: int| 0 <= j < ps.len() implies #[trigger] names_size_w(ns, names, m)(j)
            == names_size_w(ns, names, m - 1)(j) + ext_size_w(ns, names[m - 1]@)(j) by {}
        lemma_totals_add(ps, names_size_w(ns, names, m - 1), ext_size_w(ns, names[m - 1]@), names_size_w(ns, names, m), k);
    }
}

/// In a finished scan, the file types listed for a directory, with their
/// summed sizes, add up to the sizes of all files below it.
pub proof fn law_file_types_add_up(t: ScanTree, ns: Seq<Node>, root: int, now: i64, k: u32)
    requires
        arena_ready(ns, root),
        finalized_from(t, ns, root, now),
        (k as int) < ns.len(),
        ns[k as int].is_dir,
    ensures
        t.dir_stats@.contains_key(k),
        pair_sum(t.dir_stats@[k].exts@, 0, t.dir_stats@[k].exts@.len() as int)
            == tree_total(dir_parents(ns), file_size_w(ns), k as int),
{
    let ki = k as int;
    let dp = dir_parents(ns);
    let names = t.ext_names@;
    let n = names.len() as int;
    assert(stats_match(ns, now as int, names, t.dir_stats@));
    assert(t.dir_stats@.contains_key(k));
    let s = t.dir_stats@[k];
    let x = s.exts@;
    assert(dir_stats_match(ns, now as int, names, ki, s));
    assert(ext_names_match(ns, names));
    let f = |e: int| tree_total(dp, ext_size_w(ns, names[e]@), ki);
    assert forall|e: int| 0 <= e < n && #[trigger] f(e) != 0 implies exists|q: int| 0 <= q < x.len() && (#[trigger] x[q]).0 == e by {
        assert(nonneg_on(ext_count_w(ns, names[e]@), ns.len() as int));
        assert(nonneg_on(ext_size_w(ns, names[e]@), ns.len() as int));
        lemma_zero_total_transfers(dp, ext_count_w(ns, names[e]@), ext_size_w(ns, names[e]@), ki);
        super::arena::lemma_totals_nonneg(dp, ext_count_w(ns, names[e]@), ki);
        assert(tree_total(dp, ext_count_w(ns, names[e]@), ki) > 0);
    }
    assert forall|q: int| 0 <= q < x.len() implies (#[trigger] x[q]).1 == f(x[q].0 as int) by {}
    lemma_sum_over_ids(x, f, n);
    lemma_names_total(ns, names, dp, ki, n);
    assert(f =~= (|e: int| tree_total(dp, ext_size_w(ns, names[e]@), ki)));
    assert forall|j: int| 0 <= j < dp.len() implies #[trigger] names_size_w(ns, names, n)(j) == file_size_w(ns)(j) by {
        lemma_names_size(ns, names, j, n);
        if !ns[j].is_dir {
            assert(ext_is_named(names, ext_key(ns[j].name@)));
        }
    }
    lemma_totals_agree(dp, names_size_w(ns, names, n), file_size_w(ns), ki);
}

} // verus!
