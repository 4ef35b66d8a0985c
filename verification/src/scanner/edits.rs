//! What taking deleted sizes off an extension list does: every extension
//! loses the size removed under it, and drops out once nothing of it is
//! left.

use vstd::prelude::*;

use super::accum::{has_id, ids_distinct, lemma_value_of_at, value_of};
use super::arena::{lemma_totals_nonneg, lemma_zero_total_transfers, nonneg_on, parents_of, tree_total, Node};
use super::ext::ext_key;
use super::finalize::lemma_file_childless;
use super::sort::sorted_by_weight_desc;
use super::histogram::{lemma_ancestor_is_dir, parents_are_dirs};
use super::remove::{
    apply_del, apply_dels, file_delta_exts, file_delta_hist, first_id_index, first_name_index, is_ancestor,
    lemma_ancestor_below, lemma_first_id_index, lemma_first_name_index, removal_stats, stats_left, stats_reduced,
};
use super::tree::{
    arena_ready, dir_parents, dir_stats_match, ext_count_w, ext_is_named, ext_names_match, ext_size_w, finalized_from,
    node_aggregated, numbers_ready, size_w, stats_match, DirStats, ScanTree,
};

verus! {

broadcast use vstd::seq_lib::group_to_multiset_ensures;

/// Taking one pair off: its id loses the pair's size, and drops out when that
/// leaves nothing.
proof fn lemma_apply_del(s: Seq<(u32, u64)>, x: (u32, u64))
    requires
        ids_distinct(s),
    ensures
        ids_distinct(apply_del(s, x)),
        forall|e: u32| #[trigger] has_id(apply_del(s, x), e) <==> has_id(s, e) && !(e == x.0 && value_of(s, e) <= x.1),
        forall|e: u32| #[trigger] has_id(apply_del(s, x), e) ==>
            value_of(apply_del(s, x), e) == value_of(s, e) - (if e == x.0 { x.1 as int } else { 0int }),
{
    let r = apply_del(s, x);
    let pos = first_id_index(s, x.0);
    lemma_first_id_index(s, x.0);
    if pos < 0 {
        assert(!has_id(s, x.0));
    } else {
        lemma_value_of_at(s, pos);
        if s[pos].1 <= x.1 {
            assert(r == s.remove(pos));
            assert forall|a: int, b: int| 0 <= a < b < r.len() implies (#[trigger] r[a]).0 != (#[trigger] r[b]).0 by {
                let ua = if a < pos { a } else { a + 1 };
                let ub = if b < pos { b } else { b + 1 };
                assert(r[a] == s[ua]);
                assert(r[b] == s[ub]);
            }
            assert forall|e: u32| #[trigger] has_id(r, e) <==> has_id(s, e) && !(e == x.0 && value_of(s, e) <= x.1) by {
                if has_id(r, e) {
                    let t = choose|t: int| 0 <= t < r.len() && (#[trigger] r[t]).0 == e;
                    let u = if t < pos { t } else { t + 1 };
                    assert(r[t] == s[u]);
                    assert(u != pos);
                    if e == x.0 {
                        if u < pos {
                            assert(s[u].0 != s[pos].0);
                        } else {
                            assert(s[pos].0 != s[u].0);
                        }
                    }
                }
                if has_id(s, e) && e != x.0 {
                    let u = choose|u: int| 0 <= u < s.len() && (#[trigger] s[u]).0 == e;
                    assert(u != pos);
                    let t = if u < pos { u } else { u - 1 };
                    assert(r[t] == s[u]);
                }
            }
            assert forall|e: u32| #[trigger] has_id(r, e) implies value_of(r, e) == value_of(s, e) - (if e == x.0 { x.1 as int } else { 0int }) by {
                let t = choose|t: int| 0 <= t < r.len() && (#[trigger] r[t]).0 == e;
                let u = if t < pos { t } else { t + 1 };
                assert(r[t] == s[u]);
                lemma_value_of_at(r, t);
                lemma_value_of_at(s, u);
            }
        } else {
            let v = (s[pos].1 - x.1) as u64;
            assert(r == s.update(pos, (x.0, v)));
            assert forall|a: int, b: int| 0 <= a < b < r.len() implies (#[trigger] r[a]).0 != (#[trigger] r[b]).0 by {
                assert(r[a].0 == s[a].0);
                assert(r[b].0 == s[b].0);
            }
            assert forall|e: u32| #[trigger] has_id(r, e) <==> has_id(s, e) && !(e == x.0 && value_of(s, e) <= x.1) by {
                if has_id(r, e) {
                    let t = choose|t: int| 0 <= t < r.len() && (#[trigger] r[t]).0 == e;
                    assert(r[t].0 == s[t].0);
                }
                if has_id(s, e) {
                    let u = choose|u: int| 0 <= u < s.len() && (#[trigger] s[u]).0 == e;
                    assert(r[u].0 == s[u].0);
                }
            }
            assert forall|e: u32| #[trigger] has_id(r, e) implies value_of(r, e) == value_of(s, e) - (if e == x.0 { x.1 as int } else { 0int }) by {
                let t = choose|t: int| 0 <= t < r.len() && (#[trigger] r[t]).0 == e;
                assert(r[t].0 == s[t].0);
                lemma_value_of_at(r, t);
                lemma_value_of_at(s, t);
                if t != pos {
                    assert(e != x.0) by {
                        if t < pos {
                            assert(s[t].0 != s[pos].0);
                        } else {
                            assert(s[pos].0 != s[t].0);
                        }
                    }
                }
            }
        }
    }
}

/// Taking a list of pairs with distinct ids off: each id loses what is
/// listed under it, and drops out when that leaves nothing.
pub proof fn lemma_apply_dels(s: Seq<(u32, u64)>, dels: Seq<(u32, u64)>)
    requires
        ids_distinct(s),
        ids_distinct(dels),
    ensures
        ids_distinct(apply_dels(s, dels)),
        forall|e: u32| #[trigger] has_id(apply_dels(s, dels), e) <==>
            has_id(s, e) && !(has_id(dels, e) && value_of(s, e) <= value_of(dels, e)),
        forall|e: u32| #[trigger] has_id(apply_dels(s, dels), e) ==>
            value_of(apply_dels(s, dels), e) == value_of(s, e) - value_of(dels, e),
    decreases dels.len(),
{
    if dels.len() == 0 {
        assert forall|e: u32| !has_id(dels, e) by {}
    } else {
        let x = dels[0];
        let rest = dels.drop_first();
        let s1 = apply_del(s, x);
        lemma_apply_del(s, x);
        assert forall|a: int, b: int| 0 <= a < b < rest.len() implies (#[trigger] rest[a]).0 != (#[trigger] rest[b]).0 by {
            assert(rest[a] == dels[a + 1]);
            assert(rest[b] == dels[b + 1]);
        }
        lemma_apply_dels(s1, rest);
        lemma_value_of_at(dels, 0);
        assert forall|e: u32| has_id(rest, e) <==> has_id(dels, e) && e != x.0 by {
            if has_id(rest, e) {
                let t = choose|t: int| 0 <= t < rest.len() && (#[trigger] rest[t]).0 == e;
                assert(rest[t] == dels[t + 1]);
                assert(dels[0].0 != dels[t + 1].0);
            }
            if has_id(dels, e) && e != x.0 {
                let u = choose|u: int| 0 <= u < dels.len() && (#[trigger] dels[u]).0 == e;
                assert(u != 0);
                assert(rest[u - 1] == dels[u]);
            }
        }
        assert forall|e: u32| has_id(rest, e) implies value_of(rest, e) == value_of(dels, e) by {
            let t = choose|t: int| 0 <= t < rest.len() && (#[trigger] rest[t]).0 == e;
            assert(rest[t] == dels[t + 1]);
            lemma_value_of_at(rest, t);
            lemma_value_of_at(dels, t + 1);
        }
        assert(apply_dels(s, dels) == apply_dels(s1, rest));
    }
}

/// The summed size `dels` lists under id `e`.
pub open spec fn del_total(dels: Seq<(u32, u64)>, e: u32) -> int
    decreases dels.len(),
{
    if dels.len() == 0 {
        0
    } else {
        (if dels[0].0 == e { dels[0].1 as int } else { 0int }) + del_total(dels.drop_first(), e)
    }
}

/// Taking any list of pairs off, one by one: each id loses everything listed
/// under it, and drops out when that leaves nothing.
pub proof fn lemma_apply_dels_total(s: Seq<(u32, u64)>, dels: Seq<(u32, u64)>)
    requires
        ids_distinct(s),
    ensures
        ids_distinct(apply_dels(s, dels)),
        forall|e: u32| #[trigger] has_id(apply_dels(s, dels), e) <==>
            has_id(s, e) && !(has_id(dels, e) && value_of(s, e) <= del_total(dels, e)),
        forall|e: u32| #[trigger] has_id(apply_dels(s, dels), e) ==>
            value_of(apply_dels(s, dels), e) == value_of(s, e) - del_total(dels, e),
    decreases dels.len(),
{
    if dels.len() == 0 {
        assert forall|e: u32| !has_id(dels, e) by {}
    } else {
        let x = dels[0];
        let rest = dels.drop_first();
        let s1 = apply_del(s, x);
        lemma_apply_del(s, x);
        lemma_apply_dels_total(s1, rest);
        assert forall|e: u32| has_id(dels, e) <==> e == x.0 || has_id(rest, e) by {
            if has_id(dels, e) && e != x.0 {
                let u = choose|u: int| 0 <= u < dels.len() && (#[trigger] dels[u]).0 == e;
                assert(u != 0);
                assert(rest[u - 1] == dels[u]);
            }
            if has_id(rest, e) {
                let t = choose|t: int| 0 <= t < rest.len() && (#[trigger] rest[t]).0 == e;
                assert(rest[t] == dels[t + 1]);
            }
            if e == x.0 {
                assert(dels[0].0 == e);
            }
        }
        assert forall|e: u32| del_total(rest, e) >= 0 && (!has_id(rest, e) ==> del_total(rest, e) == 0) by {
            lemma_del_total_nonneg(rest, e);
        }
        assert(apply_dels(s, dels) == apply_dels(s1, rest));
        let r = apply_dels(s, dels);
        assert forall|e: u32| #[trigger] has_id(r, e) <==>
            has_id(s, e) && !(has_id(dels, e) && value_of(s, e) <= del_total(dels, e)) by {
            assert(del_total(dels, e) == (if x.0 == e { x.1 as int } else { 0int }) + del_total(rest, e));
            if has_id(s1, e) {
                assert(value_of(s1, e) == value_of(s, e) - (if e == x.0 { x.1 as int } else { 0int }));
            }
        }
        assert forall|e: u32| #[trigger] has_id(r, e) implies value_of(r, e) == value_of(s, e) - del_total(dels, e) by {
            assert(del_total(dels, e) == (if x.0 == e { x.1 as int } else { 0int }) + del_total(rest, e));
        }
    }
}

proof fn lemma_del_total_nonneg(dels: Seq<(u32, u64)>, e: u32)
    ensures
        del_total(dels, e) >= 0,
        !has_id(dels, e) ==> del_total(dels, e) == 0,
    decreases dels.len(),
{
    if dels.len() > 0 {
        lemma_del_total_nonneg(dels.drop_first(), e);
        if has_id(dels.drop_first(), e) {
            let t = choose|t: int| 0 <= t < dels.drop_first().len() && (#[trigger] dels.drop_first()[t]).0 == e;
            assert(dels[t + 1].0 == e);
        }
        if dels[0].0 == e {
            assert(has_id(dels, e));
        }
    }
}

/// Two lists holding the same pairs, the first with distinct ids, agree on
/// which ids they hold and on their values.
pub proof fn lemma_same_pairs(s1: Seq<(u32, u64)>, s2: Seq<(u32, u64)>)
    requires
        s1.to_multiset() == s2.to_multiset(),
        ids_distinct(s1),
    ensures
        ids_distinct(s2),
        forall|e: u32| #[trigger] has_id(s2, e) <==> has_id(s1, e),
        forall|e: u32| #[trigger] has_id(s2, e) ==> value_of(s2, e) == value_of(s1, e),
{
    broadcast use vstd::multiset::group_multiset_axioms;
    s1.to_multiset_ensures();
    s2.to_multiset_ensures();
    assert forall|p: (u32, u64)| #[trigger] s2.contains(p) <==> s1.contains(p) by {
        assert(s1.to_multiset().count(p) == s2.to_multiset().count(p));
        assert(s1.contains(p) <==> s1.to_multiset().count(p) > 0);
        assert(s2.contains(p) <==> s2.to_multiset().count(p) > 0);
    }
    assert forall|a: int, b: int| 0 <= a < b < s2.len() implies (#[trigger] s2[a]).0 != (#[trigger] s2[b]).0 by {
        if s2[a].0 == s2[b].0 {
            assert(s2.contains(s2[a]));
            assert(s2.contains(s2[b]));
            let ua = choose|u: int| 0 <= u < s1.len() && s1[u] == s2[a];
            let ub = choose|u: int| 0 <= u < s1.len() && s1[u] == s2[b];
            if ua != ub {
                if ua < ub {
                    assert(s1[ua].0 != s1[ub].0);
                } else {
                    assert(s1[ub].0 != s1[ua].0);
                }
            } else {
                // The same pair twice in `s2` would be twice in `s1`.
                assert(s2[a] == s2[b]);
                lemma_two_copies(s2, a, b);
                assert(s1.to_multiset().count(s2[a]) >= 2);
                lemma_distinct_single_copy(s1, s2[a]);
            }
        }
    }
    assert forall|e: u32| #[trigger] has_id(s2, e) <==> has_id(s1, e) by {
        if has_id(s2, e) {
            let t = choose|t: int| 0 <= t < s2.len() && (#[trigger] s2[t]).0 == e;
            assert(s2.contains(s2[t]));
            let u = choose|u: int| 0 <= u < s1.len() && s1[u] == s2[t];
            assert(s1[u].0 == e);
        }
        if has_id(s1, e) {
            let u = choose|u: int| 0 <= u < s1.len() && (#[trigger] s1[u]).0 == e;
            assert(s1.contains(s1[u]));
            assert(s2.contains(s1[u]));
            let t = choose|t: int| 0 <= t < s2.len() && s2[t] == s1[u];
            assert(s2[t].0 == e);
        }
    }
    assert forall|e: u32| #[trigger] has_id(s2, e) implies value_of(s2, e) == value_of(s1, e) by {
        let t = choose|t: int| 0 <= t < s2.len() && (#[trigger] s2[t]).0 == e;
        assert(s2.contains(s2[t]));
        let u = choose|u: int| 0 <= u < s1.len() && s1[u] == s2[t];
        lemma_value_of_at(s2, t);
        lemma_value_of_at(s1, u);
    }
}

/// Two positions holding the same pair count it twice.
proof fn lemma_two_copies(s: Seq<(u32, u64)>, a: int, b: int)
    requires
        0 <= a < b < s.len(),
        s[a] == s[b],
    ensures
        s.to_multiset().count(s[a]) >= 2,
    decreases s.len(),
{
    broadcast use vstd::multiset::group_multiset_axioms;
    let d = s.drop_last();
    assert(s =~= d.push(s.last()));
    if b == s.len() - 1 {
        assert(d.contains(s[a])) by {
            assert(d[a] == s[a]);
        }
        assert(d.to_multiset().count(s[a]) >= 1);
    } else {
        assert(d[a] == s[a]);
        assert(d[b] == s[b]);
        lemma_two_copies(d, a, b);
    }
}

/// With distinct ids, a pair occurs at most once.
proof fn lemma_distinct_single_copy(s: Seq<(u32, u64)>, p: (u32, u64))
    requires
        ids_distinct(s),
    ensures
        s.to_multiset().count(p) <= 1,
    decreases s.len(),
{
    broadcast use vstd::multiset::group_multiset_axioms;
    if s.len() > 0 {
        let d = s.drop_last();
        assert(s =~= d.push(s.last()));
        assert forall|a: int, b: int| 0 <= a < b < d.len() implies (#[trigger] d[a]).0 != (#[trigger] d[b]).0 by {
            assert(d[a] == s[a]);
            assert(d[b] == s[b]);
        }
        lemma_distinct_single_copy(d, p);
        if s.last() == p && d.contains(p) {
            let t = choose|t: int| 0 <= t < d.len() && d[t] == p;
            assert(d[t] == s[t]);
            assert(s[t].0 != s[s.len() - 1].0);
        }
        if s.last() == p {
            assert(!d.contains(p) ==> d.to_multiset().count(p) == 0);
        }
    }
}


/// In a finished scan whose parents are all directories, removing the
/// subtree at `idx` takes the sizes of the removed files off the extension
/// list of every directory above it: extension `e` stays listed, with its
/// size less the removed files' sizes, unless files of it were removed and
/// no size of it is left.
pub proof fn law_removal_takes_sizes_off_file_types(
    before: ScanTree,
    ns: Seq<Node>,
    root: int,
    after_stats: Map<u32, DirStats>,
    idx: int,
    a: u32,
    e: u32,
)
    requires
        arena_ready(ns, root),
        numbers_ready(ns, before.scan_now_secs),
        finalized_from(before, ns, root, before.scan_now_secs),
        parents_are_dirs(ns),
        0 <= idx < ns.len(),
        removal_stats(before, idx, before.scan_now_secs, after_stats),
        is_ancestor(parents_of(ns), a as int, idx),
        (e as int) < before.ext_names@.len(),
    ensures
        after_stats.contains_key(a),
        ({
            let ps = parents_of(ns);
            let key = before.ext_names@[e as int]@;
            let ca = tree_total(ps, ext_count_w(ns, key), a as int);
            let cx = tree_total(ps, ext_count_w(ns, key), idx);
            let va = tree_total(ps, ext_size_w(ns, key), a as int);
            let vx = tree_total(ps, ext_size_w(ns, key), idx);
            &&& has_id(after_stats[a].exts@, e) <==> ca > 0 && !(cx > 0 && va <= vx)
            &&& has_id(after_stats[a].exts@, e) ==> value_of(after_stats[a].exts@, e) == va - vx
        }),
{
    let now = before.scan_now_secs;
    let ps = parents_of(ns);
    let dp = dir_parents(ns);
    let o = before.nodes@;
    let names = before.ext_names@;
    let ai = a as int;
    let key = names[e as int]@;
    assert(dp =~= ps) by {
        assert forall|j: int| 0 <= j < ns.len() implies dp[j] == ps[j] by {
            assert(ns[j].parent matches Some(p) ==> (p as int) < ns.len() && ns[p as int].is_dir);
        }
    }
    lemma_ancestor_is_dir(ns, ai, idx);
    lemma_ancestor_below(ps, ai, idx);
    assert(parents_of(o) =~= ps) by {
        assert forall|j: int| 0 <= j < o.len() implies parents_of(o)[j] == ps[j] by {
            assert(node_aggregated(ns, o, j));
        }
    }
    let m0 = before.dir_stats@;
    assert(stats_match(ns, now as int, names, m0));
    assert(m0.contains_key(a));
    assert(dir_stats_match(ns, now as int, names, ai, m0[a]));
    assert(node_aggregated(ns, o, idx));
    let x = o[idx];
    assert(m0.contains_key(idx as u32) <==> ((idx as u32) as int) < ns.len() && ns[(idx as u32) as int].is_dir);
    assert(x.is_dir == ns[idx].is_dir);
    let m1 = stats_left(before, idx);
    let dh = if x.is_dir { m0[idx as u32].age_hist@ } else { file_delta_hist(x, now) };
    let dx = if x.is_dir { m0[idx as u32].exts@ } else { file_delta_exts(x, names) };
    assert(m1.contains_key(a));
    assert(m1[a] == m0[a]);
    assert(is_ancestor(parents_of(o), ai, idx));
    assert(stats_reduced(m1[a], dh, dx, after_stats[a]));
    let s = m0[a].exts@;
    let ca = tree_total(ps, ext_count_w(ns, key), ai);
    let cx = tree_total(ps, ext_count_w(ns, key), idx);
    let va = tree_total(ps, ext_size_w(ns, key), ai);
    let vx = tree_total(ps, ext_size_w(ns, key), idx);
    // What the directory listed before.
    assert(has_id(s, e) <==> ca > 0);
    if has_id(s, e) {
        let t = choose|t: int| 0 <= t < s.len() && (#[trigger] s[t]).0 == e;
        lemma_value_of_at(s, t);
    }
    // What is taken off.
    assert(nonneg_on(ext_count_w(ns, key), ns.len() as int));
    assert(nonneg_on(ext_size_w(ns, key), ns.len() as int));
    lemma_zero_total_transfers(ps, ext_count_w(ns, key), ext_size_w(ns, key), idx);
    lemma_totals_nonneg(ps, ext_count_w(ns, key), idx);
    if x.is_dir {
        assert(m0.contains_key(idx as u32));
        assert(dir_stats_match(ns, now as int, names, idx, m0[idx as u32]));
        assert(has_id(dx, e) <==> cx > 0);
        if has_id(dx, e) {
            let t = choose|t: int| 0 <= t < dx.len() && (#[trigger] dx[t]).0 == e;
            lemma_value_of_at(dx, t);
            assert(dx[t].1 == tree_total(dp, ext_size_w(ns, names[e as int]@), idx));
            assert(value_of(dx, e) == vx);
        }
    } else {
        assert(ext_names_match(ns, names));
        assert(ext_is_named(names, ext_key(ns[idx].name@)));
        lemma_first_name_index(names, ext_key(x.name@));
        let e0 = first_name_index(names, ext_key(x.name@));
        assert(e0 >= 0);
        assert(dx == seq![(e0 as u32, x.size)]);
        lemma_file_childless(ns, ext_count_w(ns, key), idx, idx + 1);
        lemma_file_childless(ns, ext_size_w(ns, key), idx, idx + 1);
        assert(names[e0]@ == ext_key(ns[idx].name@));
        if e0 != e as int {
            assert(names[e as int]@ != names[e0]@) by {
                if e0 < e as int {
                    assert(names[e0]@ != names[e as int]@);
                }
            }
        }
        assert(has_id(dx, e) <==> e0 == e as int) by {
            if has_id(dx, e) {
                let t = choose|t: int| 0 <= t < dx.len() && (#[trigger] dx[t]).0 == e;
            }
            if e0 == e as int {
                assert(dx[0].0 == e);
            }
        }
        if e0 == e as int {
            lemma_value_of_at(dx, 0);
            lemma_file_childless(ns, size_w(ns), idx, idx + 1);
            assert(x.size == ns[idx].size);
            assert(x.name == ns[idx].name);
            assert(ext_size_w(ns, key)(idx) == x.size);
            assert(value_of(dx, e) == vx);
        }
    }
    lemma_apply_dels(s, dx);
    lemma_same_pairs(apply_dels(s, dx), after_stats[a].exts@);
    let r = apply_dels(s, dx);
    let f = after_stats[a].exts@;
    assert(has_id(f, e) <==> has_id(r, e));
    assert(!has_id(dx, e) ==> value_of(dx, e) == 0);
    assert(has_id(dx, e) ==> value_of(dx, e) == vx);
    assert(!has_id(dx, e) ==> vx == 0);
    assert(has_id(s, e) ==> value_of(s, e) == va);
    assert(has_id(f, e) ==> value_of(f, e) == value_of(r, e));
}

/// The extension totals that removing the subtree at `idx` takes off each
/// ancestor: a removed directory's own list (nothing when it has no
/// statistics), or a removed file's size under its interned extension.
pub open spec fn removed_exts(o: ScanTree, idx: int) -> Seq<(u32, u64)> {
    let x = o.nodes@[idx];
    if x.is_dir {
        if o.dir_stats@.contains_key(idx as u32) { o.dir_stats@[idx as u32].exts@ } else { Seq::empty() }
    } else {
        file_delta_exts(x, o.ext_names@)
    }
}

/// In any tree, removing the subtree at `idx` takes the removed extension
/// totals off the list of every directory above it that has statistics: an
/// extension whose removed size reaches what was listed drops out, every
/// other one keeps its size less what was removed of it, and the list still
/// names each extension once, largest first.
pub proof fn law_removal_updates_ancestor_file_types(
    before: ScanTree,
    idx: int,
    now: i64,
    after_stats: Map<u32, DirStats>,
    a: u32,
)
    requires
        0 <= idx < before.nodes@.len(),
        idx <= u32::MAX,
        removal_stats(before, idx, now, after_stats),
        is_ancestor(parents_of(before.nodes@), a as int, idx),
        before.dir_stats@.contains_key(a),
        ids_distinct(before.dir_stats@[a].exts@),
        sorted_by_weight_desc(before.dir_stats@[a].exts@),
    ensures
        after_stats.contains_key(a),
        ids_distinct(after_stats[a].exts@),
        sorted_by_weight_desc(after_stats[a].exts@),
        forall|e: u32| #[trigger] has_id(after_stats[a].exts@, e) <==> has_id(before.dir_stats@[a].exts@, e)
            && !(has_id(removed_exts(before, idx), e)
                && value_of(before.dir_stats@[a].exts@, e) <= del_total(removed_exts(before, idx), e)),
        forall|e: u32| #[trigger] has_id(after_stats[a].exts@, e) ==> value_of(after_stats[a].exts@, e)
            == value_of(before.dir_stats@[a].exts@, e) - del_total(removed_exts(before, idx), e),
{
    let o = before.nodes@;
    let m0 = before.dir_stats@;
    let m1 = stats_left(before, idx);
    let x = o[idx];
    let s = m0[a].exts@;
    let dx = removed_exts(before, idx);
    lemma_ancestor_below(parents_of(o), a as int, idx);
    assert((idx as u32) as int == idx);
    assert(a != idx as u32);
    assert(m1.contains_key(a));
    assert(m1[a] == m0[a]);
    let has_del = !x.is_dir || m0.contains_key(idx as u32);
    if has_del {
        assert(stats_reduced(m1[a], if x.is_dir { m0[idx as u32].age_hist@ } else { file_delta_hist(x, now) }, dx, after_stats[a]));
        lemma_apply_dels_total(s, dx);
        lemma_same_pairs(apply_dels(s, dx), after_stats[a].exts@);
    } else {
        assert(after_stats[a] == m0[a]);
        assert(dx =~= Seq::<(u32, u64)>::empty());
        assert forall|e: u32| !has_id(dx, e) by {}
    }
}

} // verus!
