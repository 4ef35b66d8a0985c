//! Checks of the shape the slicing and removal operations rely on, so that a
//! caller holding a tree of unknown origin can test it before use.

use vstd::prelude::*;

use crate::commands::stats::{lemma_pair_sum_nonneg, lemma_pair_sum_split, min_int, pair_sum, stats_summable, TOP_FILE_TYPES};
use crate::commands::view::viewable;
use crate::commands::visible::{all_in, lemma_range_sum_nonneg, lemma_range_sum_split, range_sum, sizes_of};
use crate::scanner::arena::{parents_of, parents_precede, Node};
use crate::scanner::remove::removable;
use crate::scanner::tree::{children_listed_once, DirStats, ScanTree};

verus! {

broadcast use vstd::std_specs::hash::group_hash_axioms;

/// Whether every parent index comes before its child.
fn parents_ordered(nodes: &Vec<Node>) -> (r: bool)
    ensures
        r == parents_precede(parents_of(nodes@)),
{
    let mut j: usize = 0;
    while j < nodes.len()
        invariant
            j <= nodes.len(),
            forall|i: int| 0 <= i < j ==> (#[trigger] parents_of(nodes@)[i] matches Some(p) ==> p < i),
        decreases nodes.len() - j,
    {
        match nodes[j].parent {
            Some(p) => {
                if p as usize >= j {
                    assert(parents_of(nodes@)[j as int] == Some(p));
                    return false;
                }
            },
            None => {},
        }
        assert(parents_of(nodes@)[j as int] == nodes@[j as int].parent);
        j = j + 1;
    }
    true
}

/// Whether the children list `cs` names nodes of the arena and their sizes
/// add up within `u64`.
fn children_summable(nodes: &Vec<Node>, cs: &Vec<u32>) -> (r: bool)
    ensures
        r == (all_in(nodes@, cs@) && range_sum(sizes_of(nodes@, cs@), 0, cs@.len() as int) <= u64::MAX),
{
    let ghost s = sizes_of(nodes@, cs@);
    assert(forall|i: int| 0 <= i < s.len() ==> #[trigger] s[i] >= 0);
    let mut acc: u64 = 0;
    let mut j: usize = 0;
    while j < cs.len()
        invariant
            j <= cs.len(),
            s == sizes_of(nodes@, cs@),
            forall|i: int| 0 <= i < s.len() ==> #[trigger] s[i] >= 0,
            forall|t: int| 0 <= t < j ==> (#[trigger] cs@[t] as int) < nodes@.len(),
            acc as int == range_sum(s, 0, j as int),
        decreases cs.len() - j,
    {
        let c = cs[j];
        if c as usize >= nodes.len() {
            return false;
        }
        proof {
            lemma_range_sum_split(s, 0, (j + 1) as int, cs@.len() as int);
            lemma_range_sum_nonneg(s, (j + 1) as int, cs@.len() as int);
        }
        let sz = nodes[c as usize].size;
        if acc > u64::MAX - sz {
            return false;
        }
        acc = acc + sz;
        j = j + 1;
    }
    true
}

/// Whether the statistics `s` can be summarised against the tree's names.
fn summable(tree: &ScanTree, s: &DirStats) -> (r: bool)
    ensures
        r == stats_summable(*tree, *s),
{
    let ghost e = s.exts@;
    let n = s.exts.len();
    let shown = if n < TOP_FILE_TYPES { n } else { TOP_FILE_TYPES };
    let mut i: usize = 0;
    while i < shown
        invariant
            i <= shown,
            shown == min_int(n as int, TOP_FILE_TYPES as int),
            n == e.len(),
            e == s.exts@,
            forall|t: int| 0 <= t < i ==> (#[trigger] e[t]).0 < tree.ext_names@.len(),
        decreases shown - i,
    {
        if s.exts[i].0 as usize >= tree.ext_names.len() {
            return false;
        }
        i = i + 1;
    }
    let mut acc: u64 = 0;
    let mut j: usize = TOP_FILE_TYPES;
    if n < TOP_FILE_TYPES {
        assert(pair_sum(e, TOP_FILE_TYPES as int, n as int) == 0);
        return true;
    }
    while j < n
        invariant
            TOP_FILE_TYPES <= j <= n,
            n == e.len(),
            e == s.exts@,
            acc as int == pair_sum(e, TOP_FILE_TYPES as int, j as int),
        decreases n - j,
    {
        proof {
            lemma_pair_sum_split(e, TOP_FILE_TYPES as int, (j + 1) as int, n as int);
            lemma_pair_sum_nonneg(e, (j + 1) as int, n as int);
        }
        let sz = s.exts[j].1;
        if acc > u64::MAX - sz {
            return false;
        }
        acc = acc + sz;
        j = j + 1;
    }
    true
}

/// Whether a tree can be sliced: what `viewable` states.
pub fn is_viewable(tree: &ScanTree) -> (r: bool)
    ensures
        r == viewable(*tree),
{
    let ghost ns = tree.nodes@;
    let n = tree.nodes.len();
    if n > 0xFFFF_FFFF {
        return false;
    }
    if !parents_ordered(&tree.nodes) {
        return false;
    }
    let mut k: usize = 0;
    while k < n
        invariant
            n == ns.len(),
            ns == tree.nodes@,
            k <= n,
            forall|i: int| 0 <= i < k ==> #[trigger] all_in(ns, ns[i].children@),
            forall|i: int| 0 <= i < k ==> range_sum(#[trigger] sizes_of(ns, ns[i].children@), 0, ns[i].children@.len() as int) <= u64::MAX,
        decreases n - k,
    {
        if !children_summable(&tree.nodes, &tree.nodes[k].children) {
            return false;
        }
        k = k + 1;
    }
    let mut x: usize = 0;
    while x < n
        invariant
            n == ns.len(),
            ns == tree.nodes@,
            n <= u32::MAX,
            x <= n,
            forall|y: u32| (y as int) < x && #[trigger] tree.dir_stats@.contains_key(y) ==> stats_summable(*tree, tree.dir_stats@[y]),
        decreases n - x,
    {
        let key = x as u32;
        match tree.dir_stats.get(&key) {
            Some(st) => {
                if !summable(tree, st) {
                    return false;
                }
            },
            None => {},
        }
        x = x + 1;
    }
    true
}

/// Whether node `k` lists its children once each, as nodes of the arena,
/// given an all-clear mark table; the table is left clear.
fn children_once(nodes: &Vec<Node>, k: usize, seen: &mut Vec<bool>) -> (r: bool)
    requires
        k < nodes@.len(),
        old(seen)@.len() == nodes@.len(),
        forall|x: int| 0 <= x < old(seen)@.len() ==> !(#[trigger] old(seen)@[x]),
    ensures
        r == children_listed_once(nodes@, k as int),
        final(seen)@.len() == nodes@.len(),
        forall|x: int| 0 <= x < final(seen)@.len() ==> !(#[trigger] final(seen)@[x]),
{
    let ghost cs = nodes@[k as int].children@;
    let n = nodes.len();
    let m = nodes[k].children.len();
    let mut ok = true;
    let mut t: usize = 0;
    while t < m
        invariant_except_break
            ok,
        invariant
            n == nodes@.len(),
            k < n,
            cs == nodes@[k as int].children@,
            m == cs.len(),
            t <= m,
            seen@.len() == n,
            forall|q: int| 0 <= q < t ==> (#[trigger] cs[q] as int) < n,
            forall|a: int, b: int| 0 <= a < b < t ==> cs[a] != cs[b],
            forall|x: int| 0 <= x < n ==> (#[trigger] seen@[x] <==> exists|q: int| 0 <= q < t && cs[q] as int == x),
        ensures
            seen@.len() == n,
            ok ==> t == m,
            forall|q: int| 0 <= q < t ==> (#[trigger] cs[q] as int) < n,
            forall|x: int| 0 <= x < n ==> (#[trigger] seen@[x] <==> exists|q: int| 0 <= q < t && cs[q] as int == x),
            !ok ==> !children_listed_once(nodes@, k as int),
            ok ==> children_listed_once(nodes@, k as int),
        decreases m - t,
    {
        let c = nodes[k].children[t];
        if c as usize >= n {
            ok = false;
            assert(!children_listed_once(nodes@, k as int)) by {
                assert((cs[t as int] as int) >= nodes@.len());
            }
            break;
        }
        if seen[c as usize] {
            ok = false;
            assert(!children_listed_once(nodes@, k as int)) by {
                let q = choose|q: int| 0 <= q < t && cs[q] as int == c as int;
                assert(cs[q] == cs[t as int]);
            }
            break;
        }
        seen.set(c as usize, true);
        proof {
            assert forall|x: int| 0 <= x < n implies (#[trigger] seen@[x] <==> exists|q: int| 0 <= q < t + 1 && cs[q] as int == x) by {
                if x == c as int {
                    assert(cs[t as int] as int == x);
                } else {
                    if exists|q: int| 0 <= q < t + 1 && cs[q] as int == x {
                        let q = choose|q: int| 0 <= q < t + 1 && cs[q] as int == x;
                        assert(q < t);
                    }
                }
            }
            assert forall|a: int, b: int| 0 <= a < b < t + 1 implies cs[a] != cs[b] by {
                if b == t {
                    if cs[a] == cs[b] {
                        assert(seen@[c as int]);
                    }
                }
            }
        }
        t = t + 1;
    }
    // Clear the marks set above.
    let mut u: usize = 0;
    while u < t
        invariant
            n == nodes@.len(),
            k < n,
            cs == nodes@[k as int].children@,
            t <= m,
            m == cs.len(),
            u <= t,
            seen@.len() == n,
            forall|q: int| 0 <= q < t ==> (#[trigger] cs[q] as int) < n,
            forall|x: int| 0 <= x < n ==> (#[trigger] seen@[x] ==> exists|q: int| u <= q < t && cs[q] as int == x),
        decreases t - u,
    {
        let c = nodes[k].children[u];
        seen.set(c as usize, false);
        proof {
            assert forall|x: int| 0 <= x < n implies (#[trigger] seen@[x] ==> exists|q: int| u + 1 <= q < t && cs[q] as int == x) by {
                if seen@[x] {
                    assert(x != c as int);
                    let q = choose|q: int| u <= q < t && cs[q] as int == x;
                    assert(q != u);
                }
            }
        }
        u = u + 1;
    }
    ok
}

/// Whether a tree has the shape removal relies on: what `removable` states.
pub fn is_removable(tree: &ScanTree) -> (r: bool)
    ensures
        r == removable(*tree),
{
    let ghost ns = tree.nodes@;
    let n = tree.nodes.len();
    if n > 0xFFFF_FFFF || tree.ext_names.len() > 0xFFFF_FFFF {
        return false;
    }
    if !parents_ordered(&tree.nodes) {
        return false;
    }
    let mut seen: Vec<bool> = Vec::new();
    let mut i: usize = 0;
    while i < n
        invariant
            i <= n,
            seen@.len() == i,
            forall|x: int| 0 <= x < i ==> !(#[trigger] seen@[x]),
        decreases n - i,
    {
        seen.push(false);
        i = i + 1;
    }
    let mut k: usize = 0;
    while k < n
        invariant
            n == ns.len(),
            ns == tree.nodes@,
            k <= n,
            seen@.len() == n,
            forall|x: int| 0 <= x < n ==> !(#[trigger] seen@[x]),
            forall|j: int| 0 <= j < k ==> #[trigger] children_listed_once(ns, j),
        decreases n - k,
    {
        if !children_once(&tree.nodes, k, &mut seen) {
            return false;
        }
        k = k + 1;
    }
    true
}

} // verus!
