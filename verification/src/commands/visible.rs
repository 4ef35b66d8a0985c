//! How many children of a node to show: at least a minimum, then more until
//! what stays hidden is no larger than the smallest tile shown, within a cap.

use vstd::prelude::*;

use crate::scanner::arena::Node;
use crate::scanner::tree::ScanTree;

verus! {

/// Children always shown when there are that many.
pub const MIN_SHOWN: usize = 12;

/// Sizes of the listed nodes.
pub open spec fn sizes_of(ns: Seq<Node>, cs: Seq<u32>) -> Seq<int> {
    cs.map_values(|c: u32| ns[c as int].size as int)
}

/// Sum of `s[a..b]`.
pub open spec fn range_sum(s: Seq<int>, a: int, b: int) -> int
    decreases b - a,
{
    if a >= b {
        0
    } else {
        range_sum(s, a, b - 1) + s[b - 1]
    }
}

/// The children from `offset` on; none when `offset` is past the end.
pub open spec fn rest_from(cs: Seq<u32>, offset: int) -> Seq<u32> {
    if offset < cs.len() { cs.subrange(offset, cs.len() as int) } else { Seq::empty() }
}

/// Every listed child is a node of the arena.
pub open spec fn all_in(ns: Seq<Node>, cs: Seq<u32>) -> bool {
    forall|t: int| 0 <= t < cs.len() ==> (#[trigger] cs[t] as int) < ns.len()
}

/// The sizes summed over `[a, b)` split at any `m` in between.
pub proof fn lemma_range_sum_split(s: Seq<int>, a: int, m: int, b: int)
    requires
        a <= m <= b,
    ensures
        range_sum(s, a, b) == range_sum(s, a, m) + range_sum(s, m, b),
    decreases b - m,
{
    if m < b {
        lemma_range_sum_split(s, a, m, b - 1);
    }
}

/// Sums of nonnegative values are nonnegative.
pub proof fn lemma_range_sum_nonneg(s: Seq<int>, a: int, b: int)
    requires
        forall|i: int| a <= i < b ==> #[trigger] s[i] >= 0,
    ensures
        range_sum(s, a, b) >= 0,
    decreases b - a,
{
    if a < b {
        lemma_range_sum_nonneg(s, a, b - 1);
    }
}

/// `r` is how many of the sizes `s` to show, capped by `max`: all of them up
/// to `MIN_SHOWN`; otherwise the first count from `MIN_SHOWN` up at which the
/// rest add up to at most the last shown, or the count reaches the cap.
pub open spec fn visible_ok(s: Seq<int>, max: int, r: int) -> bool {
    if s.len() <= 12 {
        r == s.len()
    } else {
        &&& 12 <= r
        &&& r <= s.len()
        &&& (range_sum(s, r, s.len() as int) <= s[r - 1] || r >= cap(s.len() as int, max))
        &&& forall|m: int| 12 <= m && m < r ==> #[trigger] range_sum(s, m, s.len() as int) > s[m - 1] && m < cap(s.len() as int, max)
    }
}

/// The smaller of the remaining count and the cap.
pub open spec fn cap(l: int, max: int) -> int {
    if l < max { l } else { max }
}

/// `r` is how many children of the list `cs` to show from `offset` on.
pub open spec fn is_visible_count(ns: Seq<Node>, cs: Seq<u32>, offset: int, max: int, r: int) -> bool {
    visible_ok(sizes_of(ns, rest_from(cs, offset)), max, r)
}

/// Number of children to show from `offset` on.  With at most `MIN_SHOWN`
/// remaining, all of them.  Otherwise the first count `n`, from `MIN_SHOWN`
/// up, at which the summed size of the children after the first `n` is at
/// most the size of the `n`-th, or at which `n` reaches the smaller of the
/// remaining count and `max`.  Children are taken in list order.
pub fn adaptive_visible_count(tree: &ScanTree, children: &[u32], offset: usize, max: usize) -> (r: usize)
    requires
        all_in(tree.nodes@, rest_from(children@, offset as int)),
        range_sum(sizes_of(tree.nodes@, rest_from(children@, offset as int)), 0, rest_from(children@, offset as int).len() as int) <= u64::MAX,
    ensures
        is_visible_count(tree.nodes@, children@, offset as int, max as int, r as int),
{
    let ghost rest = rest_from(children@, offset as int);
    let ghost s = sizes_of(tree.nodes@, rest);
    let start = if offset < children.len() { offset } else { children.len() };
    let l = children.len() - start;
    assert(rest.len() == l);
    if l <= MIN_SHOWN {
        return l;
    }
    let mut sizes: Vec<u64> = Vec::new();
    let mut total: u64 = 0;
    let mut i: usize = start;
    while i < children.len()
        invariant
            start <= i <= children.len(),
            l == children.len() - start,
            rest == children@.subrange(start as int, children@.len() as int),
            s == sizes_of(tree.nodes@, rest),
            all_in(tree.nodes@, rest),
            range_sum(s, 0, l as int) <= u64::MAX,
            sizes@.len() == i - start,
            forall|t: int| 0 <= t < sizes@.len() ==> sizes@[t] as int == #[trigger] s[t],
            total == range_sum(s, 0, (i - start) as int),
        decreases children.len() - i,
    {
        assert(rest[(i - start) as int] == children@[i as int]);
        let sz = tree.nodes[children[i] as usize].size;
        proof {
            assert forall|t: int| 0 <= t < l implies #[trigger] s[t] >= 0 by {}
            lemma_range_sum_split(s, 0, (i - start + 1) as int, l as int);
            lemma_range_sum_nonneg(s, (i - start + 1) as int, l as int);
        }
        sizes.push(sz);
        total = total + sz;
        i = i + 1;
    }
    let upper = if l < max { l } else { max };
    let mut shown_sum: u64 = 0;
    let mut j: usize = 0;
    while j < MIN_SHOWN
        invariant
            j <= MIN_SHOWN < l,
            sizes@.len() == l,
            forall|t: int| 0 <= t < sizes@.len() ==> sizes@[t] as int == #[trigger] s[t],
            total == range_sum(s, 0, l as int),
            total <= u64::MAX,
            shown_sum == range_sum(s, 0, j as int),
        decreases MIN_SHOWN - j,
    {
        proof {
            assert forall|t: int| 0 <= t < l implies #[trigger] s[t] >= 0 by {
                assert(sizes@[t] as int == s[t]);
            }
            lemma_range_sum_split(s, 0, (j + 1) as int, l as int);
            lemma_range_sum_nonneg(s, (j + 1) as int, l as int);
        }
        shown_sum = shown_sum + sizes[j];
        j = j + 1;
    }
    let mut n: usize = MIN_SHOWN;
    loop
        invariant
            MIN_SHOWN <= n <= l,
            MIN_SHOWN < l,
            s == sizes_of(tree.nodes@, rest_from(children@, offset as int)),
            sizes@.len() == l,
            s.len() == l,
            forall|t: int| 0 <= t < sizes@.len() ==> sizes@[t] as int == #[trigger] s[t],
            total == range_sum(s, 0, l as int),
            shown_sum == range_sum(s, 0, n as int),
            upper == cap(l as int, max as int),
            forall|m: int| 12 <= m && m < n ==> #[trigger] range_sum(s, m, l as int) > s[m - 1] && m < upper,
        decreases l - n,
    {
        proof {
            assert forall|t: int| 0 <= t < l implies #[trigger] s[t] >= 0 by {
                assert(sizes@[t] as int == s[t]);
            }
            lemma_range_sum_split(s, 0, n as int, l as int);
            lemma_range_sum_nonneg(s, n as int, l as int);
        }
        let hidden = total - shown_sum;
        if hidden <= sizes[n - 1] || n >= upper {
            assert(sizes@[n - 1] as int == s[n - 1]);
            assert(visible_ok(s, max as int, n as int));
            return n;
        }
        proof {
            lemma_range_sum_split(s, 0, (n + 1) as int, l as int);
            lemma_range_sum_nonneg(s, (n + 1) as int, l as int);
        }
        shown_sum = shown_sum + sizes[n];
        n = n + 1;
    }
}

} // verus!
