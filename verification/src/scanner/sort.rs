//! Ordering largest first: `(id, weight)` pairs by their weight, and node
//! indices by the weight each selects.

use vstd::prelude::*;

use super::accum::ids_distinct;

verus! {

broadcast use vstd::seq_lib::group_to_multiset_ensures;

/// Weights never increase along the sequence.
pub open spec fn sorted_by_weight_desc(s: Seq<(u32, u64)>) -> bool {
    forall|a: int, b: int| 0 <= a < b < s.len() ==> (#[trigger] s[a]).1 >= (#[trigger] s[b]).1
}

proof fn lemma_swap_multiset<A>(s: Seq<A>, i: int, j: int)
    requires
        0 <= i < s.len(),
        0 <= j < s.len(),
        i != j,
    ensures
        s.update(i, s[j]).update(j, s[i]).to_multiset() =~= s.to_multiset(),
{
    broadcast use vstd::multiset::group_multiset_axioms;
    let s1 = s.update(i, s[j]);
    vstd::seq_lib::to_multiset_update(s, i, s[j]);
    vstd::seq_lib::to_multiset_update(s1, j, s[i]);
    assert(s1[j] == s[j]);
    assert(s.to_multiset().count(s[i]) > 0);
    assert(s.to_multiset().insert(s[j]).remove(s[i]).insert(s[i]).remove(s[j]) =~= s.to_multiset());
}

/// Sorts the pairs so that weights are non-increasing (insertion sort; the
/// order among equal weights is unspecified).
pub fn sort_by_weight_desc(v: &mut Vec<(u32, u64)>)
    ensures
        final(v)@.to_multiset() == old(v)@.to_multiset(),
        final(v)@.len() == old(v)@.len(),
        sorted_by_weight_desc(final(v)@),
        ids_distinct(old(v)@) ==> ids_distinct(final(v)@),
{
    let n = v.len();
    let mut i: usize = 0;
    while i < n
        invariant
            n == v.len(),
            i <= n,
            v@.to_multiset() == old(v)@.to_multiset(),
            ids_distinct(old(v)@) ==> ids_distinct(v@),
            forall|a: int, b: int| 0 <= a < b < i ==> (#[trigger] v@[a]).1 >= (#[trigger] v@[b]).1,
        decreases n - i,
    {
        let mut j: usize = i;
        while j > 0 && v[j - 1].1 < v[j].1
            invariant
                n == v.len(),
                i < n,
                j <= i,
                v@.to_multiset() == old(v)@.to_multiset(),
                ids_distinct(old(v)@) ==> ids_distinct(v@),
                forall|a: int, b: int| 0 <= a < b <= i && b != j ==> (#[trigger] v@[a]).1 >= (#[trigger] v@[b]).1,
                forall|b: int| j < b <= i ==> v@[j as int].1 > (#[trigger] v@[b]).1,
            decreases j,
        {
            let x = v[j];
            let y = v[j - 1];
            proof {
                lemma_swap_multiset(v@, j - 1, j as int);
            }
            let ghost before = v@;
            v.set(j - 1, x);
            v.set(j, y);
            proof {
                if ids_distinct(before) {
                    assert forall|a: int, b: int| 0 <= a < b < v@.len() implies (#[trigger] v@[a]).0 != (#[trigger] v@[b]).0 by {
                        let sa = if a == j - 1 { j as int } else if a == j { j - 1 } else { a };
                        let sb = if b == j - 1 { j as int } else if b == j { j - 1 } else { b };
                        assert(v@[a] == before[sa]);
                        assert(v@[b] == before[sb]);
                        assert(sa != sb);
                        if sa < sb {
                            assert(before[sa].0 != before[sb].0);
                        } else {
                            assert(before[sb].0 != before[sa].0);
                        }
                    }
                }
            }
            j = j - 1;
        }
        proof {
            assert forall|a: int, b: int| 0 <= a < b <= i implies (#[trigger] v@[a]).1 >= (#[trigger] v@[b]).1 by {
                if b == j && a < j - 1 {
                    assert(v@[a].1 >= v@[j - 1].1);
                }
            }
        }
        i = i + 1;
    }
}

/// The indices are ordered by the weight they select, largest first.
pub open spec fn indices_sorted_desc(s: Seq<u32>, w: Seq<u64>) -> bool {
    forall|a: int, b: int| 0 <= a < b < s.len() ==> w[(#[trigger] s[a]) as int] >= w[(#[trigger] s[b]) as int]
}

/// Merges two index lists, each ordered by weight largest first, into one
/// such list holding both.
fn merge_desc(a: &Vec<u32>, b: &Vec<u32>, w: &Vec<u64>) -> (r: Vec<u32>)
    requires
        indices_sorted_desc(a@, w@),
        indices_sorted_desc(b@, w@),
        forall|t: int| 0 <= t < a@.len() ==> (#[trigger] a@[t] as int) < w@.len(),
        forall|t: int| 0 <= t < b@.len() ==> (#[trigger] b@[t] as int) < w@.len(),
    ensures
        r@.to_multiset() == a@.to_multiset().add(b@.to_multiset()),
        r@.len() == a@.len() + b@.len(),
        indices_sorted_desc(r@, w@),
        forall|t: int| 0 <= t < r@.len() ==> (#[trigger] r@[t] as int) < w@.len(),
{
    broadcast use vstd::multiset::group_multiset_axioms;
    let mut r: Vec<u32> = Vec::new();
    let mut i: usize = 0;
    let mut j: usize = 0;
    proof {
        assert(a@.subrange(0, 0) =~= Seq::<u32>::empty());
        assert(b@.subrange(0, 0) =~= Seq::<u32>::empty());
        assert(r@.to_multiset() =~= a@.subrange(0, 0).to_multiset().add(b@.subrange(0, 0).to_multiset()));
    }
    while i < a.len() || j < b.len()
        invariant
            i <= a@.len(),
            j <= b@.len(),
            indices_sorted_desc(a@, w@),
            indices_sorted_desc(b@, w@),
            forall|t: int| 0 <= t < a@.len() ==> (#[trigger] a@[t] as int) < w@.len(),
            forall|t: int| 0 <= t < b@.len() ==> (#[trigger] b@[t] as int) < w@.len(),
            r@.to_multiset() == a@.subrange(0, i as int).to_multiset().add(b@.subrange(0, j as int).to_multiset()),
            r@.len() == i + j,
            indices_sorted_desc(r@, w@),
            forall|t: int| 0 <= t < r@.len() ==> (#[trigger] r@[t] as int) < w@.len(),
            r@.len() > 0 && i < a@.len() ==> w@[r@.last() as int] >= w@[a@[i as int] as int],
            r@.len() > 0 && j < b@.len() ==> w@[r@.last() as int] >= w@[b@[j as int] as int],
        decreases a@.len() + b@.len() - i - j,
    {
        let ghost before = r@;
        let take_a = if j >= b.len() {
            true
        } else if i < a.len() {
            w[a[i] as usize] >= w[b[j] as usize]
        } else {
            false
        };
        let x = if take_a { a[i] } else { b[j] };
        proof {
            assert forall|p: int, q: int| 0 <= p < q < before.len() + 1 implies w@[(#[trigger] before.push(x)[p]) as int]
                >= w@[(#[trigger] before.push(x)[q]) as int] by {
                if q == before.len() {
                    if p < before.len() - 1 {
                        assert(w@[before[p] as int] >= w@[before[before.len() - 1] as int]);
                    }
                } else {
                    assert(before.push(x)[p] == before[p]);
                    assert(before.push(x)[q] == before[q]);
                }
            }
        }
        r.push(x);
        proof {
            assert(r@ == before.push(x));
        }
        if take_a {
            proof {
                assert(a@.subrange(0, i + 1) =~= a@.subrange(0, i as int).push(a@[i as int]));
                assert(r@.to_multiset() =~= a@.subrange(0, i + 1).to_multiset().add(b@.subrange(0, j as int).to_multiset()));
                if i + 1 < a@.len() {
                    assert(w@[a@[i as int] as int] >= w@[a@[i + 1] as int]);
                }
            }
            i = i + 1;
        } else {
            proof {
                assert(b@.subrange(0, j + 1) =~= b@.subrange(0, j as int).push(b@[j as int]));
                assert(r@.to_multiset() =~= a@.subrange(0, i as int).to_multiset().add(b@.subrange(0, j + 1).to_multiset()));
                if j + 1 < b@.len() {
                    assert(w@[b@[j as int] as int] >= w@[b@[j + 1] as int]);
                }
            }
            j = j + 1;
        }
    }
    proof {
        assert(a@.subrange(0, a@.len() as int) =~= a@);
        assert(b@.subrange(0, b@.len() as int) =~= b@);
    }
    r
}

/// The indices of `v[lo..hi]` ordered by weight, largest first.
fn merge_sort_desc(v: &Vec<u32>, lo: usize, hi: usize, w: &Vec<u64>) -> (r: Vec<u32>)
    requires
        lo <= hi <= v@.len(),
        forall|t: int| 0 <= t < v@.len() ==> (#[trigger] v@[t] as int) < w@.len(),
    ensures
        r@.to_multiset() == v@.subrange(lo as int, hi as int).to_multiset(),
        r@.len() == hi - lo,
        indices_sorted_desc(r@, w@),
        forall|t: int| 0 <= t < r@.len() ==> (#[trigger] r@[t] as int) < w@.len(),
    decreases hi - lo,
{
    if hi - lo <= 1 {
        let mut r: Vec<u32> = Vec::new();
        if hi > lo {
            r.push(v[lo]);
        }
        proof {
            assert(r@ =~= v@.subrange(lo as int, hi as int));
        }
        r
    } else {
        let mid = lo + (hi - lo) / 2;
        let left = merge_sort_desc(v, lo, mid, w);
        let right = merge_sort_desc(v, mid, hi, w);
        proof {
            assert(v@.subrange(lo as int, hi as int) =~= v@.subrange(lo as int, mid as int) + v@.subrange(mid as int, hi as int));
            vstd::seq_lib::lemma_multiset_commutative(v@.subrange(lo as int, mid as int), v@.subrange(mid as int, hi as int));
        }
        merge_desc(&left, &right, w)
    }
}

/// Sorts indices so that the weights they select are non-increasing (merge
/// sort; the order among equal weights is unspecified).
pub fn sort_indices_by_weight_desc(v: &mut Vec<u32>, w: &Vec<u64>)
    requires
        forall|t: int| 0 <= t < old(v)@.len() ==> (#[trigger] old(v)@[t] as int) < w@.len(),
    ensures
        final(v)@.to_multiset() == old(v)@.to_multiset(),
        final(v)@.len() == old(v)@.len(),
        indices_sorted_desc(final(v)@, w@),
{
    let sorted = merge_sort_desc(v, 0, v.len(), w);
    proof {
        assert(old(v)@.subrange(0, old(v)@.len() as int) =~= old(v)@);
    }
    *v = sorted;
}

} // verus!
