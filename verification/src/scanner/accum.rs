//! Per-directory accumulator of file-type totals: extension id to summed size.

use std::collections::HashMap;
use vstd::prelude::*;

verus! {

broadcast use vstd::std_specs::hash::group_hash_axioms;

/// Extension id to summed size, with the ids in the order they first arrived.
pub struct ExtAccum {
    pub sums: HashMap<u32, u64>,
    pub keys: Vec<u32>,
}

/// No id occurs twice in the sequence.
pub open spec fn ids_distinct(s: Seq<(u32, u64)>) -> bool {
    forall|a: int, b: int| 0 <= a < b < s.len() ==> (#[trigger] s[a]).0 != (#[trigger] s[b]).0
}

/// `e` occurs as an id of `s`.
pub open spec fn has_id(s: Seq<(u32, u64)>, e: u32) -> bool {
    exists|t: int| 0 <= t < s.len() && (#[trigger] s[t]).0 == e
}

/// The value paired with `e` in `s` (0 when absent; `s` has distinct ids).
pub open spec fn value_of(s: Seq<(u32, u64)>, e: u32) -> int {
    if has_id(s, e) {
        s[choose|t: int| 0 <= t < s.len() && (#[trigger] s[t]).0 == e].1 as int
    } else {
        0
    }
}

pub proof fn lemma_value_of_at(s: Seq<(u32, u64)>, t: int)
    requires
        ids_distinct(s),
        0 <= t < s.len(),
    ensures
        has_id(s, s[t].0),
        value_of(s, s[t].0) == s[t].1,
{
    let e = s[t].0;
    assert(has_id(s, e));
    let c = choose|x: int| 0 <= x < s.len() && (#[trigger] s[x]).0 == e;
    if c != t {
        if c < t {
            assert(s[c].0 != s[t].0);
        } else {
            assert(s[t].0 != s[c].0);
        }
    }
}

impl ExtAccum {
    /// The keys list and the map describe the same ids, each once.
    pub open spec fn wf(&self) -> bool {
        &&& forall|a: int, b: int| 0 <= a < b < self.keys@.len() ==> self.keys@[a] != self.keys@[b]
        &&& forall|e: u32| self.sums@.contains_key(e) <==> self.keys@.contains(e)
    }

    pub fn new() -> (r: ExtAccum)
        ensures
            r.wf(),
            r.sums@ == Map::<u32, u64>::empty(),
    {
        ExtAccum { sums: HashMap::new(), keys: Vec::new() }
    }

    /// The accumulated pairs, in key order.
    pub fn pairs(&self) -> (r: Vec<(u32, u64)>)
        requires
            self.wf(),
        ensures
            ids_distinct(r@),
            forall|e: u32| #[trigger] has_id(r@, e) <==> self.sums@.contains_key(e),
            forall|t: int| 0 <= t < r@.len() ==> self.sums@[(#[trigger] r@[t]).0] == r@[t].1,
    {
        let mut r: Vec<(u32, u64)> = Vec::new();
        let mut i: usize = 0;
        while i < self.keys.len()
            invariant
                self.wf(),
                i <= self.keys.len(),
                r@.len() == i,
                forall|t: int| 0 <= t < i ==> (#[trigger] r@[t]).0 == self.keys@[t],
                forall|t: int| 0 <= t < i ==> self.sums@[(#[trigger] r@[t]).0] == r@[t].1,
            decreases self.keys.len() - i,
        {
            let e = self.keys[i];
            assert(self.keys@.contains(e));
            let v = *self.sums.get(&e).unwrap();
            r.push((e, v));
            i = i + 1;
        }
        assert forall|a: int, b: int| 0 <= a < b < r@.len() implies (#[trigger] r@[a]).0 != (#[trigger] r@[b]).0 by {
            assert(self.keys@[a] != self.keys@[b]);
        }
        assert forall|e: u32| #[trigger] has_id(r@, e) <==> self.sums@.contains_key(e) by {
            if self.sums@.contains_key(e) {
                assert(self.keys@.contains(e));
                let t = choose|t: int| 0 <= t < self.keys@.len() && self.keys@[t] == e;
                assert(r@[t].0 == e);
            }
            if has_id(r@, e) {
                let t = choose|t: int| 0 <= t < r@.len() && (#[trigger] r@[t]).0 == e;
                assert(self.keys@[t] == e);
                assert(self.keys@.contains(e));
            }
        }
        r
    }

    /// Adds every pair of `pairs` into the accumulator, summing the values of
    /// ids already present.
    pub fn merge(&mut self, pairs: &Vec<(u32, u64)>)
        requires
            old(self).wf(),
            ids_distinct(pairs@),
            forall|t: int| 0 <= t < pairs@.len() ==> (old(self).sums@.contains_key((#[trigger] pairs@[t]).0)
                ==> old(self).sums@[pairs@[t].0] + pairs@[t].1 <= u64::MAX),
        ensures
            final(self).wf(),
            forall|e: u32| #[trigger] final(self).sums@.contains_key(e) <==> (old(self).sums@.contains_key(e) || has_id(pairs@, e)),
            forall|e: u32| #[trigger] final(self).sums@.contains_key(e) ==> final(self).sums@[e] as int
                == (if old(self).sums@.contains_key(e) { old(self).sums@[e] as int } else { 0 }) + value_of(pairs@, e),
    {
        let ghost old_sums = self.sums@;
        let mut i: usize = 0;
        while i < pairs.len()
            invariant
                self.wf(),
                i <= pairs.len(),
                ids_distinct(pairs@),
                forall|t: int| 0 <= t < pairs@.len() ==> (old_sums.contains_key((#[trigger] pairs@[t]).0)
                    ==> old_sums[pairs@[t].0] + pairs@[t].1 <= u64::MAX),
                forall|e: u32| #[trigger] self.sums@.contains_key(e) <==> (old_sums.contains_key(e) || has_id(pairs@.take(i as int), e)),
                forall|e: u32| #[trigger] self.sums@.contains_key(e) ==> self.sums@[e] as int
                    == (if old_sums.contains_key(e) { old_sums[e] as int } else { 0 }) + value_of(pairs@.take(i as int), e),
            decreases pairs.len() - i,
        {
            let (e, v) = pairs[i];
            let ghost pre = pairs@.take(i as int);
            let ghost post = pairs@.take(i + 1);
            proof {
                assert(post =~= pre.push((e, v)));
                assert(!has_id(pre, e)) by {
                    if has_id(pre, e) {
                        let t = choose|t: int| 0 <= t < pre.len() && (#[trigger] pre[t]).0 == e;
                        assert(pairs@[t].0 != pairs@[i as int].0);
                    }
                }
                assert(ids_distinct(post));
                lemma_value_of_at(post, i as int);
                assert forall|x: u32| x != e implies (#[trigger] has_id(post, x)) == has_id(pre, x) && value_of(post, x) == value_of(pre, x) by {
                    if has_id(post, x) {
                        let t = choose|t: int| 0 <= t < post.len() && (#[trigger] post[t]).0 == x;
                        assert(t < i);
                        assert(pre[t].0 == x);
                        lemma_value_of_at(post, t);
                        lemma_value_of_at(pre, t);
                    }
                    if has_id(pre, x) {
                        let t = choose|t: int| 0 <= t < pre.len() && (#[trigger] pre[t]).0 == x;
                        assert(post[t].0 == x);
                    }
                }
            }
            match self.sums.get(&e) {
                Some(cur) => {
                    let cur = *cur;
                    proof {
                        assert(old_sums.contains_key(e));
                        assert(value_of(pre, e) == 0);
                        assert(cur == old_sums[e]);
                    }
                    self.sums.insert(e, cur + v);
                },
                None => {
                    let ghost ks = self.keys@;
                    proof {
                        assert(!old_sums.contains_key(e));
                        assert(!ks.contains(e));
                    }
                    self.sums.insert(e, v);
                    self.keys.push(e);
                    proof {
                        assert(self.keys@ == ks.push(e));
                        assert forall|a: int, b: int| 0 <= a < b < self.keys@.len() implies self.keys@[a] != self.keys@[b] by {
                            if b == self.keys@.len() - 1 {
                                assert(self.keys@[a] == ks[a]);
                            } else {
                                assert(self.keys@[a] == ks[a]);
                                assert(self.keys@[b] == ks[b]);
                            }
                        }
                        assert forall|x: u32| self.sums@.contains_key(x) <==> self.keys@.contains(x) by {
                            if x != e {
                                if self.keys@.contains(x) {
                                    let t = choose|t: int| 0 <= t < self.keys@.len() && self.keys@[t] == x;
                                    assert(t < self.keys@.len() - 1);
                                    assert(ks[t] == x);
                                }
                                if ks.contains(x) {
                                    let t = choose|t: int| 0 <= t < ks.len() && ks[t] == x;
                                    assert(self.keys@[t] == x);
                                }
                            } else {
                                assert(self.keys@[self.keys@.len() - 1] == e);
                            }
                        }
                    }
                },
            }
            i = i + 1;
        }
        assert(pairs@.take(pairs@.len() as int) =~= pairs@);
    }
}

} // verus!
