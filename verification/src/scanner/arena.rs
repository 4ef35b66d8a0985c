//! The index-based arena and the mathematics of its subtree totals.
//!
//! A scanned tree is a `Vec<Node>`; each node names its parent by index and
//! every parent comes before its children.  Subtree totals are defined over
//! the parent pointers alone: the total of `k` is its own weight plus the
//! totals of every node whose parent is `k`.

use vstd::prelude::*;

verus! {

/// A single node in the arena.  Indices, not pointers; the full path is never
/// stored and is rebuilt on demand by walking `parent`.
pub struct Node {
    pub name: String,
    pub size: u64,
    /// Number of file descendants in this node's subtree.
    pub file_count: u64,
    /// Number of directory descendants (excluding this node).
    pub dir_count: u64,
    pub is_dir: bool,
    pub is_hidden: bool,
    pub mtime: i64,
    pub parent: Option<u32>,
    pub children: Vec<u32>,
}

/// The parent pointers of an arena.
pub open spec fn parents_of(nodes: Seq<Node>) -> Seq<Option<u32>> {
    nodes.map_values(|n: Node| n.parent)
}

/// Every parent index comes strictly before its child.
pub open spec fn parents_precede(parents: Seq<Option<u32>>) -> bool {
    forall|j: int| 0 <= j < parents.len() ==> (#[trigger] parents[j] matches Some(p) ==> p < j)
}

/// Node `c` names `k` as its parent.
pub open spec fn is_child(parents: Seq<Option<u32>>, c: int, k: int) -> bool {
    parents[c] matches Some(p) && p as int == k
}

/// Own weight of `k` plus the totals of all its children: the sum of `w` over
/// the subtree rooted at `k`.
pub open spec fn tree_total(parents: Seq<Option<u32>>, w: spec_fn(int) -> int, k: int) -> int
    decreases parents.len() - k, parents.len() - k,
{
    if 0 <= k < parents.len() {
        w(k) + children_total(parents, w, k, k + 1)
    } else {
        0
    }
}

/// Sum of the subtree totals of the children of `k` whose index is at least `from`.
pub open spec fn children_total(parents: Seq<Option<u32>>, w: spec_fn(int) -> int, k: int, from: int) -> int
    decreases parents.len() - k, parents.len() - from,
{
    if 0 <= k < from < parents.len() {
        (if is_child(parents, from, k) { tree_total(parents, w, from) } else { 0 })
            + children_total(parents, w, k, from + 1)
    } else {
        0
    }
}

/// The weight `w` is nonnegative on the arena.
pub open spec fn nonneg_on(w: spec_fn(int) -> int, n: int) -> bool {
    forall|j: int| 0 <= j < n ==> #[trigger] w(j) >= 0
}

/// Two weights agree on the arena.
pub open spec fn agree_on(w1: spec_fn(int) -> int, w2: spec_fn(int) -> int, n: int) -> bool {
    forall|j: int| 0 <= j < n ==> #[trigger] w1(j) == w2(j)
}

/// `w1` is pointwise at most `w2` on the arena.
pub open spec fn below_on(w1: spec_fn(int) -> int, w2: spec_fn(int) -> int, n: int) -> bool {
    forall|j: int| 0 <= j < n ==> #[trigger] w1(j) <= w2(j)
}

/// Weight read from a vector of `u64`.
pub open spec fn vec_weight(v: Seq<u64>) -> spec_fn(int) -> int {
    |j: int| v[j] as int
}

/// Totals are nonnegative for nonnegative weights.
pub proof fn lemma_totals_nonneg(parents: Seq<Option<u32>>, w: spec_fn(int) -> int, k: int)
    requires
        nonneg_on(w, parents.len() as int),
    ensures
        tree_total(parents, w, k) >= 0,
        forall|from: int| #[trigger] children_total(parents, w, k, from) >= 0,
    decreases parents.len() - k,
{
    if 0 <= k < parents.len() {
        assert forall|from: int| #[trigger] children_total(parents, w, k, from) >= 0 by {
            lemma_children_total_nonneg(parents, w, k, from);
        }
        assert(w(k) >= 0);
        assert(children_total(parents, w, k, k + 1) >= 0);
    } else {
        assert forall|from: int| #[trigger] children_total(parents, w, k, from) >= 0 by {
            reveal_with_fuel(children_total, 1);
        }
    }
}

proof fn lemma_children_total_nonneg(parents: Seq<Option<u32>>, w: spec_fn(int) -> int, k: int, from: int)
    requires
        nonneg_on(w, parents.len() as int),
        0 <= k < parents.len(),
    ensures
        children_total(parents, w, k, from) >= 0,
    decreases parents.len() - k, parents.len() - from,
{
    if k < from < parents.len() {
        if is_child(parents, from, k) {
            lemma_totals_nonneg(parents, w, from);
        }
        lemma_children_total_nonneg(parents, w, k, from + 1);
    }
}

/// Children totals are nonnegative for nonnegative weights.
pub proof fn lemma_children_total_nonneg_pub(parents: Seq<Option<u32>>, w: spec_fn(int) -> int, k: int)
    requires
        nonneg_on(w, parents.len() as int),
        0 <= k < parents.len(),
    ensures
        tree_total(parents, w, k) >= w(k),
{
    lemma_children_total_nonneg(parents, w, k, k + 1);
}

/// Dropping children from the front of the range can only decrease the sum.
pub proof fn lemma_children_total_shrinks(parents: Seq<Option<u32>>, w: spec_fn(int) -> int, k: int, from1: int, from2: int)
    requires
        nonneg_on(w, parents.len() as int),
        0 <= k < parents.len(),
        k < from1 <= from2,
    ensures
        children_total(parents, w, k, from2) <= children_total(parents, w, k, from1),
    decreases from2 - from1,
{
    if from1 < from2 && from1 < parents.len() {
        lemma_children_total_shrinks(parents, w, k, from1 + 1, from2);
        if is_child(parents, from1, k) {
            lemma_totals_nonneg(parents, w, from1);
        }
    } else if from1 < from2 {
        assert(children_total(parents, w, k, from2) == 0);
        assert(children_total(parents, w, k, from1) == 0);
    }
}

/// Totals depend only on the weights inside the arena.
pub proof fn lemma_totals_agree(parents: Seq<Option<u32>>, w1: spec_fn(int) -> int, w2: spec_fn(int) -> int, k: int)
    requires
        agree_on(w1, w2, parents.len() as int),
    ensures
        tree_total(parents, w1, k) == tree_total(parents, w2, k),
        forall|from: int| #[trigger] children_total(parents, w1, k, from) == children_total(parents, w2, k, from),
    decreases parents.len() - k,
{
    if 0 <= k < parents.len() {
        assert forall|from: int| #[trigger] children_total(parents, w1, k, from) == children_total(parents, w2, k, from) by {
            lemma_children_totals_agree(parents, w1, w2, k, from);
        }
        assert(w1(k) == w2(k));
        lemma_children_totals_agree(parents, w1, w2, k, k + 1);
    }
}

proof fn lemma_children_totals_agree(parents: Seq<Option<u32>>, w1: spec_fn(int) -> int, w2: spec_fn(int) -> int, k: int, from: int)
    requires
        agree_on(w1, w2, parents.len() as int),
        0 <= k < parents.len(),
    ensures
        children_total(parents, w1, k, from) == children_total(parents, w2, k, from),
    decreases parents.len() - k, parents.len() - from,
{
    if k < from < parents.len() {
        if is_child(parents, from, k) {
            lemma_totals_agree(parents, w1, w2, from);
        }
        lemma_children_totals_agree(parents, w1, w2, k, from + 1);
    }
}

/// Totals are monotone in the weight.
pub proof fn lemma_totals_monotone(parents: Seq<Option<u32>>, w1: spec_fn(int) -> int, w2: spec_fn(int) -> int, k: int)
    requires
        below_on(w1, w2, parents.len() as int),
    ensures
        tree_total(parents, w1, k) <= tree_total(parents, w2, k),
        forall|from: int| #[trigger] children_total(parents, w1, k, from) <= children_total(parents, w2, k, from),
    decreases parents.len() - k,
{
    if 0 <= k < parents.len() {
        assert forall|from: int| #[trigger] children_total(parents, w1, k, from) <= children_total(parents, w2, k, from) by {
            lemma_children_totals_monotone(parents, w1, w2, k, from);
        }
        assert(w1(k) <= w2(k));
        lemma_children_totals_monotone(parents, w1, w2, k, k + 1);
    }
}

proof fn lemma_children_totals_monotone(parents: Seq<Option<u32>>, w1: spec_fn(int) -> int, w2: spec_fn(int) -> int, k: int, from: int)
    requires
        below_on(w1, w2, parents.len() as int),
        0 <= k < parents.len(),
    ensures
        children_total(parents, w1, k, from) <= children_total(parents, w2, k, from),
    decreases parents.len() - k, parents.len() - from,
{
    if k < from < parents.len() {
        if is_child(parents, from, k) {
            lemma_totals_monotone(parents, w1, w2, from);
        }
        lemma_children_totals_monotone(parents, w1, w2, k, from + 1);
    }
}

/// Totals are additive in the weight.
pub proof fn lemma_totals_add(parents: Seq<Option<u32>>, w1: spec_fn(int) -> int, w2: spec_fn(int) -> int, w: spec_fn(int) -> int, k: int)
    requires
        forall|j: int| 0 <= j < parents.len() ==> #[trigger] w(j) == w1(j) + w2(j),
    ensures
        tree_total(parents, w, k) == tree_total(parents, w1, k) + tree_total(parents, w2, k),
        forall|from: int| #[trigger] children_total(parents, w, k, from)
            == children_total(parents, w1, k, from) + children_total(parents, w2, k, from),
    decreases parents.len() - k,
{
    if 0 <= k < parents.len() {
        assert forall|from: int| #[trigger] children_total(parents, w, k, from)
            == children_total(parents, w1, k, from) + children_total(parents, w2, k, from) by {
            lemma_children_totals_add(parents, w1, w2, w, k, from);
        }
        assert(w(k) == w1(k) + w2(k));
        lemma_children_totals_add(parents, w1, w2, w, k, k + 1);
    }
}

proof fn lemma_children_totals_add(parents: Seq<Option<u32>>, w1: spec_fn(int) -> int, w2: spec_fn(int) -> int, w: spec_fn(int) -> int, k: int, from: int)
    requires
        forall|j: int| 0 <= j < parents.len() ==> #[trigger] w(j) == w1(j) + w2(j),
        0 <= k < parents.len(),
    ensures
        children_total(parents, w, k, from) == children_total(parents, w1, k, from) + children_total(parents, w2, k, from),
    decreases parents.len() - k, parents.len() - from,
{
    if k < from < parents.len() {
        if is_child(parents, from, k) {
            lemma_totals_add(parents, w1, w2, w, from);
        }
        lemma_children_totals_add(parents, w1, w2, w, k, from + 1);
    }
}

/// The links of `ps1` are among those of `ps2`.
pub open spec fn links_within(ps1: Seq<Option<u32>>, ps2: Seq<Option<u32>>) -> bool {
    &&& ps1.len() == ps2.len()
    &&& forall|j: int| 0 <= j < ps1.len() && (#[trigger] ps1[j]) is Some ==> ps1[j] == ps2[j]
}

/// Dropping parent links can only shrink subtree totals.
pub proof fn lemma_fewer_links(ps1: Seq<Option<u32>>, ps2: Seq<Option<u32>>, w: spec_fn(int) -> int, k: int)
    requires
        links_within(ps1, ps2),
        nonneg_on(w, ps1.len() as int),
    ensures
        tree_total(ps1, w, k) <= tree_total(ps2, w, k),
        forall|from: int| #[trigger] children_total(ps1, w, k, from) <= children_total(ps2, w, k, from),
    decreases ps1.len() - k,
{
    if 0 <= k < ps1.len() {
        assert forall|from: int| #[trigger] children_total(ps1, w, k, from) <= children_total(ps2, w, k, from) by {
            lemma_children_fewer_links(ps1, ps2, w, k, from);
        }
        lemma_children_fewer_links(ps1, ps2, w, k, k + 1);
    }
}

proof fn lemma_children_fewer_links(ps1: Seq<Option<u32>>, ps2: Seq<Option<u32>>, w: spec_fn(int) -> int, k: int, from: int)
    requires
        links_within(ps1, ps2),
        nonneg_on(w, ps1.len() as int),
        0 <= k < ps1.len(),
    ensures
        children_total(ps1, w, k, from) <= children_total(ps2, w, k, from),
    decreases ps1.len() - k, ps1.len() - from,
{
    if k < from < ps1.len() {
        if is_child(ps1, from, k) {
            assert(ps1[from] is Some);
            lemma_fewer_links(ps1, ps2, w, from);
        } else if is_child(ps2, from, k) {
            lemma_totals_nonneg(ps2, w, from);
        }
        lemma_children_fewer_links(ps1, ps2, w, k, from + 1);
    }
}

/// Where `w1` vanishes so does `w2`; then a zero total of `w1` forces a zero
/// total of `w2`.
pub proof fn lemma_zero_total_transfers(ps: Seq<Option<u32>>, w1: spec_fn(int) -> int, w2: spec_fn(int) -> int, k: int)
    requires
        nonneg_on(w1, ps.len() as int),
        nonneg_on(w2, ps.len() as int),
        forall|j: int| 0 <= j < ps.len() && #[trigger] w1(j) == 0 ==> w2(j) == 0,
    ensures
        tree_total(ps, w1, k) == 0 ==> tree_total(ps, w2, k) == 0,
        forall|from: int| #[trigger] children_total(ps, w1, k, from) == 0 ==> children_total(ps, w2, k, from) == 0,
    decreases ps.len() - k,
{
    if 0 <= k < ps.len() {
        assert forall|from: int| #[trigger] children_total(ps, w1, k, from) == 0 implies children_total(ps, w2, k, from) == 0 by {
            lemma_children_zero_transfers(ps, w1, w2, k, from);
        }
        lemma_children_zero_transfers(ps, w1, w2, k, k + 1);
        lemma_children_total_nonneg(ps, w1, k, k + 1);
        assert(w1(k) >= 0);
    }
}

proof fn lemma_children_zero_transfers(ps: Seq<Option<u32>>, w1: spec_fn(int) -> int, w2: spec_fn(int) -> int, k: int, from: int)
    requires
        nonneg_on(w1, ps.len() as int),
        nonneg_on(w2, ps.len() as int),
        forall|j: int| 0 <= j < ps.len() && #[trigger] w1(j) == 0 ==> w2(j) == 0,
        0 <= k < ps.len(),
    ensures
        children_total(ps, w1, k, from) == 0 ==> children_total(ps, w2, k, from) == 0,
    decreases ps.len() - k, ps.len() - from,
{
    if k < from < ps.len() {
        lemma_children_total_nonneg(ps, w1, k, from + 1);
        if is_child(ps, from, k) {
            lemma_zero_total_transfers(ps, w1, w2, from);
            lemma_totals_nonneg(ps, w1, from);
        }
        lemma_children_zero_transfers(ps, w1, w2, k, from + 1);
    }
}

/// A node nothing links to has no children total.
pub proof fn lemma_childless(ps: Seq<Option<u32>>, w: spec_fn(int) -> int, k: int, from: int)
    requires
        forall|c: int| 0 <= c < ps.len() ==> !is_child(ps, c, k),
    ensures
        children_total(ps, w, k, from) == 0,
    decreases ps.len() - from,
{
    if 0 <= k < from < ps.len() {
        lemma_childless(ps, w, k, from + 1);
    }
}

/// Every subtree total of `w` fits in a `u64`.
pub open spec fn totals_fit(parents: Seq<Option<u32>>, w: spec_fn(int) -> int) -> bool {
    forall|k: int| 0 <= k < parents.len() ==> #[trigger] tree_total(parents, w, k) <= u64::MAX
}

/// Bottom-up aggregation of `weights` over the parent pointers: entry `k` of
/// the result is the total of `k`'s subtree.  Children come after their
/// parent, so a single reverse pass finishes every child before its parent
/// is folded into the grandparent.  `None` exactly when some subtree total
/// does not fit in a `u64`.
pub fn aggregate_totals(parents: &Vec<Option<u32>>, weights: &Vec<u64>) -> (r: Option<Vec<u64>>)
    requires
        parents_precede(parents@),
        weights.len() == parents.len(),
    ensures
        r is Some <==> totals_fit(parents@, vec_weight(weights@)),
        r matches Some(t) ==> t.len() == parents.len()
            && forall|k: int| 0 <= k < t.len() ==> #[trigger] t@[k] == tree_total(parents@, vec_weight(weights@), k),
{
    let ghost w = vec_weight(weights@);
    let ghost ps = parents@;
    let n = parents.len();
    let mut acc: Vec<u64> = weights.clone();
    let mut i: usize = n;
    assert forall|j: int| 0 <= j < n implies #[trigger] w(j) >= 0 by {}
    assert forall|k: int| 0 <= k < n implies #[trigger] acc@[k] == w(k) + children_total(ps, w, k, if i > k + 1 { i as int } else { k + 1 }) by {
        assert(children_total(ps, w, k, n as int) == 0);
        if k + 1 < n {
        } else {
            assert(children_total(ps, w, k, k + 1) == 0);
        }
    }
    while i > 0
        invariant
            i <= n,
            n == parents.len(),
            ps == parents@,
            w == vec_weight(weights@),
            weights.len() == n,
            acc.len() == n,
            parents_precede(ps),
            nonneg_on(w, n as int),
            forall|k: int| 0 <= k < n ==> #[trigger] acc@[k] == w(k) + children_total(ps, w, k, if i > k + 1 { i as int } else { k + 1 }),
        decreases i,
    {
        let j = i - 1;
        proof {
            assert(acc@[j as int] == w(j as int) + children_total(ps, w, j as int, j + 1));
        }
        match parents[j] {
            Some(p) => {
                let pu = p as usize;
                proof {
                    assert(ps[j as int] == Some(p));
                    assert((p as int) < j);
                }
                match acc[pu].checked_add(acc[j]) {
                    Some(sum) => {
                        let ghost old_acc = acc@;
                        acc.set(pu, sum);
                        assert forall|k: int| 0 <= k < n implies #[trigger] acc@[k] == w(k) + children_total(ps, w, k, if j > k + 1 { j as int } else { k + 1 }) by {
                            if k == p {
                                assert(children_total(ps, w, k, j as int) == tree_total(ps, w, j as int) + children_total(ps, w, k, i as int));
                            } else if k < j {
                                assert(!is_child(ps, j as int, k));
                                assert(children_total(ps, w, k, j as int) == children_total(ps, w, k, i as int));
                            } else {
                                assert(old_acc[k] == acc@[k]);
                            }
                        }
                    },
                    None => {
                        proof {
                            let pk = p as int;
                            assert(children_total(ps, w, pk, j as int) == tree_total(ps, w, j as int) + children_total(ps, w, pk, i as int));
                            lemma_children_total_shrinks(ps, w, pk, pk + 1, j as int);
                            assert(tree_total(ps, w, pk) == w(pk) + children_total(ps, w, pk, pk + 1));
                            assert(tree_total(ps, w, pk) > u64::MAX);
                        }
                        return None;
                    },
                }
            },
            None => {
                assert forall|k: int| 0 <= k < n implies #[trigger] acc@[k] == w(k) + children_total(ps, w, k, if j > k + 1 { j as int } else { k + 1 }) by {
                    if k < j {
                        assert(!is_child(ps, j as int, k));
                        assert(children_total(ps, w, k, j as int) == children_total(ps, w, k, i as int));
                    }
                }
            },
        }
        i = j;
    }
    assert forall|k: int| 0 <= k < n implies #[trigger] acc@[k] == tree_total(ps, w, k) by {
        assert(acc@[k] == w(k) + children_total(ps, w, k, k + 1));
    }
    assert forall|k: int| 0 <= k < n implies #[trigger] tree_total(ps, w, k) <= u64::MAX by {
        assert(acc@[k] == tree_total(ps, w, k));
    }
    Some(acc)
}

} // verus!
