//! Consistency of a scanned tree, stated over the children lists: every
//! node's counts are the sums over its children, its size covers theirs, and
//! the tree totals are the root's.  A finished scan is consistent, and
//! removing a reachable subtree keeps it so while lowering the totals by
//! exactly what was removed.

use vstd::prelude::*;

use super::arena::{children_total, is_child, lemma_children_total_nonneg_pub, parents_of, tree_total, Node};
use super::remove::{
    is_ancestor, lemma_ancestor_below, removable, removal_node,
    removed_dirs, removed_files, removed_size, sat_sub, without,
};
use super::tree::{arena_ready, children_exact, children_listed_once, dir_w, file_w, finalized_from, node_aggregated, size_w, ScanTree};

verus! {

// ── Sums over a children list ────────────────────────────────────────────────

/// Sum of `f` over the nodes a children list names.
pub open spec fn list_sum(ns: Seq<Node>, cs: Seq<u32>, f: spec_fn(Node) -> int) -> int
    decreases cs.len(),
{
    if cs.len() == 0 {
        0
    } else {
        list_sum(ns, cs.drop_last(), f) + f(ns[cs.last() as int])
    }
}

pub open spec fn size_of() -> spec_fn(Node) -> int {
    |n: Node| n.size as int
}

/// The files a node stands for: its file descendants, plus itself if a file.
pub open spec fn files_of() -> spec_fn(Node) -> int {
    |n: Node| removed_files(n)
}

/// The directories a node stands for: its directory descendants, plus itself if a directory.
pub open spec fn dirs_of() -> spec_fn(Node) -> int {
    |n: Node| removed_dirs(n)
}

/// Every listed child names the node as its parent.
pub open spec fn children_point_back(ns: Seq<Node>) -> bool {
    forall|k: int, t: int| 0 <= k < ns.len() && 0 <= t < ns[k].children@.len() ==>
        #[trigger] ns[ns[k].children@[t] as int].parent == Some(k as u32)
}

/// A consistent tree: well shaped, every node's counts are the sums over its
/// children, its size is at least the sum of theirs, and the tree totals are
/// those of the root.
pub open spec fn consistent(t: ScanTree) -> bool {
    let ns = t.nodes@;
    &&& removable(t)
    &&& (t.root as int) < ns.len()
    &&& ns[t.root as int].parent is None
    &&& children_point_back(ns)
    &&& forall|k: int| 0 <= k < ns.len() ==> (#[trigger] ns[k]).size >= list_sum(ns, ns[k].children@, size_of())
    &&& forall|k: int| 0 <= k < ns.len() ==> (#[trigger] ns[k]).file_count == list_sum(ns, ns[k].children@, files_of())
    &&& forall|k: int| 0 <= k < ns.len() ==> (#[trigger] ns[k]).dir_count == list_sum(ns, ns[k].children@, dirs_of())
    &&& t.total_size == ns[t.root as int].size
    &&& t.total_files == ns[t.root as int].file_count
    &&& t.total_dirs == ns[t.root as int].dir_count
}

/// `x` hangs off the root: every link on its way up is listed in the parent's children.
pub open spec fn attached(ns: Seq<Node>, root: int, x: int) -> bool
    decreases x,
{
    if 0 <= x < ns.len() {
        if x == root {
            true
        } else {
            match ns[x].parent {
                Some(p) => (p as int) < x && ns[p as int].children@.contains(x as u32) && attached(ns, root, p as int),
                None => false,
            }
        }
    } else {
        false
    }
}

/// Node `k`'s listed children name it as their parent, its counts are the
/// sums over them, and its size covers theirs.
pub open spec fn node_consistent(ns: Seq<Node>, k: int) -> bool {
    &&& forall|t: int| 0 <= t < ns[k].children@.len() ==>
        #[trigger] ns[ns[k].children@[t] as int].parent == Some(k as u32)
    &&& ns[k].size >= list_sum(ns, ns[k].children@, size_of())
    &&& ns[k].file_count == list_sum(ns, ns[k].children@, files_of())
    &&& ns[k].dir_count == list_sum(ns, ns[k].children@, dirs_of())
}

/// Consistent where the tree is seen from its root: indices fit in `u32`,
/// the root has no parent, every node that hangs off the root lists valid
/// children once each and is consistent with them, and the tree totals are
/// the root's.  Nothing is asked of nodes that no longer hang off the root.
pub open spec fn consistent_from_root(t: ScanTree) -> bool {
    let ns = t.nodes@;
    &&& ns.len() <= u32::MAX
    &&& (t.root as int) < ns.len()
    &&& ns[t.root as int].parent is None
    &&& forall|k: int| 0 <= k < ns.len() && #[trigger] attached(ns, t.root as int, k) ==>
        node_consistent(ns, k) && children_listed_once(ns, k)
    &&& t.total_size == ns[t.root as int].size
    &&& t.total_files == ns[t.root as int].file_count
    &&& t.total_dirs == ns[t.root as int].dir_count
}

/// What node `k` holds beyond its children: its size less theirs.
pub open spec fn own_size(ns: Seq<Node>, k: int) -> int {
    ns[k].size - list_sum(ns, ns[k].children@, size_of())
}

/// A tree consistent at every node is consistent at those that hang off the root.
pub proof fn lemma_consistent_from_root(t: ScanTree)
    requires
        consistent(t),
    ensures
        consistent_from_root(t),
{
    let ns = t.nodes@;
    assert forall|k: int| 0 <= k < ns.len() && #[trigger] attached(ns, t.root as int, k) implies
        node_consistent(ns, k) && children_listed_once(ns, k) by {
        assert(ns[k].size >= list_sum(ns, ns[k].children@, size_of()));
        assert(ns[k].file_count == list_sum(ns, ns[k].children@, files_of()));
        assert(ns[k].dir_count == list_sum(ns, ns[k].children@, dirs_of()));
    }
}

// ── List-sum lemmas ──────────────────────────────────────────────────────────

pub open spec fn nonneg_node_fn(f: spec_fn(Node) -> int) -> bool {
    forall|n: Node| #[trigger] f(n) >= 0
}

proof fn lemma_list_sum_nonneg(ns: Seq<Node>, cs: Seq<u32>, f: spec_fn(Node) -> int)
    requires
        nonneg_node_fn(f),
    ensures
        list_sum(ns, cs, f) >= 0,
    decreases cs.len(),
{
    if cs.len() > 0 {
        lemma_list_sum_nonneg(ns, cs.drop_last(), f);
        assert(f(ns[cs.last() as int]) >= 0);
    }
}

/// A listed child's value is part of the sum.
proof fn lemma_list_sum_member(ns: Seq<Node>, cs: Seq<u32>, f: spec_fn(Node) -> int, x: u32)
    requires
        nonneg_node_fn(f),
        cs.contains(x),
    ensures
        list_sum(ns, cs, f) >= f(ns[x as int]),
    decreases cs.len(),
{
    lemma_list_sum_nonneg(ns, cs.drop_last(), f);
    if cs.last() != x {
        let t = choose|t: int| 0 <= t < cs.len() && cs[t] == x;
        assert(cs.drop_last()[t] == x);
        lemma_list_sum_member(ns, cs.drop_last(), f, x);
        assert(f(ns[cs.last() as int]) >= 0);
    }
}

/// The sum only depends on the values of the listed nodes.
proof fn lemma_list_sum_frame(ns1: Seq<Node>, ns2: Seq<Node>, cs: Seq<u32>, f: spec_fn(Node) -> int)
    requires
        forall|t: int| 0 <= t < cs.len() ==> f(ns1[#[trigger] cs[t] as int]) == f(ns2[cs[t] as int]),
    ensures
        list_sum(ns1, cs, f) == list_sum(ns2, cs, f),
    decreases cs.len(),
{
    if cs.len() > 0 {
        assert forall|t: int| 0 <= t < cs.drop_last().len() implies f(ns1[#[trigger] cs.drop_last()[t] as int]) == f(ns2[cs.drop_last()[t] as int]) by {
            assert(cs.drop_last()[t] == cs[t]);
        }
        lemma_list_sum_frame(ns1, ns2, cs.drop_last(), f);
        assert(f(ns1[cs[cs.len() - 1] as int]) == f(ns2[cs[cs.len() - 1] as int]));
    }
}

pub open spec fn distinct(cs: Seq<u32>) -> bool {
    forall|a: int, b: int| 0 <= a < b < cs.len() ==> cs[a] != cs[b]
}

/// Changing the value of one listed node changes the sum by the same amount.
proof fn lemma_list_sum_one_changed(ns1: Seq<Node>, ns2: Seq<Node>, cs: Seq<u32>, f: spec_fn(Node) -> int, y: u32)
    requires
        distinct(cs),
        cs.contains(y),
        forall|t: int| 0 <= t < cs.len() && cs[t] != y ==> f(ns1[#[trigger] cs[t] as int]) == f(ns2[cs[t] as int]),
    ensures
        list_sum(ns2, cs, f) == list_sum(ns1, cs, f) - f(ns1[y as int]) + f(ns2[y as int]),
    decreases cs.len(),
{
    let init = cs.drop_last();
    if cs.last() == y {
        assert forall|t: int| 0 <= t < init.len() implies f(ns1[#[trigger] init[t] as int]) == f(ns2[init[t] as int]) by {
            assert(init[t] == cs[t]);
            assert(cs[t] != cs[cs.len() - 1]);
        }
        lemma_list_sum_frame(ns1, ns2, init, f);
    } else {
        let t = choose|t: int| 0 <= t < cs.len() && cs[t] == y;
        assert(init[t] == y);
        assert forall|a: int, b: int| 0 <= a < b < init.len() implies init[a] != init[b] by {
            assert(init[a] == cs[a]);
            assert(init[b] == cs[b]);
        }
        assert forall|q: int| 0 <= q < init.len() && init[q] != y implies f(ns1[#[trigger] init[q] as int]) == f(ns2[init[q] as int]) by {
            assert(init[q] == cs[q]);
        }
        lemma_list_sum_one_changed(ns1, ns2, init, f, y);
        assert(f(ns1[cs[cs.len() - 1] as int]) == f(ns2[cs[cs.len() - 1] as int]));
    }
}

/// Dropping one listed child removes its value from the sum.
proof fn lemma_list_sum_without(ns: Seq<Node>, cs: Seq<u32>, f: spec_fn(Node) -> int, x: u32)
    requires
        distinct(cs),
    ensures
        list_sum(ns, without(cs, x), f) == list_sum(ns, cs, f) - (if cs.contains(x) { f(ns[x as int]) } else { 0 }),
        distinct(without(cs, x)),
        forall|c: u32| #[trigger] without(cs, x).contains(c) <==> cs.contains(c) && c != x,
    decreases cs.len(),
{
    if cs.len() > 0 {
        let init = cs.drop_last();
        assert forall|a: int, b: int| 0 <= a < b < init.len() implies init[a] != init[b] by {
            assert(init[a] == cs[a]);
            assert(init[b] == cs[b]);
        }
        lemma_list_sum_without(ns, init, f, x);
        let l = cs.last();
        assert forall|c: u32| cs.contains(c) <==> init.contains(c) || c == l by {
            if cs.contains(c) && c != l {
                let t = choose|t: int| 0 <= t < cs.len() && cs[t] == c;
                assert(init[t] == c);
            }
            if init.contains(c) {
                let t = choose|t: int| 0 <= t < init.len() && init[t] == c;
                assert(cs[t] == c);
            }
            if c == l {
                assert(cs[cs.len() - 1] == c);
            }
        }
        assert(!init.contains(l)) by {
            if init.contains(l) {
                let t = choose|t: int| 0 <= t < init.len() && init[t] == l;
                assert(cs[t] == cs[cs.len() - 1]);
            }
        }
        if l == x {
            assert(without(cs, x) == without(init, x));
        } else {
            let w = without(init, x);
            assert(without(cs, x) == w.push(l));
            assert(w.push(l).drop_last() =~= w);
            assert forall|a: int, b: int| 0 <= a < b < w.push(l).len() implies w.push(l)[a] != w.push(l)[b] by {
                if b == w.len() {
                    assert(w.contains(w[a]));
                } else {
                    assert(w.push(l)[a] == w[a]);
                    assert(w.push(l)[b] == w[b]);
                }
            }
            assert forall|c: u32| #[trigger] w.push(l).contains(c) <==> cs.contains(c) && c != x by {
                if w.push(l).contains(c) {
                    let t = choose|t: int| 0 <= t < w.push(l).len() && w.push(l)[t] == c;
                    if t < w.len() {
                        assert(w[t] == c);
                    }
                }
                if c == l {
                    assert(w.push(l)[w.len() as int] == c);
                } else if w.contains(c) {
                    let t = choose|t: int| 0 <= t < w.len() && w[t] == c;
                    assert(w.push(l)[t] == c);
                }
            }
        }
    }
}

// ── Paths to the root ────────────────────────────────────────────────────────

/// `z` is `x` or one of its ancestors.
pub open spec fn on_path(ps: Seq<Option<u32>>, z: int, x: int) -> bool {
    z == x || is_ancestor(ps, z, x)
}

/// Below every ancestor `k` of `x` there is a node on the path whose parent is `k`.
proof fn lemma_path_child(ps: Seq<Option<u32>>, k: int, x: int) -> (z: int)
    requires
        is_ancestor(ps, k, x),
    ensures
        on_path(ps, z, x),
        0 <= z < ps.len(),
        ps[z] == Some(k as u32),
        k < z,
    decreases x,
{
    lemma_ancestor_below(ps, k, x);
    let p = ps[x]->0 as int;
    if p == k {
        x
    } else {
        let z = lemma_path_child(ps, k, p);
        if z != p {
            lemma_ancestor_trans(ps, z, p, x);
        }
        z
    }
}

/// Ancestry is transitive.
proof fn lemma_ancestor_trans(ps: Seq<Option<u32>>, a: int, b: int, x: int)
    requires
        is_ancestor(ps, a, b),
        is_ancestor(ps, b, x),
    ensures
        is_ancestor(ps, a, x),
    decreases x,
{
    let p = ps[x]->0 as int;
    if p != b {
        lemma_ancestor_trans(ps, a, b, p);
    }
}

/// An ancestor of `x` is at most `x`'s parent.
proof fn lemma_ancestor_le_parent(ps: Seq<Option<u32>>, k: int, x: int)
    requires
        is_ancestor(ps, k, x),
    ensures
        ps[x] is Some,
        k <= ps[x]->0 as int,
{
    let p = ps[x]->0 as int;
    if k != p {
        lemma_ancestor_below(ps, k, p);
    }
}

/// The parent of an ancestor, when it comes before it, is an ancestor too.
proof fn lemma_ancestor_step_up(ps: Seq<Option<u32>>, a: int, x: int)
    requires
        is_ancestor(ps, a, x),
        ps[a] is Some,
        (ps[a]->0 as int) < a,
    ensures
        is_ancestor(ps, ps[a]->0 as int, x),
    decreases x,
{
    lemma_ancestor_below(ps, a, x);
    let p = ps[x]->0 as int;
    if p == a {
        assert(is_ancestor(ps, ps[a]->0 as int, p));
    } else {
        lemma_ancestor_step_up(ps, a, p);
    }
}

/// Only one node on the path has a given parent.
proof fn lemma_path_child_unique(ns: Seq<Node>, root: int, z1: int, z2: int, x: int)
    requires
        attached(ns, root, x),
        0 <= root < ns.len(),
        ns[root].parent is None,
        on_path(parents_of(ns), z1, x),
        on_path(parents_of(ns), z2, x),
        0 <= z1 < ns.len(),
        0 <= z2 < ns.len(),
        parents_of(ns)[z1] is Some,
        parents_of(ns)[z1] == parents_of(ns)[z2],
    ensures
        z1 == z2,
{
    let ps = parents_of(ns);
    // Along an attached path every parent comes before its child.
    lemma_attached_path(ns, root, x, z1);
    lemma_attached_path(ns, root, x, z2);
    assert(ps[z1] == ns[z1].parent);
    assert(ps[z2] == ns[z2].parent);
    assert(z1 != root && z2 != root);
    if z1 < z2 {
        lemma_path_ordered(ps, z1, z2, x);
        lemma_ancestor_le_parent(ps, z1, z2);
        assert(ps[z2] matches Some(q) && z1 <= q);
        assert(ps[z1] matches Some(q) && q < z1);
    } else if z2 < z1 {
        lemma_path_ordered(ps, z2, z1, x);
        lemma_ancestor_le_parent(ps, z2, z1);
        assert(ps[z1] matches Some(q) && z2 <= q);
        assert(ps[z2] matches Some(q) && q < z2);
    }
}

/// Of two nodes on the path, the smaller is an ancestor of the larger.
proof fn lemma_path_ordered(ps: Seq<Option<u32>>, z1: int, z2: int, x: int)
    requires
        on_path(ps, z1, x),
        on_path(ps, z2, x),
        z1 < z2,
    ensures
        is_ancestor(ps, z1, z2),
{
    if z2 == x {
    } else if z1 == x {
        lemma_ancestor_below(ps, z2, x);
    } else {
        super::remove::lemma_ancestors_ordered(ps, z1, z2, x);
    }
}

/// Along an attached node's path every link is listed and the root is an ancestor.
proof fn lemma_attached_path(ns: Seq<Node>, root: int, x: int, z: int)
    requires
        attached(ns, root, x),
        on_path(parents_of(ns), z, x),
        0 <= root < ns.len(),
        ns[root].parent is None,
    ensures
        attached(ns, root, z),
        z != root ==> ns[z].parent is Some && ns[ns[z].parent->0 as int].children@.contains(z as u32),
        x != root ==> is_ancestor(parents_of(ns), root, x),
    decreases x,
{
    let ps = parents_of(ns);
    if x == root {
        if z != x {
            assert(ps[x] == ns[x].parent);
        }
    } else {
        let p = ns[x].parent->0 as int;
        assert(ps[x] == ns[x].parent);
        assert(attached(ns, root, p));
        if z != x {
            assert(on_path(ps, z, p));
            lemma_attached_path(ns, root, p, z);
        }
        lemma_attached_path(ns, root, p, p);
        if p != root {
            lemma_ancestor_trans(ps, root, p, x);
        }
    }
}

// ── Removal keeps the tree consistent ────────────────────────────────────────

/// Every ancestor of an attached node carries at least what the node carries.
proof fn lemma_ancestor_bounds(t: ScanTree, idx: int, a: int)
    requires
        consistent_from_root(t),
        attached(t.nodes@, t.root as int, idx),
        is_ancestor(parents_of(t.nodes@), a, idx),
    ensures
        t.nodes@[a].size >= t.nodes@[idx].size,
        t.nodes@[a].file_count >= removed_files(t.nodes@[idx]),
        t.nodes@[a].dir_count >= removed_dirs(t.nodes@[idx]),
    decreases idx - a,
{
    let ns = t.nodes@;
    let ps = parents_of(ns);
    lemma_ancestor_below(ps, a, idx);
    let z = lemma_path_child(ps, a, idx);
    lemma_attached_path(ns, t.root as int, idx, z);
    lemma_attached_path(ns, t.root as int, idx, a);
    assert(node_consistent(ns, a));
    assert(ps[z] == ns[z].parent);
    assert(ns[a].children@.contains(z as u32));
    assert(nonneg_node_fn(size_of()));
    assert(nonneg_node_fn(files_of()));
    assert(nonneg_node_fn(dirs_of()));
    lemma_list_sum_member(ns, ns[a].children@, size_of(), z as u32);
    lemma_list_sum_member(ns, ns[a].children@, files_of(), z as u32);
    lemma_list_sum_member(ns, ns[a].children@, dirs_of(), z as u32);
    if z != idx {
        lemma_ancestor_below(ps, z, idx);
        lemma_ancestor_bounds(t, idx, z);
    }
}

/// The result of removing `idx` from `before`, as `remove_subtree_at` states it.
pub open spec fn is_removal(before: ScanTree, after: ScanTree, idx: int) -> bool {
    let x = before.nodes@[idx];
    &&& 0 <= idx < before.nodes@.len()
    &&& after.nodes@.len() == before.nodes@.len()
    &&& forall|k: int| 0 <= k < before.nodes@.len() ==> #[trigger] removal_node(before.nodes@, idx, k, after.nodes@[k])
    &&& after.total_size as int == sat_sub(before.total_size as int, removed_size(x))
    &&& after.total_files as int == sat_sub(before.total_files as int, removed_files(x))
    &&& after.total_dirs as int == sat_sub(before.total_dirs as int, removed_dirs(x))
    &&& after.root == before.root
    &&& after.ext_names == before.ext_names
}

proof fn lemma_node_after_removal(before: ScanTree, after: ScanTree, idx: int, k: int)
    requires
        consistent_from_root(before),
        attached(before.nodes@, before.root as int, idx),
        is_removal(before, after, idx),
        0 <= k < before.nodes@.len(),
        node_consistent(before.nodes@, k),
        children_listed_once(before.nodes@, k),
    ensures
        k != idx ==> own_size(after.nodes@, k) == own_size(before.nodes@, k),
        children_listed_once(after.nodes@, k),
        forall|t: int| 0 <= t < after.nodes@[k].children@.len() ==>
            #[trigger] after.nodes@[k].children@[t] != idx as u32 && before.nodes@[k].children@.contains(after.nodes@[k].children@[t]),
        after.nodes@[k].size >= list_sum(after.nodes@, after.nodes@[k].children@, size_of()),
        after.nodes@[k].file_count == list_sum(after.nodes@, after.nodes@[k].children@, files_of()),
        after.nodes@[k].dir_count == list_sum(after.nodes@, after.nodes@[k].children@, dirs_of()),
        is_ancestor(parents_of(before.nodes@), k, idx) ==>
            after.nodes@[k].size == before.nodes@[k].size - before.nodes@[idx].size
            && after.nodes@[k].file_count == before.nodes@[k].file_count - removed_files(before.nodes@[idx])
            && after.nodes@[k].dir_count == before.nodes@[k].dir_count - removed_dirs(before.nodes@[idx]),
{
    let o = before.nodes@;
    let a = after.nodes@;
    let ps = parents_of(o);
    let x = o[idx];
    let cs = o[k].children@;
    assert(removal_node(o, idx, k, a[k]));
    assert(children_listed_once(o, k));
    assert(distinct(cs));
    assert(nonneg_node_fn(size_of()));
    assert(nonneg_node_fn(files_of()));
    assert(nonneg_node_fn(dirs_of()));
    // A listed child of `k` is the removed node, an ancestor of it, or untouched.
    assert forall|t: int| 0 <= t < cs.len() implies ps[#[trigger] cs[t] as int] == Some(k as u32) by {
        assert(o[o[k].children@[t] as int].parent == Some(k as u32));
    }
    if k == idx {
        assert(a[k].children@ =~= Seq::<u32>::empty());
        if is_ancestor(ps, k, idx) {
            lemma_ancestor_below(ps, k, idx);
        }
    } else if !is_ancestor(ps, k, idx) {
        assert(x.parent != Some(k as u32)) by {
            if x.parent == Some(k as u32) {
                assert(ps[idx] == x.parent);
                if idx == before.root as int {
                    assert(o[idx].parent is None);
                } else {
                    assert(k < idx);
                    assert(is_ancestor(ps, k, idx));
                }
            }
        }
        assert forall|t: int| 0 <= t < cs.len() implies #[trigger] a[cs[t] as int] == a[cs[t] as int]
            && (size_of()(o[cs[t] as int]) == size_of()(a[cs[t] as int]))
            && (files_of()(o[cs[t] as int]) == files_of()(a[cs[t] as int]))
            && (dirs_of()(o[cs[t] as int]) == dirs_of()(a[cs[t] as int])) by {
            let c = cs[t] as int;
            assert(ps[c] == Some(k as u32));
            assert(c != idx);
            if is_ancestor(ps, c, idx) {
                lemma_attached_path(o, before.root as int, idx, c);
                lemma_ancestor_step_up(ps, c, idx);
            }
            assert(removal_node(o, idx, c, a[c]));
        }
        lemma_list_sum_frame(o, a, cs, size_of());
        lemma_list_sum_frame(o, a, cs, files_of());
        lemma_list_sum_frame(o, a, cs, dirs_of());
    } else {
        lemma_ancestor_bounds(before, idx, k);
        let z = lemma_path_child(ps, k, idx);
        lemma_attached_path(o, before.root as int, idx, z);
        assert(ps[z] == o[z].parent);
        assert(cs.contains(z as u32));
        // Children of `k` other than `z` are off the path and untouched.
        assert forall|t: int| 0 <= t < cs.len() && cs[t] != z as u32 implies
            (size_of()(o[#[trigger] cs[t] as int]) == size_of()(a[cs[t] as int]))
            && (files_of()(o[cs[t] as int]) == files_of()(a[cs[t] as int]))
            && (dirs_of()(o[cs[t] as int]) == dirs_of()(a[cs[t] as int])) by {
            let c = cs[t] as int;
            assert(ps[c] == Some(k as u32));
            assert(c < o.len());
            if on_path(ps, c, idx) {
                lemma_path_child_unique(o, before.root as int, c, z, idx);
            }
            assert(removal_node(o, idx, c, a[c]));
        }
        if z == idx {
            assert(x.parent == Some(k as u32));
            lemma_list_sum_without(o, cs, size_of(), idx as u32);
            lemma_list_sum_without(o, cs, files_of(), idx as u32);
            lemma_list_sum_without(o, cs, dirs_of(), idx as u32);
            let w = without(cs, idx as u32);
            assert forall|t: int| 0 <= t < w.len() implies
                (size_of()(o[#[trigger] w[t] as int]) == size_of()(a[w[t] as int]))
                && (files_of()(o[w[t] as int]) == files_of()(a[w[t] as int]))
                && (dirs_of()(o[w[t] as int]) == dirs_of()(a[w[t] as int])) by {
                assert(w.contains(w[t]));
                let u = choose|u: int| 0 <= u < cs.len() && cs[u] == w[t];
                assert(cs[u] != z as u32);
            }
            lemma_list_sum_frame(o, a, w, size_of());
            lemma_list_sum_frame(o, a, w, files_of());
            lemma_list_sum_frame(o, a, w, dirs_of());
            lemma_list_sum_member(o, cs, size_of(), idx as u32);
            assert forall|t: int| 0 <= t < a[k].children@.len() implies
                #[trigger] a[k].children@[t] != idx as u32 && cs.contains(a[k].children@[t]) by {
                assert(w.contains(w[t]));
            }
        } else {
            assert(x.parent != Some(k as u32)) by {
                if x.parent == Some(k as u32) {
                    assert(ps[idx] == x.parent);
                    lemma_path_child_unique(o, before.root as int, idx, z, idx);
                }
            }
            lemma_ancestor_bounds(before, idx, z);
            assert(removal_node(o, idx, z, a[z]));
            lemma_list_sum_one_changed(o, a, cs, size_of(), z as u32);
            lemma_list_sum_one_changed(o, a, cs, files_of(), z as u32);
            lemma_list_sum_one_changed(o, a, cs, dirs_of(), z as u32);
            assert forall|t: int| 0 <= t < cs.len() implies #[trigger] cs[t] != idx as u32 by {
                if cs[t] == idx as u32 {
                    assert(ps[idx] == Some(k as u32));
                    assert(x.parent == Some(k as u32));
                }
            }
        }
    }
}

/// After a removal, node `k` lists no child it did not list before, each once.
proof fn lemma_children_after_removal(before: ScanTree, after: ScanTree, idx: int, k: int)
    requires
        children_listed_once(before.nodes@, k),
        is_removal(before, after, idx),
        0 <= k < before.nodes@.len(),
    ensures
        children_listed_once(after.nodes@, k),
        forall|c: u32| #[trigger] after.nodes@[k].children@.contains(c) ==> before.nodes@[k].children@.contains(c),
{
    let o = before.nodes@;
    let a = after.nodes@;
    let cs = o[k].children@;
    assert(removal_node(o, idx, k, a[k]));
    assert(distinct(cs));
    if k == idx {
        assert(a[k].children@ =~= Seq::<u32>::empty());
    } else if o[idx].parent == Some(k as u32) {
        lemma_list_sum_without(o, cs, size_of(), idx as u32);
        let w = without(cs, idx as u32);
        assert forall|t: int| 0 <= t < w.len() implies (#[trigger] w[t] as int) < a.len() by {
            assert(w.contains(w[t]));
            let u = choose|u: int| 0 <= u < cs.len() && cs[u] == w[t];
        }
    }
}

/// A node that hangs off the root after a removal hung off it before.
proof fn lemma_attached_after_removal(before: ScanTree, after: ScanTree, idx: int, x: int)
    requires
        consistent_from_root(before),
        is_removal(before, after, idx),
        attached(after.nodes@, after.root as int, x),
    ensures
        attached(before.nodes@, before.root as int, x),
    decreases x,
{
    let o = before.nodes@;
    let a = after.nodes@;
    if x != before.root as int {
        assert(removal_node(o, idx, x, a[x]));
        let p = a[x].parent->0 as int;
        assert(removal_node(o, idx, p, a[p]));
        lemma_attached_after_removal(before, after, idx, p);
        assert(children_listed_once(o, p));
        lemma_children_after_removal(before, after, idx, p);
    }
}

/// Removing a subtree that hangs off the root keeps the tree consistent at
/// every node that still hangs off the root; each of those nodes keeps its
/// own size (its size less its children's), and the tree totals fall by
/// exactly the removed node's size and counts (to zero when the root itself
/// is removed).
pub proof fn law_removal_keeps_consistency(before: ScanTree, after: ScanTree, idx: int)
    requires
        consistent_from_root(before),
        attached(before.nodes@, before.root as int, idx),
        is_removal(before, after, idx),
    ensures
        consistent_from_root(after),
        forall|j: int| 0 <= j < after.nodes@.len() && j != idx && #[trigger] attached(after.nodes@, after.root as int, j)
            ==> own_size(after.nodes@, j) == own_size(before.nodes@, j),
        idx != before.root ==> after.total_size == before.total_size - before.nodes@[idx].size
            && after.total_files == before.total_files - removed_files(before.nodes@[idx])
            && after.total_dirs == before.total_dirs - removed_dirs(before.nodes@[idx]),
        idx == before.root ==> after.total_size == 0 && after.total_files == 0 && after.total_dirs == 0,
{
    let o = before.nodes@;
    let a = after.nodes@;
    let ps = parents_of(o);
    let r = before.root as int;
    assert(parents_of(a) =~= ps) by {
        assert forall|j: int| 0 <= j < a.len() implies parents_of(a)[j] == ps[j] by {
            assert(removal_node(o, idx, j, a[j]));
        }
    }
    assert forall|k: int| 0 <= k < a.len() && #[trigger] attached(a, r, k) implies node_consistent(a, k)
        && children_listed_once(a, k) && (k != idx ==> own_size(a, k) == own_size(o, k)) by {
        lemma_attached_after_removal(before, after, idx, k);
        assert(node_consistent(o, k));
        assert(children_listed_once(o, k));
        lemma_node_after_removal(before, after, idx, k);
        lemma_children_after_removal(before, after, idx, k);
        assert forall|t: int| 0 <= t < a[k].children@.len() implies #[trigger] a[a[k].children@[t] as int].parent == Some(k as u32) by {
            let c = a[k].children@[t];
            assert(a[k].children@.contains(c));
            let u = choose|u: int| 0 <= u < o[k].children@.len() && o[k].children@[u] == c;
            assert(o[o[k].children@[u] as int].parent == Some(k as u32));
            assert(children_listed_once(o, k));
            assert(removal_node(o, idx, c as int, a[c as int]));
        }
    }
    assert(removal_node(o, idx, r, a[r]));
    assert(attached(o, r, r));
    if idx != r {
        lemma_attached_path(o, r, idx, idx);
        lemma_node_after_removal(before, after, idx, r);
        lemma_ancestor_bounds(before, idx, r);
    } else {
        assert(removal_node(o, idx, idx, a[idx]));
    }
}

// ── A finished scan is consistent ────────────────────────────────────────────

/// Summing `f` over a list that holds, once each, exactly the children of `k`
/// from index `from` on gives their children total, when `f` reads each
/// child's subtree total.
proof fn lemma_exact_list_sum(
    out: Seq<Node>,
    ps: Seq<Option<u32>>,
    w: spec_fn(int) -> int,
    f: spec_fn(Node) -> int,
    k: int,
    from: int,
    cs: Seq<u32>,
)
    requires
        out.len() == ps.len(),
        ps.len() <= u32::MAX,
        0 <= k < from,
        k < ps.len(),
        distinct(cs),
        forall|c: u32| #[trigger] cs.contains(c) <==> (from <= c < ps.len() && is_child(ps, c as int, k)),
        forall|c: int| k < c < ps.len() && is_child(ps, c, k) ==> #[trigger] f(out[c]) == tree_total(ps, w, c),
    ensures
        list_sum(out, cs, f) == children_total(ps, w, k, from),
    decreases ps.len() - from,
{
    if from >= ps.len() {
        if cs.len() > 0 {
            assert(cs.contains(cs[0]));
        }
    } else {
        let x = from as u32;
        lemma_list_sum_without(out, cs, f, x);
        let cs2 = without(cs, x);
        assert forall|c: u32| #[trigger] cs2.contains(c) <==> (from + 1 <= c < ps.len() && is_child(ps, c as int, k)) by {
            assert(cs2.contains(c) <==> cs.contains(c) && c != x);
        }
        lemma_exact_list_sum(out, ps, w, f, k, from + 1, cs2);
        if is_child(ps, from, k) {
            assert(cs.contains(x));
            assert(f(out[from]) == tree_total(ps, w, from));
        } else {
            assert(!cs.contains(x));
        }
    }
}

/// The children list of node `k` after finishing is that of the walked arena
/// reordered: it still holds each child of `k` exactly once.
proof fn lemma_finished_children(ns: Seq<Node>, out: Seq<Node>, root: int, k: int)
    requires
        arena_ready(ns, root),
        out.len() == ns.len(),
        0 <= k < ns.len(),
        node_aggregated(ns, out, k),
    ensures
        distinct(out[k].children@),
        forall|c: u32| #[trigger] out[k].children@.contains(c) <==> (k + 1 <= c < ns.len() && is_child(parents_of(ns), c as int, k)),
{
    let a = ns[k].children@;
    let b = out[k].children@;
    assert(children_listed_once(ns, k));
    assert(a.no_duplicates());
    a.lemma_multiset_has_no_duplicates();
    a.to_multiset_ensures();
    b.to_multiset_ensures();
    assert forall|x: u32| b.to_multiset().contains(x) implies b.to_multiset().count(x) == 1 by {
        assert(a.to_multiset().contains(x));
    }
    b.lemma_multiset_has_no_duplicates_conv();
    assert forall|c: u32| #[trigger] b.contains(c) <==> (k + 1 <= c < ns.len() && is_child(parents_of(ns), c as int, k)) by {
        assert(b.contains(c) <==> b.to_multiset().count(c) > 0);
        assert(a.contains(c) <==> a.to_multiset().count(c) > 0);
        if a.contains(c) {
            let t = choose|t: int| 0 <= t < a.len() && a[t] == c;
            assert((a[t] as int) < ns.len());
            assert(ns[k].children@.contains(c as u32));
            assert(is_child(parents_of(ns), c as int, k));
            assert(parents_of(ns)[c as int] == ns[c as int].parent);
        }
        if k + 1 <= c < ns.len() && is_child(parents_of(ns), c as int, k) {
            assert(ns[k].children@.contains(c as u32));
        }
    }
}

/// A finished scan is consistent: every node's counts are the sums over its
/// children, its size covers theirs, children name their parent, and the tree
/// totals are those of the root.
pub proof fn law_finalized_is_consistent(t: ScanTree, ns: Seq<Node>, root: int, now: i64)
    requires
        arena_ready(ns, root),
        finalized_from(t, ns, root, now),
    ensures
        consistent(t),
{
    let out = t.nodes@;
    let ps = parents_of(ns);
    assert(parents_of(out) =~= ps) by {
        assert forall|j: int| 0 <= j < out.len() implies parents_of(out)[j] == ps[j] by {
            assert(node_aggregated(ns, out, j));
        }
    }
    assert forall|k: int| 0 <= k < out.len() implies #[trigger] children_listed_once(out, k) by {
        assert(node_aggregated(ns, out, k));
        lemma_finished_children(ns, out, root, k);
        let cs = out[k].children@;
        assert forall|q: int| 0 <= q < cs.len() implies (#[trigger] cs[q] as int) < out.len() by {
            assert(cs.contains(cs[q]));
        }
    }
    assert forall|k: int| 0 <= k < out.len() implies (#[trigger] out[k]).size >= list_sum(out, out[k].children@, size_of())
        && out[k].file_count == list_sum(out, out[k].children@, files_of())
        && out[k].dir_count == list_sum(out, out[k].children@, dirs_of()) by {
        assert(node_aggregated(ns, out, k));
        lemma_finished_children(ns, out, root, k);
        let cs = out[k].children@;
        assert forall|c: int| k < c < ps.len() && is_child(ps, c, k) implies
            #[trigger] size_of()(out[c]) == tree_total(ps, size_w(ns), c) by {
            assert(node_aggregated(ns, out, c));
        }
        assert forall|c: int| k < c < ps.len() && is_child(ps, c, k) implies
            #[trigger] files_of()(out[c]) == tree_total(ps, file_w(ns), c) by {
            assert(node_aggregated(ns, out, c));
        }
        assert forall|c: int| k < c < ps.len() && is_child(ps, c, k) implies
            #[trigger] dirs_of()(out[c]) == tree_total(ps, dir_w(ns), c) by {
            assert(node_aggregated(ns, out, c));
        }
        lemma_exact_list_sum(out, ps, size_w(ns), size_of(), k, k + 1, cs);
        lemma_exact_list_sum(out, ps, file_w(ns), files_of(), k, k + 1, cs);
        lemma_exact_list_sum(out, ps, dir_w(ns), dirs_of(), k, k + 1, cs);
        lemma_children_total_nonneg_pub(ps, size_w(ns), k);
    }
    assert(children_point_back(out)) by {
        assert forall|k: int, q: int| 0 <= k < out.len() && 0 <= q < out[k].children@.len() implies
            #[trigger] out[out[k].children@[q] as int].parent == Some(k as u32) by {
            assert(node_aggregated(ns, out, k));
            lemma_finished_children(ns, out, root, k);
            let c = out[k].children@[q];
            assert(out[k].children@.contains(c));
            assert(node_aggregated(ns, out, c as int));
            assert(ps[c as int] == ns[c as int].parent);
        }
    }
    assert(node_aggregated(ns, out, root));
}


/// In a finished scan where only the root lacks a parent, every node hangs
/// off the root, so every node can be removed keeping the tree consistent.
pub proof fn law_every_node_hangs_off_root(t: ScanTree, ns: Seq<Node>, root: int, now: i64)
    requires
        arena_ready(ns, root),
        finalized_from(t, ns, root, now),
        forall|j: int| 0 <= j < ns.len() && j != root ==> (#[trigger] ns[j]).parent is Some,
    ensures
        forall|x: int| 0 <= x < t.nodes@.len() ==> #[trigger] attached(t.nodes@, root, x),
{
    assert forall|x: int| 0 <= x < t.nodes@.len() implies #[trigger] attached(t.nodes@, root, x) by {
        lemma_hangs_off_root(t, ns, root, now, x);
    }
}

proof fn lemma_hangs_off_root(t: ScanTree, ns: Seq<Node>, root: int, now: i64, x: int)
    requires
        arena_ready(ns, root),
        finalized_from(t, ns, root, now),
        forall|j: int| 0 <= j < ns.len() && j != root ==> (#[trigger] ns[j]).parent is Some,
        0 <= x < ns.len(),
    ensures
        attached(t.nodes@, root, x),
    decreases x,
{
    let out = t.nodes@;
    if x != root {
        assert(node_aggregated(ns, out, x));
        let p = ns[x].parent->0;
        assert(parents_of(ns)[x] == ns[x].parent);
        assert((p as int) < x);
        lemma_hangs_off_root(t, ns, root, now, p as int);
        assert(node_aggregated(ns, out, p as int));
        lemma_finished_children(ns, out, root, p as int);
        assert(is_child(parents_of(ns), x, p as int));
        assert(out[p as int].children@.contains(x as u32));
    }
}

} // verus!
