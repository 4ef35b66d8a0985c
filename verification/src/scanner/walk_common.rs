//! What the native parallel walkers share: the owned tree a walk produces,
//! and its flattening into the arena in pre-order, so that every child comes
//! after its parent.  The shared counters and the throttled progress report
//! live in `walk_stats` and are re-exported here.

use vstd::prelude::*;

use super::arena::{is_child, parents_of, parents_precede, Node};
use super::dirmeta::{entry_meta, EntryKind};
use super::tree::{arena_ready, children_exact, children_listed_once};

pub use super::walk_stats::{emit_progress_if_due, Msg, WalkStats};

verus! {

/// Owned tree node produced by a parallel walk.
pub struct RawNode {
    pub name: String,
    /// Allocated bytes for files; 0 for directories.
    pub size: u64,
    /// Unix seconds.
    pub mtime: i64,
    pub is_dir: bool,
    pub is_hidden: bool,
    pub children: Vec<RawNode>,
}

/// A name starting with `.` is hidden.
pub open spec fn hidden_name(name: Seq<char>) -> bool {
    name.len() > 0 && name[0] == '.'
}

/// Whether a walked entry named `name` is hidden.
pub fn is_hidden_name(name: &str) -> (r: bool)
    ensures
        r == hidden_name(name@),
{
    !name.is_empty() && name.get_char(0) == '.'
}

/// The childless node kept for a listed entry that is not walked into: a
/// directory already met, or a file.  Its size is the entry's own for a
/// file counted for the first time and 0 for a repeat; it is hidden when
/// its name starts with `.`.
pub fn entry_leaf(kind: EntryKind, name: String, size: u64, mtime: i64) -> (r: RawNode)
    ensures
        r.name@ == name@,
        r.size == (if kind == EntryKind::NewFile || kind == EntryKind::NewDir { size } else { 0 }),
        r.mtime == mtime,
        r.is_dir == (kind == EntryKind::NewDir || kind == EntryKind::SeenDir),
        r.is_hidden == hidden_name(name@),
        r.children@.len() == 0,
{
    let is_hidden = is_hidden_name(name.as_str());
    let m = entry_meta(kind, size, mtime);
    let is_dir = match kind {
        EntryKind::NewDir | EntryKind::SeenDir => true,
        _ => false,
    };
    RawNode { name, size: m.size, mtime: m.mtime, is_dir, is_hidden, children: Vec::new() }
}

// ── The pre-order of a walked tree ───────────────────────────────────────────

/// Number of nodes in the tree under `r`, `r` included.
pub open spec fn raw_count(r: RawNode) -> nat
    decreases r,
{
    1 + raw_count_list(r.children@)
}

/// Number of nodes in a list of trees.
pub open spec fn raw_count_list(cs: Seq<RawNode>) -> nat
    decreases cs,
{
    if cs.len() == 0 {
        0
    } else {
        raw_count_list(cs.drop_last()) + raw_count(cs.last())
    }
}

/// What an arena node records: name, size, mtime, kind, hiddenness, parent.
pub open spec fn entry_of(n: Node) -> (Seq<char>, u64, i64, bool, bool, Option<u32>) {
    (n.name@, n.size, n.mtime, n.is_dir, n.is_hidden, n.parent)
}

/// The record of walked node `r` placed under `parent`; the parentless root is
/// named `root_name`.
pub open spec fn raw_entry(r: RawNode, parent: Option<u32>, root_name: Seq<char>) -> (Seq<char>, u64, i64, bool, bool, Option<u32>) {
    (if parent is None { root_name } else { r.name@ }, r.size, r.mtime, r.is_dir, r.is_hidden, parent)
}

/// The records of the tree under `r` in pre-order, `r` placed at index
/// `start` under `parent`, its children left to right after it.
pub open spec fn preorder(r: RawNode, parent: Option<u32>, start: int, root_name: Seq<char>) -> Seq<(Seq<char>, u64, i64, bool, bool, Option<u32>)>
    decreases r,
{
    seq![raw_entry(r, parent, root_name)] + preorder_list(r.children@, Some(start as u32), start + 1, root_name)
}

/// The pre-order records of a list of sibling trees placed from `start` on.
pub open spec fn preorder_list(cs: Seq<RawNode>, parent: Option<u32>, start: int, root_name: Seq<char>) -> Seq<(Seq<char>, u64, i64, bool, bool, Option<u32>)>
    decreases cs,
{
    if cs.len() == 0 {
        seq![]
    } else {
        preorder_list(cs.drop_last(), parent, start, root_name)
            + preorder(cs.last(), parent, start + raw_count_list(cs.drop_last()), root_name)
    }
}

/// The records still owed by a work stack whose top is its last item.
pub open spec fn stack_preorder(st: Seq<(RawNode, Option<u32>)>, start: int, root_name: Seq<char>) -> Seq<(Seq<char>, u64, i64, bool, bool, Option<u32>)>
    decreases st.len(),
{
    if st.len() == 0 {
        seq![]
    } else {
        preorder(st.last().0, st.last().1, start, root_name)
            + stack_preorder(st.drop_last(), start + raw_count(st.last().0), root_name)
    }
}

proof fn lemma_preorder_len(r: RawNode, parent: Option<u32>, start: int, rn: Seq<char>)
    ensures
        preorder(r, parent, start, rn).len() == raw_count(r),
    decreases r,
{
    lemma_preorder_list_len(r.children@, Some(start as u32), start + 1, rn);
}

proof fn lemma_preorder_list_len(cs: Seq<RawNode>, parent: Option<u32>, start: int, rn: Seq<char>)
    ensures
        preorder_list(cs, parent, start, rn).len() == raw_count_list(cs),
    decreases cs,
{
    if cs.len() > 0 {
        lemma_preorder_list_len(cs.drop_last(), parent, start, rn);
        lemma_preorder_len(cs.last(), parent, start + raw_count_list(cs.drop_last()), rn);
    }
}

proof fn lemma_stack_preorder_len(st: Seq<(RawNode, Option<u32>)>, start: int, rn: Seq<char>)
    ensures
        stack_preorder(st, start, rn).len() == stack_count(st),
    decreases st.len(),
{
    if st.len() > 0 {
        lemma_stack_preorder_len(st.drop_last(), start + raw_count(st.last().0), rn);
        lemma_preorder_len(st.last().0, st.last().1, start, rn);
    }
}

/// Number of nodes still owed by a work stack.
pub open spec fn stack_count(st: Seq<(RawNode, Option<u32>)>) -> nat
    decreases st.len(),
{
    if st.len() == 0 {
        0
    } else {
        raw_count(st.last().0) + stack_count(st.drop_last())
    }
}

/// Shape kept while the arena grows: parents precede children, children lists
/// are exact, nothing is aggregated yet and only index 0 has no parent.
pub open spec fn growing_arena(ns: Seq<Node>) -> bool {
    &&& parents_precede(parents_of(ns))
    &&& children_exact(ns)
    &&& children_in_order(ns)
    &&& forall|k: int| 0 <= k < ns.len() ==> (#[trigger] ns[k]).file_count == 0 && ns[k].dir_count == 0
    &&& ns.len() > 0 ==> ns[0].parent is None
}

/// Every children list is strictly increasing: children in the order they
/// were added, which is the order of their indices.
pub open spec fn children_in_order(ns: Seq<Node>) -> bool {
    forall|k: int, a: int, b: int| 0 <= k < ns.len() && 0 <= a < b < ns[k].children@.len() ==>
        (#[trigger] ns[k].children@[a]) < (#[trigger] ns[k].children@[b])
}

/// Appending a node whose parent is already in the arena, and listing it in
/// that parent's children, keeps the arena's shape.
pub proof fn lemma_grow(ns: Seq<Node>, ns2: Seq<Node>, p: Option<u32>)
    requires
        growing_arena(ns),
        ns2.len() == ns.len() + 1,
        ns2.len() <= u32::MAX + 1,
        ns2[ns.len() as int].parent == p,
        ns2[ns.len() as int].children@ == Seq::<u32>::empty(),
        ns2[ns.len() as int].file_count == 0,
        ns2[ns.len() as int].dir_count == 0,
        p matches Some(q) ==> (q as int) < ns.len(),
        forall|k: int| 0 <= k < ns.len() && Some(k as u32) != p ==> #[trigger] ns2[k] == ns[k],
        p matches Some(q) ==> {
            let a = ns[q as int];
            let b = ns2[q as int];
            &&& b.children@ == a.children@.push(ns.len() as u32)
            &&& b.parent == a.parent
            &&& b.file_count == 0
            &&& b.dir_count == 0
        },
    ensures
        growing_arena(ns2),
{
    let n = ns.len() as int;
    assert forall|k: int, a: int, b: int| 0 <= k < ns2.len() && 0 <= a < b < ns2[k].children@.len() implies
        (#[trigger] ns2[k].children@[a]) < (#[trigger] ns2[k].children@[b]) by {
        if k < n {
            if p == Some(k as u32) {
                let cs = ns[k].children@;
                assert(children_listed_once(ns, k));
                assert(ns2[k].children@[a] == cs[a]);
                if b < cs.len() {
                    assert(ns2[k].children@[b] == cs[b]);
                } else {
                    assert((cs[a] as int) < n);
                }
            } else {
                assert(ns2[k] == ns[k]);
            }
        }
    }
    let ps = parents_of(ns);
    let ps2 = parents_of(ns2);
    assert forall|j: int| 0 <= j < n implies ps2[j] == ps[j] by {
        if let Some(q) = p {
            if j == q as int {
            } else {
                assert(ns2[j] == ns[j]);
            }
        } else {
            assert(ns2[j] == ns[j]);
        }
    }
    assert(parents_precede(ps2)) by {
        assert forall|j: int| 0 <= j < ps2.len() implies (#[trigger] ps2[j] matches Some(q) ==> q < j) by {
            if j < n {
                assert(ps2[j] == ps[j]);
            }
        }
    }
    assert forall|k: int| 0 <= k < ns2.len() implies #[trigger] children_listed_once(ns2, k) by {
        if k < n {
            assert(children_listed_once(ns, k));
            if p == Some(k as u32) {
                let cs = ns[k].children@;
                assert forall|t: int| 0 <= t < cs.len() implies (#[trigger] cs[t] as int) < n by {}
                let cs2 = ns2[k].children@;
                assert forall|a: int, b: int| 0 <= a < b < cs2.len() implies cs2[a] != cs2[b] by {
                    if b == cs.len() {
                        assert((cs[a] as int) < n);
                    } else {
                        assert(cs2[a] == cs[a]);
                        assert(cs2[b] == cs[b]);
                    }
                }
                assert forall|t: int| 0 <= t < cs2.len() implies (#[trigger] cs2[t] as int) < ns2.len() by {
                    if t < cs.len() {
                        assert(cs2[t] == cs[t]);
                    }
                }
            } else {
                assert(ns2[k] == ns[k]);
            }
        }
    }
    assert forall|k: int, c: int| 0 <= k < ns2.len() && 0 <= c < ns2.len() implies
        (#[trigger] ns2[k].children@.contains(c as u32) <==> is_child(ps2, c, k)) by {
        if k == n {
            if is_child(ps2, c, k) {
                if c < n {
                    assert(ps2[c] == ps[c]);
                }
            }
        } else if p == Some(k as u32) {
            let cs = ns[k].children@;
            let cs2 = ns2[k].children@;
            if c == n {
                assert(cs2[cs.len() as int] == n as u32);
            } else {
                assert(ps2[c] == ps[c]);
                assert(ns[k].children@.contains(c as u32) <==> is_child(ps, c, k));
                if cs.contains(c as u32) {
                    let t = choose|t: int| 0 <= t < cs.len() && cs[t] == c as u32;
                    assert(cs2[t] == c as u32);
                }
                if cs2.contains(c as u32) {
                    let t = choose|t: int| 0 <= t < cs2.len() && cs2[t] == c as u32;
                    if t < cs.len() {
                        assert(cs[t] == c as u32);
                    }
                }
            }
        } else {
            assert(ns2[k] == ns[k]);
            if c == n {
                assert(children_listed_once(ns, k));
                if ns[k].children@.contains(c as u32) {
                    let t = choose|t: int| 0 <= t < ns[k].children@.len() && ns[k].children@[t] == c as u32;
                }
            } else {
                assert(ps2[c] == ps[c]);
            }
        }
    }
    assert forall|k: int| 0 <= k < ns2.len() implies (#[trigger] ns2[k]).file_count == 0 && ns2[k].dir_count == 0 by {
        if k < n && Some(k as u32) != p {
            assert(ns2[k] == ns[k]);
        }
    }
    if n > 0 {
        assert(ns2[0] == ns[0] || Some(0u32) == p);
    }
}

/// Pushing the children of a node onto the work stack, last child first, leaves
/// the first child on top: the records owed are unchanged.
proof fn lemma_push_child(
    cs: Seq<RawNode>,
    st: Seq<(RawNode, Option<u32>)>,
    p: Option<u32>,
    start: int,
    rn: Seq<char>,
)
    requires
        cs.len() > 0,
    ensures
        preorder_list(cs.drop_last(), p, start, rn) + stack_preorder(st.push((cs.last(), p)), start + raw_count_list(cs.drop_last()), rn)
            == preorder_list(cs, p, start, rn) + stack_preorder(st, start + raw_count_list(cs), rn),
{
    let init = cs.drop_last();
    let c = cs.last();
    let st2 = st.push((c, p));
    assert(st2.last() == (c, p));
    assert(st2.drop_last() =~= st);
    let a = preorder_list(init, p, start, rn);
    let b = preorder(c, p, start + raw_count_list(init), rn);
    let d = stack_preorder(st, start + raw_count_list(cs), rn);
    assert(stack_preorder(st2, start + raw_count_list(init), rn) == b + d);
    assert(a + (b + d) =~= (a + b) + d);
}

/// Flattens a walked tree into the arena in pre-order.  The root lands at
/// index 0, named `root_path`; each node's children follow it left to right,
/// so every child's index is greater than its parent's, and each parent lists
/// its children.  Sizes are copied, nothing is aggregated yet.
pub fn flatten(root_raw: RawNode, root_path: &str) -> (r: (Vec<Node>, u32))
    requires
        raw_count(root_raw) <= u32::MAX,
    ensures
        r.1 == 0,
        arena_ready(r.0@, 0),
        r.0@.map_values(|n: Node| entry_of(n)) == preorder(root_raw, None, 0, root_path@),
        forall|j: int| 0 < j < r.0@.len() ==> (#[trigger] r.0@[j]).parent is Some,
        children_in_order(r.0@),
{
    let ghost rn = root_path@;
    let ghost target = preorder(root_raw, None, 0, rn);
    let ghost total = raw_count(root_raw);
    let mut nodes: Vec<Node> = Vec::new();
    let mut stack: Vec<(RawNode, Option<u32>)> = Vec::new();
    stack.push((root_raw, None));
    proof {
        let st = stack@;
        assert(st.drop_last() =~= Seq::<(RawNode, Option<u32>)>::empty());
        assert(st.last() == (root_raw, None::<u32>));
        assert(stack_preorder(st.drop_last(), raw_count(root_raw) as int, rn) =~= Seq::empty());
        assert(stack_preorder(st, 0, rn) =~= target);
        assert(nodes@.map_values(|n: Node| entry_of(n)) =~= Seq::<(Seq<char>, u64, i64, bool, bool, Option<u32>)>::empty());
    }
    while stack.len() > 0
        invariant
            total == raw_count(root_raw),
            total <= u32::MAX,
            target == preorder(root_raw, None, 0, rn),
            rn == root_path@,
            nodes@.map_values(|n: Node| entry_of(n)) + stack_preorder(stack@, nodes@.len() as int, rn) == target,
            growing_arena(nodes@),
            nodes@.len() == 0 ==> stack@.len() == 1 && stack@[0].1 is None,
            nodes@.len() > 0 ==> forall|i: int| 0 <= i < stack@.len() ==>
                ((#[trigger] stack@[i]).1 matches Some(q) && (q as int) < nodes@.len()),
            forall|j: int| 0 < j < nodes@.len() ==> (#[trigger] nodes@[j]).parent is Some,
        decreases total - nodes@.len(),
    {
        let ghost before = nodes@;
        let ghost st0 = stack@;
        proof {
            lemma_preorder_len(root_raw, None, 0, rn);
            lemma_stack_preorder_len(st0, before.len() as int, rn);
            assert(stack_count(st0) >= 1);
            assert(before.map_values(|n: Node| entry_of(n)).len() == before.len());
        }
        let (raw, parent) = stack.pop().unwrap();
        let ghost rest = stack@;
        assert(st0.drop_last() =~= rest);
        let idx = nodes.len() as u32;
        let RawNode { name, size, mtime, is_dir, is_hidden, children } = raw;
        let ghost kids = children@;
        let node_name = match parent {
            None => root_path.to_owned(),
            Some(_) => name,
        };
        nodes.push(Node {
            name: node_name,
            size,
            file_count: 0,
            dir_count: 0,
            is_dir,
            is_hidden,
            mtime,
            parent,
            children: Vec::new(),
        });
        let ghost pushed = nodes@;
        match parent {
            Some(p) => {
                let mut upd = Node {
                    name: String::new(),
                    size: 0,
                    file_count: 0,
                    dir_count: 0,
                    is_dir: false,
                    is_hidden: false,
                    mtime: 0,
                    parent: None,
                    children: Vec::new(),
                };
                std::mem::swap(&mut upd, &mut nodes[p as usize]);
                upd.children.push(idx);
                nodes.set(p as usize, upd);
            },
            None => {},
        }
        proof {
            let a = nodes@;
            assert forall|k: int| 0 <= k < before.len() && Some(k as u32) != parent implies #[trigger] a[k] == before[k] by {
                assert(a[k] == pushed[k]);
            }
            lemma_grow(before, a, parent);
            let ea = a.map_values(|n: Node| entry_of(n));
            let eb = before.map_values(|n: Node| entry_of(n));
            assert(entry_of(a[before.len() as int]) == raw_entry(raw, parent, rn));
            assert forall|j: int| 0 <= j < before.len() implies ea[j] == eb[j] by {
                if parent == Some(j as u32) {
                } else {
                    assert(a[j] == before[j]);
                }
            }
            assert(ea =~= eb.push(raw_entry(raw, parent, rn)));
            assert(raw.children@ == kids);
        }
        let mut kids_left = children;
        while kids_left.len() > 0
            invariant
                preorder_list(kids_left@, Some(idx), idx + 1, rn)
                    + stack_preorder(stack@, idx + 1 + raw_count_list(kids_left@), rn)
                    == preorder_list(kids, Some(idx), idx + 1, rn)
                    + stack_preorder(rest, idx + 1 + raw_count_list(kids), rn),
                forall|i: int| 0 <= i < stack@.len() ==>
                    ((#[trigger] stack@[i]).1 matches Some(q) && (q as int) <= idx),
            decreases kids_left@.len(),
        {
            let ghost kl = kids_left@;
            let ghost st1 = stack@;
            let c = kids_left.pop().unwrap();
            proof {
                assert(kl.drop_last() =~= kids_left@);
                assert(kl.last() == c);
                lemma_push_child(kl, st1, Some(idx), idx + 1, rn);
            }
            stack.push((c, Some(idx)));
        }
        proof {
            let ea = nodes@.map_values(|n: Node| entry_of(n));
            let eb = before.map_values(|n: Node| entry_of(n));
            assert(kids_left@ =~= Seq::<RawNode>::empty());
            let pre_raw = preorder(raw, parent, before.len() as int, rn);
            assert(pre_raw == seq![raw_entry(raw, parent, rn)] + preorder_list(kids, Some(idx), idx + 1, rn));
            let s_rest = stack_preorder(rest, idx + 1 + raw_count_list(kids), rn);
            assert(stack_preorder(st0, before.len() as int, rn) == pre_raw + s_rest);
            assert(stack_preorder(stack@, idx + 1, rn) == preorder_list(kids, Some(idx), idx + 1, rn) + s_rest);
            assert(eb + (pre_raw + s_rest) =~= ea + (preorder_list(kids, Some(idx), idx + 1, rn) + s_rest));
        }
    }
    proof {
        let ns = nodes@;
        assert(stack@ =~= Seq::<(RawNode, Option<u32>)>::empty());
        assert(nodes@.map_values(|n: Node| entry_of(n)) + Seq::empty() =~= nodes@.map_values(|n: Node| entry_of(n)));
        lemma_preorder_len(root_raw, None, 0, rn);
        assert(nodes@.map_values(|n: Node| entry_of(n)).len() == ns.len());
        assert(ns.len() >= 1);
    }
    (nodes, 0)
}

} // verus!
