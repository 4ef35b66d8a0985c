//! The bounded slice of the tree handed to a user interface: a node, its
//! summary, and its visible children down to a depth, each child again with
//! its own visible children.

use vstd::prelude::*;

use crate::commands::dto::{FileNodeDto, FileTypeStat};
use crate::commands::stats::{lemma_pair_sum_nonneg, lemma_pair_sum_split, min_int, now_floor, pair_sum, stats_summable, subtree_stats_at, summary_matches, TOP_FILE_TYPES};
use crate::commands::visible::{adaptive_visible_count, all_in, cap, is_visible_count, lemma_range_sum_nonneg, lemma_range_sum_split, range_sum, rest_from, sizes_of};
use crate::scanner::arena::{below_on, lemma_fewer_links, lemma_totals_monotone, nonneg_on, parents_of, parents_precede, Node};
use crate::scanner::composition::{file_size_w, law_file_types_add_up};
use crate::scanner::consistency::{consistent, law_finalized_is_consistent, list_sum, size_of};
use crate::scanner::finalize::lemma_dir_links_within;
use crate::scanner::remove::removable;
use crate::scanner::path::path_text;
use crate::scanner::tree::{arena_ready, children_listed_once, dir_parents, dir_stats_match, finalized_from, node_aggregated, size_w, stats_match, ScanTree};
use crate::sys::{decimal, file_name_of, path_file_name, u32_text, unix_now_secs};

verus! {

broadcast use vstd::std_specs::hash::group_hash_axioms;

/// The name shown for node `x`: its own name, except for a parentless node,
/// which shows the last component of the scanned path (the whole path when
/// that has no last component or it is empty).
pub open spec fn display_name_of(t: ScanTree, x: int) -> Seq<char> {
    if t.nodes@[x].parent is None {
        match path_file_name(t.root_path@) {
            Some(s) => if s.len() > 0 { s } else { t.root_path@ },
            None => t.root_path@,
        }
    } else {
        t.nodes@[x].name@
    }
}

/// The name shown for node `idx`.
pub fn display_name(tree: &ScanTree, idx: u32) -> (r: String)
    requires
        (idx as int) < tree.nodes@.len(),
    ensures
        r@ == display_name_of(*tree, idx as int),
{
    if tree.nodes[idx as usize].parent.is_none() {
        match file_name_of(tree.root_path.as_str()) {
            Some(s) => {
                if !s.as_str().is_empty() {
                    s
                } else {
                    tree.root_path.clone()
                }
            },
            None => tree.root_path.clone(),
        }
    } else {
        tree.nodes[idx as usize].name.clone()
    }
}

/// What every slice relies on: indices fit, parents precede children, every
/// children list names nodes of the arena and its sizes add up within `u64`,
/// and every directory's statistics can be summarised.
pub open spec fn viewable(t: ScanTree) -> bool {
    let ns = t.nodes@;
    &&& ns.len() <= u32::MAX
    &&& parents_precede(parents_of(ns))
    &&& forall|k: int| 0 <= k < ns.len() ==> #[trigger] all_in(ns, ns[k].children@)
    &&& forall|k: int| 0 <= k < ns.len() ==>
        range_sum(#[trigger] sizes_of(ns, ns[k].children@), 0, ns[k].children@.len() as int) <= u64::MAX
    &&& forall|k: u32| (k as int) < ns.len() && #[trigger] t.dir_stats@.contains_key(k) ==> stats_summable(t, t.dir_stats@[k])
}

/// The number of children of `x` a slice shows, from `offset` on, at depth
/// `depth` with at most about `max_children` children per node.
pub open spec fn shown_count(t: ScanTree, x: int, depth: nat, max_children: int, offset: int, shown: int) -> bool {
    let n = t.nodes@[x];
    if n.is_dir && depth > 0 {
        is_visible_count(t.nodes@, n.children@, offset, max_children, shown)
    } else {
        shown == 0
    }
}

/// `d` is the slice rooted at node `x`: the node's own fields, its name,
/// path and id, the summary of its statistics taken against `now`, the
/// children shown from `offset` on (each the slice of that child one level
/// down, from its first child), and how many children, of what summed size,
/// come after the shown ones.
pub open spec fn dto_matches(t: ScanTree, x: int, depth: nat, max_children: int, offset: int, now: int, d: FileNodeDto) -> bool
    decreases depth, 0nat,
{
    let n = t.nodes@[x];
    let cs = n.children@;
    let shown = d.children@.len() as int;
    let consumed = offset + shown;
    &&& d.id@ == decimal(x as nat)
    &&& d.name@ == display_name_of(t, x)
    &&& d.path@ == path_text(t, x)
    &&& d.node_type@ == (if n.is_dir { "directory"@ } else { "file"@ })
    &&& d.size == n.size
    &&& d.file_count == n.file_count
    &&& d.dir_count == n.dir_count
    &&& d.last_modified == n.mtime
    &&& d.is_hidden == n.is_hidden
    &&& d.permissions@ == Seq::<char>::empty()
    &&& shown_count(t, x, depth, max_children, offset, shown)
    &&& (shown > 0 ==> depth > 0 && kids_match(t, cs, offset, (depth - 1) as nat, max_children, now, d.children@))
    &&& d.hidden_children as int == (if cs.len() > consumed { cs.len() - consumed } else { 0 })
    &&& d.hidden_size as int == range_sum(sizes_of(t.nodes@, cs), consumed, cs.len() as int)
    &&& if t.dir_stats@.contains_key(x as u32) {
        summary_matches(t, t.dir_stats@[x as u32], now, (d.file_types, d.file_types_other, d.median_mtime))
    } else {
        d.file_types@.len() == 0 && d.file_types_other == 0 && d.median_mtime == 0
    }
}

/// Each of `kids` is the slice, `depth` levels deep, of the child listed at
/// its position counted from `offset` in `cs`.
pub open spec fn kids_match(t: ScanTree, cs: Seq<u32>, offset: int, depth: nat, max_children: int, now: int, kids: Seq<FileNodeDto>) -> bool
    decreases depth, kids.len(),
{
    if kids.len() == 0 {
        true
    } else {
        &&& kids_match(t, cs, offset, depth, max_children, now, kids.drop_last())
        &&& dto_matches(t, cs[offset + kids.len() - 1] as int, depth, max_children, 0, now, kids.last())
    }
}

/// Sums over a tail of nonnegative sizes are no larger than over the whole.
proof fn lemma_tail_sum_le(s: Seq<int>, a: int)
    requires
        0 <= a,
        forall|i: int| 0 <= i < s.len() ==> #[trigger] s[i] >= 0,
    ensures
        range_sum(s, a, s.len() as int) <= range_sum(s, 0, s.len() as int),
        range_sum(s, a, s.len() as int) >= 0,
{
    lemma_range_sum_nonneg(s, a, s.len() as int);
    if a <= s.len() {
        lemma_range_sum_nonneg(s, 0, a);
        lemma_range_sum_split(s, 0, a, s.len() as int);
    } else {
        lemma_range_sum_nonneg(s, 0, s.len() as int);
    }
}

/// The sizes from `offset` on are the tail of all the sizes.
proof fn lemma_rest_sizes(ns: Seq<Node>, cs: Seq<u32>, offset: int)
    requires
        0 <= offset,
        all_in(ns, cs),
    ensures
        all_in(ns, rest_from(cs, offset)),
        range_sum(sizes_of(ns, rest_from(cs, offset)), 0, rest_from(cs, offset).len() as int)
            == range_sum(sizes_of(ns, cs), offset, cs.len() as int),
{
    let r = rest_from(cs, offset);
    assert forall|t: int| 0 <= t < r.len() implies (#[trigger] r[t] as int) < ns.len() by {
        assert(r[t] == cs[offset + t]);
    }
    if offset < cs.len() {
        lemma_shifted_sum(sizes_of(ns, cs), sizes_of(ns, r), offset, cs.len() as int);
    }
}

/// Summing a shifted copy of a range gives the same.
proof fn lemma_shifted_sum(s: Seq<int>, r: Seq<int>, off: int, b: int)
    requires
        0 <= off <= b <= s.len(),
        r.len() == b - off,
        forall|t: int| 0 <= t < r.len() ==> #[trigger] r[t] == s[off + t],
    ensures
        range_sum(r, 0, b - off) == range_sum(s, off, b),
    decreases b - off,
{
    if b > off {
        lemma_shifted_sum(s, r.subrange(0, b - off - 1), off, b - 1);
        lemma_range_prefix(r, b - off - 1);
    }
}

/// A prefix of a sequence sums like the sequence up to the same point.
proof fn lemma_range_prefix(r: Seq<int>, m: int)
    requires
        0 <= m < r.len(),
    ensures
        range_sum(r.subrange(0, m), 0, m) == range_sum(r, 0, m),
{
    lemma_prefix_sum_eq(r, r.subrange(0, m), m);
}

proof fn lemma_prefix_sum_eq(r: Seq<int>, q: Seq<int>, m: int)
    requires
        0 <= m <= q.len(),
        m <= r.len(),
        forall|t: int| 0 <= t < m ==> #[trigger] q[t] == r[t],
    ensures
        range_sum(q, 0, m) == range_sum(r, 0, m),
    decreases m,
{
    if m > 0 {
        lemma_prefix_sum_eq(r, q, m - 1);
    }
}

/// The slice rooted at node `idx`, `depth_left` levels of children deep, at
/// most about `max_children` children per node, the root's children shown
/// from `offset` on, statistics summarised against `now`.
pub fn build_dto_at(tree: &ScanTree, idx: u32, depth_left: usize, max_children: usize, offset: usize, now: i64) -> (d: FileNodeDto)
    requires
        viewable(*tree),
        (idx as int) < tree.nodes@.len(),
        now >= now_floor(),
    ensures
        dto_matches(*tree, idx as int, depth_left as nat, max_children as int, offset as int, now as int, d),
    decreases depth_left,
{
    let ghost ns = tree.nodes@;
    let ghost k = idx as int;
    let ghost cs = ns[k].children@;
    let ghost s = sizes_of(ns, cs);
    let node = &tree.nodes[idx as usize];
    assert(all_in(ns, cs));
    assert(forall|i: int| 0 <= i < s.len() ==> #[trigger] s[i] >= 0);
    let mut children: Vec<FileNodeDto> = Vec::new();
    if node.is_dir && depth_left > 0 {
        proof {
            lemma_rest_sizes(ns, cs, offset as int);
            lemma_tail_sum_le(s, offset as int);
        }
        let visible = adaptive_visible_count(tree, node.children.as_slice(), offset, max_children);
        let ghost rest = rest_from(cs, offset as int);
        assert(visible <= rest.len()) by {
            if rest.len() > 12 {
            }
        }
        let mut t: usize = 0;
        while t < visible
            invariant
                viewable(*tree),
                ns == tree.nodes@,
                cs == ns[k].children@,
                *node == ns[k],
                k < ns.len(),
                depth_left > 0,
                now >= now_floor(),
                visible <= rest.len(),
                rest == rest_from(cs, offset as int),
                all_in(ns, cs),
                t <= visible,
                children@.len() == t,
                kids_match(*tree, cs, offset as int, (depth_left - 1) as nat, max_children as int, now as int, children@),
            decreases visible - t,
        {
            assert(offset < cs.len());
            assert(rest.len() == cs.len() - offset);
            assert(cs[offset + t] == rest[t as int]);
            assert(node.children@.len() == cs.len());
            assert(offset + t < node.children.len());
            let c = node.children[offset + t];
            let child = build_dto_at(tree, c, depth_left - 1, max_children, 0, now);
            let ghost before = children@;
            children.push(child);
            proof {
                assert(children@.drop_last() =~= before);
            }
            t = t + 1;
        }
    }
    let consumed = if offset < node.children.len() { offset + children.len() } else { offset };
    let hidden_children: u64 = if node.children.len() > consumed { (node.children.len() - consumed) as u64 } else { 0 };
    let mut hidden_size: u64 = 0;
    let start = if consumed < node.children.len() { consumed } else { node.children.len() };
    let mut j: usize = start;
    proof {
        lemma_tail_sum_le(s, start as int);
    }
    while j < node.children.len()
        invariant
            ns == tree.nodes@,
            cs == ns[k].children@,
            *node == ns[k],
            s == sizes_of(ns, cs),
            all_in(ns, cs),
            forall|i: int| 0 <= i < s.len() ==> #[trigger] s[i] >= 0,
            start <= j <= cs.len(),
            range_sum(s, start as int, cs.len() as int) <= u64::MAX,
            hidden_size as int == range_sum(s, start as int, j as int),
        decreases cs.len() - j,
    {
        proof {
            lemma_range_sum_split(s, start as int, (j + 1) as int, cs.len() as int);
            lemma_range_sum_nonneg(s, (j + 1) as int, cs.len() as int);
        }
        hidden_size = hidden_size + tree.nodes[node.children[j] as usize].size;
        j = j + 1;
    }
    let (file_types, file_types_other, median_mtime) = subtree_stats_at(tree, idx, now);
    let node_type = if node.is_dir { "directory".to_owned() } else { "file".to_owned() };
    let d = FileNodeDto {
        id: u32_text(idx),
        name: display_name(tree, idx),
        path: tree.path_of(idx),
        node_type,
        size: node.size,
        file_count: node.file_count,
        dir_count: node.dir_count,
        children,
        hidden_children,
        hidden_size,
        last_modified: node.mtime,
        is_hidden: node.is_hidden,
        permissions: String::new(),
        file_types,
        file_types_other,
        median_mtime,
    };
    proof {
        if !(ns[k].is_dir && depth_left > 0) {
            assert(d.children@.len() == 0);
        }
        if offset >= cs.len() {
            assert(d.children@.len() == 0) by {
                if ns[k].is_dir && depth_left > 0 {
                    assert(rest_from(cs, offset as int).len() == 0);
                }
            }
        }
    }
    d
}

/// The slice rooted at node `idx`, statistics summarised against the system
/// clock, read once for the whole slice.
pub fn build_dto(tree: &ScanTree, idx: u32, depth_left: usize, max_children: usize, offset: usize) -> (d: FileNodeDto)
    requires
        viewable(*tree),
        (idx as int) < tree.nodes@.len(),
    ensures
        exists|now: i64| now >= 0 && #[trigger] dto_matches(*tree, idx as int, depth_left as nat, max_children as int, offset as int, now as int, d),
{
    let now = unix_now_secs();
    let now = if now < 0 { 0 } else { now };
    build_dto_at(tree, idx, depth_left, max_children, offset, now)
}


// ── What a slice promises ────────────────────────────────────────────────────

/// Each slice of `kids` is that of the child at its position, so it carries
/// that child's size.
proof fn lemma_kids_sizes(t: ScanTree, cs: Seq<u32>, offset: int, depth: nat, max_children: int, now: int, kids: Seq<FileNodeDto>)
    requires
        kids_match(t, cs, offset, depth, max_children, now, kids),
    ensures
        forall|i: int| 0 <= i < kids.len() ==> (#[trigger] kids[i]).size == t.nodes@[cs[offset + i] as int].size,
    decreases kids.len(),
{
    if kids.len() > 0 {
        lemma_kids_sizes(t, cs, offset, depth, max_children, now, kids.drop_last());
        let last = kids.last();
        assert(dto_matches(t, cs[offset + kids.len() - 1] as int, depth, max_children, 0, now, last));
        assert(last.size == t.nodes@[cs[offset + kids.len() - 1] as int].size);
        assert forall|i: int| 0 <= i < kids.len() implies (#[trigger] kids[i]).size == t.nodes@[cs[offset + i] as int].size by {
            if i < kids.len() - 1 {
                assert(kids.drop_last()[i] == kids[i]);
            }
        }
    }
}

/// Sums over a range of a shifted copy are sums over the shifted range.
proof fn lemma_shift_range(s: Seq<int>, r: Seq<int>, off: int, a: int, b: int)
    requires
        0 <= off,
        0 <= a <= b <= r.len(),
        off + r.len() <= s.len(),
        forall|t: int| 0 <= t < r.len() ==> #[trigger] r[t] == s[off + t],
    ensures
        range_sum(r, a, b) == range_sum(s, off + a, off + b),
    decreases b - a,
{
    if a < b {
        lemma_shift_range(s, r, off, a, b - 1);
    }
}

/// A slice accounts for every child from `offset` on: those shown and those
/// counted as hidden add up to all of them, and the hidden size is what the
/// children after the shown ones weigh.
pub proof fn law_slice_accounts_for_children(t: ScanTree, x: int, depth: nat, max_children: int, offset: int, now: int, d: FileNodeDto)
    requires
        0 <= x < t.nodes@.len(),
        0 <= offset,
        dto_matches(t, x, depth, max_children, offset, now, d),
    ensures
        offset <= t.nodes@[x].children@.len() ==>
            d.children@.len() + d.hidden_children == t.nodes@[x].children@.len() - offset,
        offset > t.nodes@[x].children@.len() ==> d.children@.len() == 0 && d.hidden_children == 0,
        forall|i: int| 0 <= i < d.children@.len() ==>
            (#[trigger] d.children@[i]).size == t.nodes@[t.nodes@[x].children@[offset + i] as int].size,
        d.hidden_size == range_sum(sizes_of(t.nodes@, t.nodes@[x].children@), offset + d.children@.len(), t.nodes@[x].children@.len() as int),
{
    let cs = t.nodes@[x].children@;
    let shown = d.children@.len() as int;
    if shown > 0 {
        lemma_kids_sizes(t, cs, offset, (depth - 1) as nat, max_children, now, d.children@);
    }
}

/// The tile for the hidden children is never bigger than the smallest
/// shown one, unless the count shown reached its cap: once more than
/// `MIN_SHOWN` children remain, the slice shows children until the size of
/// the rest is at most that of the last child shown.
pub proof fn law_hidden_never_biggest(t: ScanTree, x: int, depth: nat, max_children: int, offset: int, now: int, d: FileNodeDto)
    requires
        0 <= x < t.nodes@.len(),
        0 <= offset,
        dto_matches(t, x, depth, max_children, offset, now, d),
        t.nodes@[x].is_dir,
        depth > 0,
        offset + 12 < t.nodes@[x].children@.len(),
        d.children@.len() < max_children,
    ensures
        d.children@.len() >= 12,
        d.hidden_size <= d.children@[d.children@.len() - 1].size,
{
    let ns = t.nodes@;
    let cs = ns[x].children@;
    let rest = rest_from(cs, offset);
    let sr = sizes_of(ns, rest);
    let s = sizes_of(ns, cs);
    let shown = d.children@.len() as int;
    let l = sr.len() as int;
    assert(l == cs.len() - offset);
    assert(is_visible_count(ns, cs, offset, max_children, shown));
    lemma_kids_sizes(t, cs, offset, (depth - 1) as nat, max_children, now, d.children@);
    assert forall|q: int| 0 <= q < sr.len() implies #[trigger] sr[q] == s[offset + q] by {
        assert(rest[q] == cs[offset + q]);
    }
    lemma_shift_range(s, sr, offset, shown, l);
    assert(sr[shown - 1] == ns[cs[offset + shown - 1] as int].size);
    assert(d.children@[shown - 1].size == ns[cs[offset + shown - 1] as int].size);
    if !(range_sum(sr, shown, l) <= sr[shown - 1]) {
        assert(shown >= cap(l, max_children));
        assert(shown == l);
        assert(range_sum(sr, shown, l) == 0);
    }
}


/// Summing sizes over a children list is summing the list's sizes.
proof fn lemma_list_sum_is_range_sum(ns: Seq<Node>, cs: Seq<u32>)
    ensures
        list_sum(ns, cs, size_of()) == range_sum(sizes_of(ns, cs), 0, cs.len() as int),
    decreases cs.len(),
{
    if cs.len() > 0 {
        let d = cs.drop_last();
        lemma_list_sum_is_range_sum(ns, d);
        lemma_prefix_sum_eq(sizes_of(ns, cs), sizes_of(ns, d), d.len() as int);
    }
}

/// A finished scan can be sliced: indices fit, parents precede children,
/// children lists name nodes whose sizes add up within `u64`, and every
/// directory's statistics can be summarised.
pub proof fn law_finished_scan_can_be_sliced(t: ScanTree, ns: Seq<Node>, root: int, now: i64)
    requires
        arena_ready(ns, root),
        finalized_from(t, ns, root, now),
    ensures
        viewable(t),
{
    let out = t.nodes@;
    let ps = parents_of(ns);
    law_finalized_is_consistent(t, ns, root, now);
    assert(consistent(t));
    assert(removable(t));
    assert forall|k: int| 0 <= k < out.len() implies #[trigger] all_in(out, out[k].children@) by {
        assert(children_listed_once(out, k));
    }
    assert forall|k: int| 0 <= k < out.len() implies
        range_sum(#[trigger] sizes_of(out, out[k].children@), 0, out[k].children@.len() as int) <= u64::MAX by {
        lemma_list_sum_is_range_sum(out, out[k].children@);
        assert(out[k].size >= list_sum(out, out[k].children@, size_of()));
    }
    assert forall|k: u32| (k as int) < out.len() && #[trigger] t.dir_stats@.contains_key(k) implies stats_summable(t, t.dir_stats@[k]) by {
        let ki = k as int;
        assert(stats_match(ns, now as int, t.ext_names@, t.dir_stats@));
        assert(ns[ki].is_dir);
        let s = t.dir_stats@[k];
        let e = s.exts@;
        assert(dir_stats_match(ns, now as int, t.ext_names@, ki, s));
        law_file_types_add_up(t, ns, root, now, k);
        lemma_pair_sum_split(e, 0, min_int(TOP_FILE_TYPES as int, e.len() as int), e.len() as int);
        lemma_pair_sum_nonneg(e, 0, min_int(TOP_FILE_TYPES as int, e.len() as int));
        if e.len() < TOP_FILE_TYPES {
            assert(pair_sum(e, TOP_FILE_TYPES as int, e.len() as int) == 0);
        }
        lemma_dir_links_within(ns);
        assert(nonneg_on(file_size_w(ns), ns.len() as int));
        lemma_fewer_links(dir_parents(ns), ps, file_size_w(ns), ki);
        assert(below_on(file_size_w(ns), size_w(ns), ns.len() as int));
        lemma_totals_monotone(ps, file_size_w(ns), size_w(ns), ki);
        assert(node_aggregated(ns, out, ki));
    }
}

} // verus!
