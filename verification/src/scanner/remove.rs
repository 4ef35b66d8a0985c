//! Removing a node and its whole subtree from a scanned tree, keeping every
//! ancestor's size, counts and statistics in step without a rescan.

use vstd::prelude::*;

use super::accum::ids_distinct;
use super::age::{age_bucket, spec_age_bucket, SECS_PER_DAY};
use super::arena::{parents_of, parents_precede, Node};
use super::ext::{ext_key, extension_of};
use super::sort::{sort_by_weight_desc, sorted_by_weight_desc};
use super::tree::{children_listed_once, DirStats, ScanTree};

verus! {

// ── Ancestors ────────────────────────────────────────────────────────────────

/// `a` is a strict ancestor of `x` along the parent links.
pub open spec fn is_ancestor(ps: Seq<Option<u32>>, a: int, x: int) -> bool
    decreases x,
{
    if 0 <= x < ps.len() {
        match ps[x] {
            Some(p) => if (p as int) < x { p as int == a || is_ancestor(ps, a, p as int) } else { false },
            None => false,
        }
    } else {
        false
    }
}

pub proof fn lemma_ancestor_below(ps: Seq<Option<u32>>, a: int, x: int)
    requires
        is_ancestor(ps, a, x),
    ensures
        0 <= a < x < ps.len(),
    decreases x,
{
    let p = ps[x]->0 as int;
    if p != a {
        lemma_ancestor_below(ps, a, p);
    }
}

/// Two ancestors of the same node are ancestors of one another.
pub proof fn lemma_ancestors_ordered(ps: Seq<Option<u32>>, k1: int, k2: int, x: int)
    requires
        is_ancestor(ps, k1, x),
        is_ancestor(ps, k2, x),
        k1 < k2,
    ensures
        is_ancestor(ps, k1, k2),
    decreases x,
{
    let p = ps[x]->0 as int;
    if k2 == p {
    } else {
        lemma_ancestor_below(ps, k2, p);
        if k1 == p {
        } else {
            lemma_ancestors_ordered(ps, k1, k2, p);
        }
    }
}

// ── Saturating arithmetic ────────────────────────────────────────────────────

pub open spec fn sat_sub(a: int, b: int) -> int {
    if a >= b { a - b } else { 0 }
}

// ── Children list without one entry ──────────────────────────────────────────

/// `cs` with every occurrence of `x` dropped, order kept.
pub open spec fn without(cs: Seq<u32>, x: u32) -> Seq<u32>
    decreases cs.len(),
{
    if cs.len() == 0 {
        Seq::empty()
    } else if cs.last() == x {
        without(cs.drop_last(), x)
    } else {
        without(cs.drop_last(), x).push(cs.last())
    }
}

fn children_without(cs: &Vec<u32>, x: u32) -> (r: Vec<u32>)
    ensures
        r@ == without(cs@, x),
{
    let mut r: Vec<u32> = Vec::new();
    let mut t: usize = 0;
    while t < cs.len()
        invariant
            t <= cs.len(),
            r@ == without(cs@.take(t as int), x),
        decreases cs.len() - t,
    {
        proof {
            assert(cs@.take(t + 1).drop_last() =~= cs@.take(t as int));
        }
        if cs[t] != x {
            r.push(cs[t]);
        }
        t = t + 1;
    }
    assert(cs@.take(cs@.len() as int) =~= cs@);
    r
}

// ── Statistics of what is removed ────────────────────────────────────────────

/// Index of the first pair with id `e`, or `-1`.
pub open spec fn first_id_index(s: Seq<(u32, u64)>, e: u32) -> int
    decreases s.len(),
{
    if s.len() == 0 {
        -1
    } else if s[0].0 == e {
        0
    } else {
        let r = first_id_index(s.drop_first(), e);
        if r < 0 { -1 } else { r + 1 }
    }
}

/// Takes `x.1` off the entry of id `x.0`; an entry that would reach zero or
/// less is dropped.
pub open spec fn apply_del(s: Seq<(u32, u64)>, x: (u32, u64)) -> Seq<(u32, u64)> {
    let pos = first_id_index(s, x.0);
    if pos < 0 {
        s
    } else if s[pos].1 <= x.1 {
        s.remove(pos)
    } else {
        s.update(pos, (x.0, (s[pos].1 - x.1) as u64))
    }
}

/// Applies every pair of `dels`, first to last.
pub open spec fn apply_dels(s: Seq<(u32, u64)>, dels: Seq<(u32, u64)>) -> Seq<(u32, u64)>
    decreases dels.len(),
{
    if dels.len() == 0 {
        s
    } else {
        apply_dels(apply_del(s, dels[0]), dels.drop_first())
    }
}

/// `after` is `before` with `del` taken off: each histogram bucket reduced
/// (never below zero) and the extension list reduced pair by pair, then
/// ordered largest first.
pub open spec fn stats_reduced(before: DirStats, del_hist: Seq<u32>, del_exts: Seq<(u32, u64)>, after: DirStats) -> bool {
    &&& forall|b: int| 0 <= b < 9 ==> #[trigger] after.age_hist@[b] as int
        == sat_sub(before.age_hist@[b] as int, del_hist[b] as int)
    &&& after.exts@.to_multiset() == apply_dels(before.exts@, del_exts).to_multiset()
    &&& sorted_by_weight_desc(after.exts@)
}

/// Index of the first interned name reading `x`, or `-1`.
pub open spec fn first_name_index(names: Seq<String>, x: Seq<char>) -> int
    decreases names.len(),
{
    if names.len() == 0 {
        -1
    } else if names[0]@ == x {
        0
    } else {
        let r = first_name_index(names.drop_first(), x);
        if r < 0 { -1 } else { r + 1 }
    }
}

/// Whole days from `mtime` to `now`, with the difference held to the `i64` range.
pub open spec fn clamped_age_days(now: i64, mtime: i64) -> int {
    let d = if now - mtime > i64::MAX { i64::MAX as int } else if now - mtime < i64::MIN { i64::MIN as int } else { now - mtime };
    if d > 0 { d / (SECS_PER_DAY as int) } else { 0 }
}

/// The histogram a single file contributes: one count in its age bucket.
pub open spec fn file_delta_hist(n: Node, now: i64) -> Seq<u32> {
    Seq::new(9, |x: int| if x == spec_age_bucket(clamped_age_days(now, n.mtime)) { 1u32 } else { 0u32 })
}

/// The extension totals a single file contributes: its size under the id of
/// its extension, when that extension is interned.
pub open spec fn file_delta_exts(n: Node, names: Seq<String>) -> Seq<(u32, u64)> {
    let e = first_name_index(names, ext_key(n.name@));
    if e < 0 { Seq::<(u32, u64)>::empty() } else { seq![(e as u32, n.size)] }
}

/// What a single file contributes to its ancestors' statistics.
pub open spec fn file_delta(n: Node, names: Seq<String>, now: i64, ds: DirStats) -> bool {
    &&& ds.age_hist@ == file_delta_hist(n, now)
    &&& ds.exts@ == file_delta_exts(n, names)
}

pub proof fn lemma_first_id_index(s: Seq<(u32, u64)>, e: u32)
    ensures
        -1 <= first_id_index(s, e) < s.len(),
        first_id_index(s, e) >= 0 ==> s[first_id_index(s, e)].0 == e,
        forall|t: int| 0 <= t < s.len() && (first_id_index(s, e) < 0 || t < first_id_index(s, e)) ==> s[t].0 != e,
    decreases s.len(),
{
    if s.len() > 0 && s[0].0 != e {
        lemma_first_id_index(s.drop_first(), e);
        assert forall|t: int| 0 <= t < s.len() && (first_id_index(s, e) < 0 || t < first_id_index(s, e)) implies s[t].0 != e by {
            if t > 0 {
                assert(s.drop_first()[t - 1] == s[t]);
            }
        }
    }
}

pub proof fn lemma_first_name_index(names: Seq<String>, x: Seq<char>)
    ensures
        -1 <= first_name_index(names, x) < names.len(),
        first_name_index(names, x) >= 0 ==> names[first_name_index(names, x)]@ == x,
        forall|t: int| 0 <= t < names.len() && (first_name_index(names, x) < 0 || t < first_name_index(names, x)) ==> names[t]@ != x,
    decreases names.len(),
{
    if names.len() > 0 && names[0]@ != x {
        lemma_first_name_index(names.drop_first(), x);
        assert forall|t: int| 0 <= t < names.len() && (first_name_index(names, x) < 0 || t < first_name_index(names, x)) implies names[t]@ != x by {
            if t > 0 {
                assert(names.drop_first()[t - 1] == names[t]);
            }
        }
    }
}

/// Histogram with a single count in bucket `b`.
fn unit_hist(b: usize) -> (h: [u32; 9])
    requires
        b < 9,
    ensures
        forall|x: int| 0 <= x < 9 ==> #[trigger] h@[x] == (if x == b { 1u32 } else { 0u32 }),
{
    let mut h: [u32; 9] = [0u32; 9];
    h[b] = 1;
    h
}

/// Statistics contributed by the file at `i`.
fn file_stats(nodes: &Vec<Node>, names: &Vec<String>, i: usize, now: i64) -> (ds: DirStats)
    requires
        i < nodes@.len(),
        names@.len() <= u32::MAX,
    ensures
        file_delta(nodes@[i as int], names@, now, ds),
{
    let ext = extension_of(nodes[i].name.as_str());
    let mut e: usize = 0;
    let mut found = false;
    while e < names.len()
        invariant
            e <= names.len(),
            forall|t: int| 0 <= t < e ==> (#[trigger] names@[t])@ != ext@,
            found ==> e < names.len() && names@[e as int]@ == ext@,
        ensures
            found ==> e < names.len() && names@[e as int]@ == ext@,
            !found ==> e == names.len(),
            forall|t: int| 0 <= t < e ==> (#[trigger] names@[t])@ != ext@,
        decreases names.len() - e,
    {
        if names[e] == ext {
            found = true;
            break;
        }
        e = e + 1;
    }
    proof {
        lemma_first_name_index(names@, ext@);
        let fi = first_name_index(names@, ext@);
        if found {
            assert(fi == e);
        } else {
            assert(fi < 0);
        }
    }
    let delta = nodes[i].mtime;
    let d: i64 = if delta >= 0 {
        if now >= i64::MIN + delta { now - delta } else { i64::MIN }
    } else {
        if now <= i64::MAX + delta { now - delta } else { i64::MAX }
    };
    let days: i64 = if d > 0 { d / SECS_PER_DAY } else { 0 };
    let b = age_bucket(days);
    let age_hist = unit_hist(b);
    let exts: Vec<(u32, u64)> = if found {
        vec![(e as u32, nodes[i].size)]
    } else {
        Vec::new()
    };
    let ds = DirStats { age_hist, exts };
    proof {
        assert(days == clamped_age_days(now, nodes@[i as int].mtime));
        assert(ds.age_hist@ =~= file_delta_hist(nodes@[i as int], now));
        if found {
            assert(ds.exts@ =~= seq![(e as u32, nodes@[i as int].size)]);
        } else {
            assert(ds.exts@ =~= Seq::<(u32, u64)>::empty());
        }
    }
    ds
}

/// Takes `del` off `st`.
fn reduce_stats(st: DirStats, del: &DirStats) -> (r: DirStats)
    ensures
        stats_reduced(st, del.age_hist@, del.exts@, r),
{
    let h = st.age_hist;
    let d = del.age_hist;
    let age_hist: [u32; 9] = [
        h[0].saturating_sub(d[0]),
        h[1].saturating_sub(d[1]),
        h[2].saturating_sub(d[2]),
        h[3].saturating_sub(d[3]),
        h[4].saturating_sub(d[4]),
        h[5].saturating_sub(d[5]),
        h[6].saturating_sub(d[6]),
        h[7].saturating_sub(d[7]),
        h[8].saturating_sub(d[8]),
    ];
    let mut exts = st.exts;
    let ghost start = exts@;
    let mut t: usize = 0;
    while t < del.exts.len()
        invariant
            t <= del.exts.len(),
            exts@ == apply_dels(start, del.exts@.take(t as int)),
        decreases del.exts.len() - t,
    {
        let (del_eid, del_sz) = del.exts[t];
        let ghost before = exts@;
        proof {
            lemma_apply_dels_push(start, del.exts@.take(t as int), (del_eid, del_sz));
            assert(del.exts@.take(t + 1) =~= del.exts@.take(t as int).push((del_eid, del_sz)));
            lemma_first_id_index(before, del_eid);
        }
        let mut pos: usize = 0;
        while pos < exts.len() && exts[pos].0 != del_eid
            invariant
                exts@ == before,
                pos <= exts.len(),
                forall|q: int| 0 <= q < pos ==> exts@[q].0 != del_eid,
            decreases exts.len() - pos,
        {
            pos = pos + 1;
        }
        proof {
            let fi = first_id_index(before, del_eid);
            if pos < exts.len() {
                assert(fi == pos);
            } else {
                assert(fi < 0);
            }
        }
        if pos < exts.len() {
            if exts[pos].1 <= del_sz {
                exts.remove(pos);
            } else {
                let v = exts[pos].1 - del_sz;
                exts.set(pos, (del_eid, v));
            }
        }
        proof {
            assert(exts@ =~= apply_del(before, (del_eid, del_sz)));
        }
        t = t + 1;
    }
    assert(del.exts@.take(del.exts@.len() as int) =~= del.exts@);
    let ghost reduced = exts@;
    sort_by_weight_desc(&mut exts);
    let r = DirStats { age_hist, exts };
    proof {
        assert forall|b: int| 0 <= b < 9 implies #[trigger] r.age_hist@[b] as int
            == sat_sub(st.age_hist@[b] as int, del.age_hist@[b] as int) by {
            assert(r.age_hist@ == seq![
                h[0].saturating_sub(d[0]), h[1].saturating_sub(d[1]), h[2].saturating_sub(d[2]),
                h[3].saturating_sub(d[3]), h[4].saturating_sub(d[4]), h[5].saturating_sub(d[5]),
                h[6].saturating_sub(d[6]), h[7].saturating_sub(d[7]), h[8].saturating_sub(d[8])]);
        }
    }
    r
}

proof fn lemma_apply_dels_push(s: Seq<(u32, u64)>, dels: Seq<(u32, u64)>, x: (u32, u64))
    ensures
        apply_dels(s, dels.push(x)) == apply_del(apply_dels(s, dels), x),
    decreases dels.len(),
{
    if dels.len() == 0 {
        assert(dels.push(x).drop_first() =~= Seq::<(u32, u64)>::empty());
        assert(apply_dels(apply_del(s, x), Seq::<(u32, u64)>::empty()) == apply_del(s, x));
    } else {
        assert(dels.push(x).drop_first() =~= dels.drop_first().push(x));
        lemma_apply_dels_push(apply_del(s, dels[0]), dels.drop_first(), x);
    }
}

// ── Removal ──────────────────────────────────────────────────────────────────

/// What removal subtracts from every ancestor: the node's size, and the
/// counts it contributed (its descendants plus itself).
pub open spec fn removed_size(x: Node) -> int {
    x.size as int
}

pub open spec fn removed_files(x: Node) -> int {
    x.file_count + (if x.is_dir { 0int } else { 1int })
}

pub open spec fn removed_dirs(x: Node) -> int {
    x.dir_count + (if x.is_dir { 1int } else { 0int })
}

/// Node `k` after removing the subtree at `idx` from the arena `o`: ancestors
/// lose the removed size and counts (never below zero), the parent forgets
/// the removed child, and the removed node is emptied in place so indices stay
/// stable; every other node is untouched.
pub open spec fn removal_node(o: Seq<Node>, idx: int, k: int, f: Node) -> bool {
    let x = o[idx];
    let anc = is_ancestor(parents_of(o), k, idx);
    &&& f.name == o[k].name
    &&& f.is_dir == o[k].is_dir
    &&& f.is_hidden == o[k].is_hidden
    &&& f.mtime == o[k].mtime
    &&& f.parent == o[k].parent
    &&& f.size as int == (if k == idx { 0 } else if anc { sat_sub(o[k].size as int, removed_size(x)) } else { o[k].size as int })
    &&& f.file_count as int == (if k == idx { 0 } else if anc { sat_sub(o[k].file_count as int, removed_files(x)) } else { o[k].file_count as int })
    &&& f.dir_count as int == (if k == idx { 0 } else if anc { sat_sub(o[k].dir_count as int, removed_dirs(x)) } else { o[k].dir_count as int })
    &&& f.children@ == (if k == idx { Seq::empty() } else if x.parent == Some(k as u32) {
        without(o[k].children@, idx as u32) } else { o[k].children@ })
}

/// The statistics kept when the subtree at `idx` goes: all but a removed
/// directory's own.
pub open spec fn stats_left(o: ScanTree, idx: int) -> Map<u32, DirStats> {
    if o.nodes@[idx].is_dir { o.dir_stats@.remove(idx as u32) } else { o.dir_stats@ }
}

/// The statistics after removing the subtree at `idx`: a removed directory
/// loses its own entry, and every ancestor with statistics has the removed
/// statistics taken off (a directory's own, or a single file's contribution).
pub open spec fn removal_stats(o: ScanTree, idx: int, now: i64, m: Map<u32, DirStats>) -> bool {
    let x = o.nodes@[idx];
    let m0 = o.dir_stats@;
    let m1 = stats_left(o, idx);
    let has_del = !x.is_dir || m0.contains_key(idx as u32);
    let dh = if x.is_dir { m0[idx as u32].age_hist@ } else { file_delta_hist(x, now) };
    let dx = if x.is_dir { m0[idx as u32].exts@ } else { file_delta_exts(x, o.ext_names@) };
    &&& m.dom() == m1.dom()
    &&& forall|k: u32| #[trigger] m1.contains_key(k) ==> (if has_del && is_ancestor(parents_of(o.nodes@), k as int, idx) {
        stats_reduced(m1[k], dh, dx, m[k]) } else { m[k] == m1[k] })
}

/// Shape that removal relies on: indices fit, parents precede children and
/// children lists hold valid indices.
pub open spec fn removable(t: ScanTree) -> bool {
    &&& t.nodes@.len() <= u32::MAX
    &&& t.ext_names@.len() <= u32::MAX
    &&& parents_precede(parents_of(t.nodes@))
    &&& forall|k: int| 0 <= k < t.nodes@.len() ==> #[trigger] children_listed_once(t.nodes@, k)
}

/// Node `k` after the ancestors' sizes and counts were reduced.
pub open spec fn removal_counts_done(o: Seq<Node>, idx: int, k: int, f: Node) -> bool {
    if is_ancestor(parents_of(o), k, idx) { counts_reduced_node(f, o[k], o[idx]) } else { f == o[k] }
}

pub open spec fn counts_reduced_node(f: Node, o: Node, x: Node) -> bool {
    &&& f.name == o.name
    &&& f.is_dir == o.is_dir
    &&& f.is_hidden == o.is_hidden
    &&& f.mtime == o.mtime
    &&& f.parent == o.parent
    &&& f.children == o.children
    &&& f.size as int == sat_sub(o.size as int, removed_size(x))
    &&& f.file_count as int == sat_sub(o.file_count as int, removed_files(x))
    &&& f.dir_count as int == sat_sub(o.dir_count as int, removed_dirs(x))
}

impl ScanTree {
    /// Removes the node at `idx` and its whole subtree, ages of removed files
    /// taken against `now_secs`.  Subtracts its size, counts and statistics from
    /// all ancestors, detaches it from its parent and tombstones it in place.
    /// Returns the updated tree totals.
    pub fn remove_subtree_at(&mut self, idx: u32, now_secs: i64) -> (r: (u64, u64, u64))
        requires
            removable(*old(self)),
            (idx as int) < old(self).nodes@.len(),
            removed_files(old(self).nodes@[idx as int]) <= u64::MAX,
            removed_dirs(old(self).nodes@[idx as int]) <= u64::MAX,
        ensures
            final(self).nodes@.len() == old(self).nodes@.len(),
            forall|k: int| 0 <= k < old(self).nodes@.len() ==>
                #[trigger] removal_node(old(self).nodes@, idx as int, k, final(self).nodes@[k]),
            removal_stats(*old(self), idx as int, now_secs, final(self).dir_stats@),
            final(self).total_size as int == sat_sub(old(self).total_size as int, removed_size(old(self).nodes@[idx as int])),
            final(self).total_files as int == sat_sub(old(self).total_files as int, removed_files(old(self).nodes@[idx as int])),
            final(self).total_dirs as int == sat_sub(old(self).total_dirs as int, removed_dirs(old(self).nodes@[idx as int])),
            r == (final(self).total_size, final(self).total_files, final(self).total_dirs),
            final(self).root == old(self).root,
            final(self).root_path == old(self).root_path,
            final(self).scan_duration_ms == old(self).scan_duration_ms,
            final(self).ext_names == old(self).ext_names,
            final(self).scan_now_secs == old(self).scan_now_secs,
    {
        broadcast use vstd::std_specs::hash::group_hash_axioms;
        let ghost o = self.nodes@;
        let ghost ot = *self;
        let ghost ps = parents_of(o);
        let i = idx as usize;
        let n = self.nodes.len();
        let d_size = self.nodes[i].size;
        let is_dir = self.nodes[i].is_dir;
        let d_files: u64 = self.nodes[i].file_count + if is_dir { 0 } else { 1 };
        let d_dirs: u64 = self.nodes[i].dir_count + if is_dir { 1 } else { 0 };
        let parent_opt = self.nodes[i].parent;
        let ghost x = o[idx as int];

        // Statistics to take off the ancestors.
        let del: Option<DirStats> = if is_dir {
            self.dir_stats.remove(&idx)
        } else {
            Some(file_stats(&self.nodes, &self.ext_names, i, now_secs))
        };
        let ghost m1 = self.dir_stats@;
        proof {
            lemma_ancestors_below_parent(ps, idx as int);
        }

        // Subtract size and counts from every ancestor.
        let mut cur_opt = parent_opt;
        proof {
            lemma_ancestors_below_parent(ps, idx as int);
        }
        loop
            invariant
                n == self.nodes.len(),
                o.len() == n,
                ps == parents_of(o),
                parents_precede(ps),
                (idx as int) < n,
                x == o[idx as int],
                d_size == x.size,
                d_files as int == removed_files(x),
                d_dirs as int == removed_dirs(x),
                cur_opt matches Some(c) ==> is_ancestor(ps, c as int, idx as int),
                self.dir_stats@ == m1,
                self.ext_names == ot.ext_names,
                self.total_size == ot.total_size,
                self.total_files == ot.total_files,
                self.total_dirs == ot.total_dirs,
                self.root == ot.root,
                self.root_path == ot.root_path,
                self.scan_duration_ms == ot.scan_duration_ms,
                self.scan_now_secs == ot.scan_now_secs,
                forall|k: int| 0 <= k < n ==> #[trigger] self.nodes@[k] == o[k] || (is_ancestor(ps, k, idx as int)
                    && k > (match cur_opt { Some(c) => c as int, None => -1 }) && counts_reduced_node(self.nodes@[k], o[k], x)),
                forall|k: int| 0 <= k < n && is_ancestor(ps, k, idx as int)
                    && k > (match cur_opt { Some(c) => c as int, None => -1 }) ==> counts_reduced_node(#[trigger] self.nodes@[k], o[k], x),
                forall|k: int| 0 <= k < n && !(is_ancestor(ps, k, idx as int)
                    && k > (match cur_opt { Some(c) => c as int, None => -1 })) ==> #[trigger] self.nodes@[k] == o[k],
            ensures
                cur_opt is None,
                forall|k: int| 0 <= k < n && is_ancestor(ps, k, idx as int) && k > -1
                    ==> counts_reduced_node(#[trigger] self.nodes@[k], o[k], x),
                forall|k: int| 0 <= k < n && !(is_ancestor(ps, k, idx as int) && k > -1) ==> #[trigger] self.nodes@[k] == o[k],
            decreases (match cur_opt { Some(c) => c as int + 1, None => 0 }),
        {
            match cur_opt {
                Some(cur) => {
                    let c = cur as usize;
                    proof {
                        lemma_ancestor_below(ps, cur as int, idx as int);
                        assert(self.nodes@[c as int] == o[c as int]);
                    }
                    let s0 = self.nodes[c].size;
                    let f0 = self.nodes[c].file_count;
                    let g0 = self.nodes[c].dir_count;
                    self.nodes[c].size = s0.saturating_sub(d_size);
                    self.nodes[c].file_count = f0.saturating_sub(d_files);
                    self.nodes[c].dir_count = g0.saturating_sub(d_dirs);
                    let next = self.nodes[c].parent;
                    proof {
                        assert(counts_reduced_node(self.nodes@[c as int], o[c as int], x));
                        assert(next == ps[c as int]);
                        if next is Some {
                            let q = next->0 as int;
                            assert(q < c);
                            assert(is_ancestor(ps, q, idx as int)) by {
                                lemma_ancestor_chain_up(ps, cur as int, idx as int);
                            }
                        }
                        assert forall|k: int| 0 <= k < n && is_ancestor(ps, k, idx as int) && k < c
                            implies k <= (match next { Some(q) => q as int, None => -1 }) by {
                            lemma_ancestors_ordered(ps, k, cur as int, idx as int);
                            lemma_ancestor_below(ps, k, cur as int);
                            if next is Some {
                                let q = next->0 as int;
                                if k != q {
                                    lemma_ancestor_below(ps, k, q);
                                }
                            }
                        }
                    }
                    cur_opt = next;
                },
                None => {
                    break;
                },
            }
        }

        proof {
            assert forall|k: int| 0 <= k < n implies #[trigger] removal_counts_done(o, idx as int, k, self.nodes@[k]) by {
                if is_ancestor(ps, k, idx as int) {
                    lemma_ancestor_below(ps, k, idx as int);
                }
            }
        }
        // Subtract the statistics from every ancestor that has them.
        match &del {
            Some(ds) => {
                let mut cur_opt = parent_opt;
                loop
                    invariant
                        n == self.nodes.len(),
                        o.len() == n,
                        ps == parents_of(o),
                        parents_precede(ps),
                        (idx as int) < n,
                        forall|k: int| 0 <= k < n ==> (#[trigger] self.nodes@[k]).parent == o[k].parent,
                        forall|k: int| 0 <= k < n ==> #[trigger] removal_counts_done(o, idx as int, k, self.nodes@[k]),
                        self.ext_names == ot.ext_names,
                        self.total_size == ot.total_size,
                        self.total_files == ot.total_files,
                        self.total_dirs == ot.total_dirs,
                        self.root == ot.root,
                        self.root_path == ot.root_path,
                        self.scan_duration_ms == ot.scan_duration_ms,
                        self.scan_now_secs == ot.scan_now_secs,
                        cur_opt matches Some(c) ==> is_ancestor(ps, c as int, idx as int),
                        cur_opt == parent_opt || cur_opt is None || true,
                        self.dir_stats@.dom() == m1.dom(),
                        forall|k: u32| #[trigger] m1.contains_key(k) ==> (if is_ancestor(ps, k as int, idx as int)
                            && (k as int) > (match cur_opt { Some(c) => c as int, None => -1 }) {
                            stats_reduced(m1[k], ds.age_hist@, ds.exts@, self.dir_stats@[k]) } else { self.dir_stats@[k] == m1[k] }),
                    ensures
                        self.dir_stats@.dom() == m1.dom(),
                        forall|k: u32| #[trigger] m1.contains_key(k) ==> (if is_ancestor(ps, k as int, idx as int) {
                            stats_reduced(m1[k], ds.age_hist@, ds.exts@, self.dir_stats@[k]) } else { self.dir_stats@[k] == m1[k] }),
                    decreases (match cur_opt { Some(c) => c as int + 1, None => 0 }),
                {
                    match cur_opt {
                        Some(cur) => {
                            let c = cur as usize;
                            proof {
                                lemma_ancestor_below(ps, cur as int, idx as int);
                            }
                            let ghost before = self.dir_stats@;
                            match self.dir_stats.remove(&cur) {
                                Some(st) => {
                                    let st2 = reduce_stats(st, ds);
                                    self.dir_stats.insert(cur, st2);
                                },
                                None => {},
                            }
                            let next = self.nodes[c].parent;
                            proof {
                                assert(next == ps[c as int]);
                                if next is Some {
                                    assert(is_ancestor(ps, next->0 as int, idx as int)) by {
                                        lemma_ancestor_chain_up(ps, cur as int, idx as int);
                                    }
                                }
                                assert forall|k: u32| #[trigger] m1.contains_key(k) implies (if is_ancestor(ps, k as int, idx as int)
                                    && (k as int) > (match next { Some(q) => q as int, None => -1 }) {
                                    stats_reduced(m1[k], ds.age_hist@, ds.exts@, self.dir_stats@[k]) } else { self.dir_stats@[k] == m1[k] }) by {
                                    if is_ancestor(ps, k as int, idx as int) && (k as int) < cur as int {
                                        lemma_ancestors_ordered(ps, k as int, cur as int, idx as int);
                                        if next is Some && k as int != next->0 as int {
                                            lemma_ancestor_below(ps, k as int, next->0 as int);
                                        }
                                    }
                                }
                            }
                            cur_opt = next;
                        },
                        None => {
                            proof {
                                assert forall|k: u32| #[trigger] m1.contains_key(k) && is_ancestor(ps, k as int, idx as int)
                                    implies (k as int) > -1 by {
                                    lemma_ancestor_below(ps, k as int, idx as int);
                                }
                            }
                            break;
                        },
                    }
                }
            },
            None => {},
        }
        proof {
            let m0 = ot.dir_stats@;
            if x.is_dir {
                assert(m1 == m0.remove(idx));
            } else {
                assert(m1 == m0);
            }
            assert(removal_stats(ot, idx as int, now_secs, self.dir_stats@));
        }

        // Detach from the parent's children list.
        let ghost counted = self.nodes@;
        match parent_opt {
            Some(p) => {
                let pu = p as usize;
                proof {
                    assert(ps[idx as int] == parent_opt);
                }
                let kept = children_without(&self.nodes[pu].children, idx);
                self.nodes[pu].children = kept;
            },
            None => {},
        }

        // Tombstone: the index stays valid, the node holds nothing.
        self.nodes[i].size = 0;
        self.nodes[i].file_count = 0;
        self.nodes[i].dir_count = 0;
        self.nodes[i].children = Vec::new();
        proof {
            assert forall|k: int| 0 <= k < n implies #[trigger] removal_node(o, idx as int, k, self.nodes@[k]) by {
                assert(removal_counts_done(o, idx as int, k, counted[k]));
                if is_ancestor(ps, k, idx as int) {
                    lemma_ancestor_below(ps, k, idx as int);
                }
                if k == idx as int {
                    lemma_ancestors_below_parent(ps, idx as int);
                    assert(!is_ancestor(ps, k, idx as int)) by {
                        if is_ancestor(ps, k, idx as int) {
                            lemma_ancestor_below(ps, k, idx as int);
                        }
                    }
                    assert(self.nodes@[k].children@ =~= Seq::<u32>::empty());
                } else if parent_opt == Some(k as u32) {
                    assert(ps[idx as int] == parent_opt);
                    lemma_ancestors_below_parent(ps, idx as int);
                    assert(is_ancestor(ps, k, idx as int));
                }
            }
        }

        self.total_size = self.total_size.saturating_sub(d_size);
        self.total_files = self.total_files.saturating_sub(d_files);
        self.total_dirs = self.total_dirs.saturating_sub(d_dirs);
        (self.total_size, self.total_files, self.total_dirs)
    }

    /// Removes the node at `idx` and its whole subtree.  A removed file is
    /// taken off the age bucket it was counted in at scan time (its age taken
    /// against the scan's clock reading); otherwise as `remove_subtree_at`.
    pub fn remove_subtree(&mut self, idx: u32) -> (r: (u64, u64, u64))
        requires
            removable(*old(self)),
            (idx as int) < old(self).nodes@.len(),
            removed_files(old(self).nodes@[idx as int]) <= u64::MAX,
            removed_dirs(old(self).nodes@[idx as int]) <= u64::MAX,
        ensures
            final(self).nodes@.len() == old(self).nodes@.len(),
            forall|k: int| 0 <= k < old(self).nodes@.len() ==>
                #[trigger] removal_node(old(self).nodes@, idx as int, k, final(self).nodes@[k]),
            removal_stats(*old(self), idx as int, old(self).scan_now_secs, final(self).dir_stats@),
            final(self).total_size as int == sat_sub(old(self).total_size as int, removed_size(old(self).nodes@[idx as int])),
            final(self).total_files as int == sat_sub(old(self).total_files as int, removed_files(old(self).nodes@[idx as int])),
            final(self).total_dirs as int == sat_sub(old(self).total_dirs as int, removed_dirs(old(self).nodes@[idx as int])),
            r == (final(self).total_size, final(self).total_files, final(self).total_dirs),
            final(self).root == old(self).root,
            final(self).root_path == old(self).root_path,
            final(self).scan_duration_ms == old(self).scan_duration_ms,
            final(self).ext_names == old(self).ext_names,
            final(self).scan_now_secs == old(self).scan_now_secs,
    {
        let now = self.scan_now_secs;
        self.remove_subtree_at(idx, now)
    }
}

/// The parent is an ancestor, and every ancestor is at most the parent.
pub proof fn lemma_ancestors_below_parent(ps: Seq<Option<u32>>, x: int)
    requires
        parents_precede(ps),
        0 <= x < ps.len(),
    ensures
        ps[x] matches Some(p) ==> is_ancestor(ps, p as int, x),
        forall|k: int| #[trigger] is_ancestor(ps, k, x) ==> ps[x] is Some && k <= ps[x]->0 as int,
{
    assert forall|k: int| #[trigger] is_ancestor(ps, k, x) implies ps[x] is Some && k <= ps[x]->0 as int by {
        let p = ps[x]->0 as int;
        if k != p {
            lemma_ancestor_below(ps, k, p);
        }
    }
}

/// The parent of an ancestor is an ancestor too.
pub proof fn lemma_ancestor_chain_up(ps: Seq<Option<u32>>, a: int, x: int)
    requires
        is_ancestor(ps, a, x),
        parents_precede(ps),
        ps[a] is Some,
    ensures
        is_ancestor(ps, ps[a]->0 as int, x),
    decreases x,
{
    lemma_ancestor_below(ps, a, x);
    let p = ps[x]->0 as int;
    if p == a {
        let q = ps[a]->0 as int;
        assert(ps[a] matches Some(z) && z < a);
        assert(is_ancestor(ps, q, p));
    } else {
        lemma_ancestor_chain_up(ps, a, p);
    }
}

} // verus!
