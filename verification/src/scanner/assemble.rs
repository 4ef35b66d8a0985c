//! Building the arena from a depth-first stream of walked entries, as a
//! parallel directory walk yields them: each entry names its depth, and its
//! parent is the last entry seen one level up.  Running totals feed throttled
//! progress reports; the finished arena is aggregated into a `ScanTree`.

use vstd::prelude::*;

use super::arena::{aggregate_totals, parents_of, parents_precede, tree_total, totals_fit, vec_weight, agree_on, Node};
use super::finalize::{collect_parents, collect_weights, finalize, NodeWeight};
use super::tree::{arena_ready, children_exact, dir_w, file_w, finalized_from, numbers_ready, size_w, ScanTree};
use super::walk_common::{entry_of, growing_arena, lemma_grow};

verus! {

/// Entries between two progress reports at most.
pub const PROGRESS_EVERY_ENTRIES: u64 = 4096;

/// Milliseconds between two progress reports at most.
pub const PROGRESS_EVERY_MS: u128 = 80;

/// Running totals of a walk in progress.
pub struct Progress {
    pub current_path: String,
    pub files_scanned: u64,
    pub directories_scanned: u64,
    pub bytes_scanned: u64,
}

/// Why a walked arena could not be finished.
pub enum ScanError {
    /// No entry at depth 0 arrived: the root could not be scanned.
    RootMissing,
    /// Some subtree total does not fit in a `u64`, or some file's age cannot
    /// be taken in an `i64`.
    TotalsOverflow,
}

/// A report is due once enough entries arrived or enough time passed since
/// the last one.
pub open spec fn spec_progress_due(since_emit: u64, elapsed_ms: u128) -> bool {
    since_emit >= PROGRESS_EVERY_ENTRIES || elapsed_ms >= PROGRESS_EVERY_MS
}

pub fn progress_due(since_emit: u64, elapsed_ms: u128) -> (r: bool)
    ensures
        r == spec_progress_due(since_emit, elapsed_ms),
{
    since_emit >= PROGRESS_EVERY_ENTRIES || elapsed_ms >= PROGRESS_EVERY_MS
}

/// The arena under construction.
pub struct ArenaBuilder {
    pub nodes: Vec<Node>,
    /// The last entry seen at each depth.
    pub parent_at_depth: Vec<u32>,
    /// The entry at depth 0, once seen.
    pub root: Option<u32>,
    pub total_files: u64,
    pub total_dirs: u64,
    pub bytes_scanned: u64,
    /// Entries since the last progress report.
    pub since_emit: u64,
}

/// The parent of an entry at `depth`: the last entry seen one level up, if any.
pub open spec fn parent_for(pad: Seq<u32>, depth: int) -> Option<u32> {
    if depth == 0 {
        None
    } else if depth - 1 < pad.len() {
        Some(pad[depth - 1])
    } else {
        None
    }
}

/// The last-seen table after an entry at `depth` landed at index `idx`:
/// missing levels are filled with index 0.
pub open spec fn pad_after(pad: Seq<u32>, depth: int, idx: u32) -> Seq<u32> {
    if depth < pad.len() {
        pad.update(depth, idx)
    } else {
        (pad + Seq::new((depth - pad.len()) as nat, |i: int| 0u32)).push(idx)
    }
}

/// A name is hidden when it starts with a dot.
pub open spec fn dot_name(name: Seq<char>) -> bool {
    name.len() > 0 && name[0] == '.'
}

impl ArenaBuilder {
    /// The builder's own invariant: the arena keeps its walked shape, the
    /// last-seen table names nodes of the arena, the root is a parentless
    /// node, and the counters stay below the number of entries.
    pub open spec fn wf(&self) -> bool {
        let ns = self.nodes@;
        &&& ns.len() <= u32::MAX
        &&& growing_arena(ns)
        &&& forall|d: int| 0 <= d < self.parent_at_depth@.len() ==> (#[trigger] self.parent_at_depth@[d] as int) < ns.len()
        &&& self.root matches Some(r) ==> (r as int) < ns.len() && ns[r as int].parent is None
        &&& self.total_files + self.total_dirs == ns.len()
        &&& self.since_emit <= ns.len()
    }

    pub fn new() -> (b: ArenaBuilder)
        ensures
            b.wf(),
            b.nodes@.len() == 0,
            b.parent_at_depth@.len() == 0,
            b.root is None,
            b.total_files == 0,
            b.total_dirs == 0,
            b.bytes_scanned == 0,
            b.since_emit == 0,
    {
        ArenaBuilder {
            nodes: Vec::new(),
            parent_at_depth: Vec::new(),
            root: None,
            total_files: 0,
            total_dirs: 0,
            bytes_scanned: 0,
            since_emit: 0,
        }
    }

    /// Appends one walked entry at `depth`.  Its parent is the last entry seen
    /// one level up (none at depth 0, or when no such entry was seen), which
    /// lists it as a child; an entry at depth 0 becomes the root.  The name
    /// of an entry below the root marks it hidden when it starts with a dot.
    /// Files add to the file count and the bytes scanned, directories to the
    /// directory count.
    pub fn push_entry(&mut self, depth: usize, name: String, is_dir: bool, size: u64, mtime: i64)
        requires
            old(self).wf(),
            old(self).nodes@.len() < u32::MAX,
            !is_dir ==> old(self).bytes_scanned + size <= u64::MAX,
        ensures
            final(self).wf(),
            final(self).nodes@.len() == old(self).nodes@.len() + 1,
            entry_of(final(self).nodes@[old(self).nodes@.len() as int]) == (name@, size, mtime, is_dir,
                depth != 0 && dot_name(name@), parent_for(old(self).parent_at_depth@, depth as int)),
            forall|k: int| 0 <= k < old(self).nodes@.len() ==> entry_of(#[trigger] final(self).nodes@[k]) == entry_of(old(self).nodes@[k]),
            final(self).parent_at_depth@ == pad_after(old(self).parent_at_depth@, depth as int, old(self).nodes@.len() as u32),
            final(self).root == (if depth == 0 { Some(old(self).nodes@.len() as u32) } else { old(self).root }),
            final(self).total_files == old(self).total_files + (if is_dir { 0int } else { 1int }),
            final(self).total_dirs == old(self).total_dirs + (if is_dir { 1int } else { 0int }),
            final(self).bytes_scanned == old(self).bytes_scanned + (if is_dir { 0int } else { size as int }),
            final(self).since_emit == old(self).since_emit + 1,
    {
        let ghost before = self.nodes@;
        let ghost pad0 = self.parent_at_depth@;
        let idx = self.nodes.len() as u32;
        let parent: Option<u32> = if depth == 0 {
            None
        } else if depth - 1 < self.parent_at_depth.len() {
            Some(self.parent_at_depth[depth - 1])
        } else {
            None
        };
        let is_hidden = depth != 0 && !name.as_str().is_empty() && name.as_str().get_char(0) == '.';
        self.nodes.push(Node {
            name,
            size,
            file_count: 0,
            dir_count: 0,
            is_dir,
            is_hidden,
            mtime,
            parent,
            children: Vec::new(),
        });
        let ghost pushed = self.nodes@;
        if let Some(p) = parent {
            let mut upd = Node {
                name: String::new(),
                size: 0,
                file_count: 0,
                dir_count: 0,
                is_dir: false,
                is_hidden: false,
                mtime: 0,
                parent: None,
                children: Vec::new(),
            };
            std::mem::swap(&mut upd, &mut self.nodes[p as usize]);
            upd.children.push(idx);
            self.nodes.set(p as usize, upd);
        }
        proof {
            let a = self.nodes@;
            assert forall|k: int| 0 <= k < before.len() && Some(k as u32) != parent implies #[trigger] a[k] == before[k] by {
                assert(a[k] == pushed[k]);
            }
            lemma_grow(before, a, parent);
            assert forall|k: int| 0 <= k < before.len() implies entry_of(#[trigger] a[k]) == entry_of(before[k]) by {
                if Some(k as u32) != parent {
                    assert(a[k] == before[k]);
                }
            }
        }
        set_last_seen(&mut self.parent_at_depth, depth, idx);
        if depth == 0 {
            self.root = Some(idx);
        }
        if is_dir {
            self.total_dirs = self.total_dirs + 1;
        } else {
            self.total_files = self.total_files + 1;
            self.bytes_scanned = self.bytes_scanned + size;
        }
        self.since_emit = self.since_emit + 1;
        proof {
            let ns = self.nodes@;
            assert(entry_of(ns[before.len() as int]).4 == (depth != 0 && dot_name(name@)));
        }
    }

    /// The running totals when a report is due, `elapsed_ms` after the last
    /// one; the entry count since the last report then starts over.
    pub fn take_progress(&mut self, current_path: String, elapsed_ms: u128) -> (r: Option<Progress>)
        requires
            old(self).wf(),
        ensures
            final(self).wf(),
            final(self).nodes == old(self).nodes,
            final(self).parent_at_depth == old(self).parent_at_depth,
            final(self).root == old(self).root,
            final(self).total_files == old(self).total_files,
            final(self).total_dirs == old(self).total_dirs,
            final(self).bytes_scanned == old(self).bytes_scanned,
            spec_progress_due(old(self).since_emit, elapsed_ms) ==> {
                &&& final(self).since_emit == 0
                &&& r matches Some(p)
                &&& p.current_path == current_path
                &&& p.files_scanned == old(self).total_files
                &&& p.directories_scanned == old(self).total_dirs
                &&& p.bytes_scanned == old(self).bytes_scanned
            },
            !spec_progress_due(old(self).since_emit, elapsed_ms) ==> r is None && final(self).since_emit == old(self).since_emit,
    {
        if progress_due(self.since_emit, elapsed_ms) {
            self.since_emit = 0;
            Some(Progress {
                current_path,
                files_scanned: self.total_files,
                directories_scanned: self.total_dirs,
                bytes_scanned: self.bytes_scanned,
            })
        } else {
            None
        }
    }

    /// Aggregates the walked arena into a finished tree, file ages taken
    /// against `now_secs`.  Fails when no root arrived, or when some total
    /// does not fit.
    pub fn finish(self, root_path: String, now_secs: i64, scan_duration_ms: u64) -> (r: Result<ScanTree, ScanError>)
        requires
            self.wf(),
        ensures
            self.root is None ==> r matches Err(ScanError::RootMissing),
            self.root matches Some(root) ==> {
                if numbers_ready(self.nodes@, now_secs) {
                    &&& r matches Ok(t)
                    &&& finalized_from(t, self.nodes@, root as int, now_secs)
                    &&& t.root_path == root_path
                    &&& t.scan_duration_ms == scan_duration_ms
                } else {
                    r matches Err(ScanError::TotalsOverflow)
                }
            },
    {
        let root = match self.root {
            Some(r) => r,
            None => {
                return Err(ScanError::RootMissing);
            },
        };
        if !numbers_fit(&self.nodes, now_secs) {
            return Err(ScanError::TotalsOverflow);
        }
        Ok(finalize(self.nodes, root, root_path, now_secs, scan_duration_ms))
    }
}

/// Records `idx` as the last entry seen at `depth`, filling missing levels
/// with index 0.
fn set_last_seen(pad: &mut Vec<u32>, depth: usize, idx: u32)
    ensures
        final(pad)@ == pad_after(old(pad)@, depth as int, idx),
{
    let ghost pad0 = pad@;
    if pad.len() <= depth {
        while pad.len() < depth
            invariant
                pad@.len() <= depth,
                pad0.len() <= pad@.len(),
                pad@.subrange(0, pad0.len() as int) == pad0,
                forall|d: int| pad0.len() <= d < pad@.len() ==> #[trigger] pad@[d] == 0u32,
            decreases depth - pad@.len(),
        {
            pad.push(0);
        }
        pad.push(idx);
        proof {
            assert(pad@ =~= pad_after(pad0, depth as int, idx));
        }
    } else {
        pad.set(depth, idx);
    }
}

/// Whether every subtree total fits in a `u64` and every file's age can be
/// taken against `now` in an `i64`.
pub fn numbers_fit(nodes: &Vec<Node>, now: i64) -> (r: bool)
    requires
        parents_precede(parents_of(nodes@)),
    ensures
        r == numbers_ready(nodes@, now),
{
    let ghost ns = nodes@;
    let ghost ps = parents_of(ns);
    let parents = collect_parents(nodes);
    let sizes = collect_weights(nodes, NodeWeight::Size);
    let files = collect_weights(nodes, NodeWeight::File);
    let dirs = collect_weights(nodes, NodeWeight::Dir);
    proof {
        lemma_same_totals(ps, vec_weight(sizes@), size_w(ns));
        lemma_same_totals(ps, vec_weight(files@), file_w(ns));
        lemma_same_totals(ps, vec_weight(dirs@), dir_w(ns));
    }
    let fits = aggregate_totals(&parents, &sizes).is_some()
        && aggregate_totals(&parents, &files).is_some()
        && aggregate_totals(&parents, &dirs).is_some();
    let mut ages_ok = true;
    let mut i: usize = 0;
    while i < nodes.len()
        invariant
            i <= nodes.len(),
            ns == nodes@,
            ages_ok <==> forall|j: int| 0 <= j < i && !(#[trigger] ns[j]).is_dir ==>
                i64::MIN <= now - ns[j].mtime <= i64::MAX,
        decreases nodes.len() - i,
    {
        if !nodes[i].is_dir {
            let m = nodes[i].mtime;
            let in_range = if m >= 0 { now >= i64::MIN + m } else { now <= i64::MAX + m };
            if !in_range {
                ages_ok = false;
            }
        }
        i = i + 1;
    }
    fits && ages_ok
}

/// Weights that agree on the arena give the same totals.
proof fn lemma_same_totals(ps: Seq<Option<u32>>, w1: spec_fn(int) -> int, w2: spec_fn(int) -> int)
    requires
        agree_on(w1, w2, ps.len() as int),
    ensures
        totals_fit(ps, w1) <==> totals_fit(ps, w2),
{
    assert forall|k: int| 0 <= k < ps.len() implies #[trigger] tree_total(ps, w1, k) == tree_total(ps, w2, k) by {
        super::arena::lemma_totals_agree(ps, w1, w2, k);
    }
    if totals_fit(ps, w1) {
        assert forall|k: int| 0 <= k < ps.len() implies #[trigger] tree_total(ps, w2, k) <= u64::MAX by {
            assert(tree_total(ps, w1, k) == tree_total(ps, w2, k));
        }
    }
    if totals_fit(ps, w2) {
        assert forall|k: int| 0 <= k < ps.len() implies #[trigger] tree_total(ps, w1, k) <= u64::MAX by {
            assert(tree_total(ps, w1, k) == tree_total(ps, w2, k));
        }
    }
}

} // verus!
