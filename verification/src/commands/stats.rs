//! File-type and age summary of a directory, read from its precomputed
//! statistics: the largest file types, what the rest add up to, and the
//! representative modification time of the median file.

use vstd::prelude::*;

use crate::commands::dto::FileTypeStat;
use crate::scanner::age::{AGE_BUCKET_REP_DAYS, SECS_PER_DAY};
use crate::scanner::tree::{DirStats, ScanTree};
use crate::sys::unix_now_secs;

verus! {

broadcast use vstd::std_specs::hash::group_hash_axioms;

/// File types listed by name; the rest are summed.
pub const TOP_FILE_TYPES: usize = 8;

/// Sum of the sizes in `s[a..b]`.
pub open spec fn pair_sum(s: Seq<(u32, u64)>, a: int, b: int) -> int
    decreases b - a,
{
    if a >= b {
        0
    } else {
        pair_sum(s, a, b - 1) + s[b - 1].1
    }
}

/// Number of files in the first `i` buckets.
pub open spec fn hist_prefix(h: Seq<u32>, i: int) -> int
    decreases i,
{
    if i <= 0 {
        0
    } else {
        hist_prefix(h, i - 1) + h[i - 1]
    }
}

/// The first bucket from `i` on at which the running count reaches `target`;
/// bucket 0 if none does.
pub open spec fn reaching_bucket(h: Seq<u32>, target: int, i: int) -> int
    decreases 9 - i,
{
    if i >= 9 {
        0
    } else if hist_prefix(h, i + 1) >= target {
        i
    } else {
        reaching_bucket(h, target, i + 1)
    }
}

/// The bucket holding the median file: the first at which the running count
/// reaches half of all files, rounded up.
pub open spec fn median_bucket(h: Seq<u32>) -> int {
    reaching_bucket(h, (hist_prefix(h, 9) + 1) / 2, 0)
}

/// Representative modification time of the median file, taken against
/// `now`; 0 when there are no files.
pub open spec fn median_mtime_of(h: Seq<u32>, now: int) -> int {
    if hist_prefix(h, 9) == 0 {
        0
    } else {
        now - AGE_BUCKET_REP_DAYS@[median_bucket(h)] * SECS_PER_DAY
    }
}

/// The smaller of `a` and `b`.
pub open spec fn min_int(a: int, b: int) -> int {
    if a < b { a } else { b }
}

/// Lowest clock reading at which every representative age can be taken off.
pub open spec fn now_floor() -> int {
    i64::MIN + 2555 * SECS_PER_DAY
}

/// The statistics of a directory can be summarised: the listed ids name
/// interned extensions and the unlisted sizes add up within `u64`.
pub open spec fn stats_summable(tree: ScanTree, s: DirStats) -> bool {
    let e = s.exts@;
    &&& forall|t: int| 0 <= t < min_int(e.len() as int, TOP_FILE_TYPES as int) ==> (#[trigger] e[t]).0 < tree.ext_names@.len()
    &&& pair_sum(e, TOP_FILE_TYPES as int, e.len() as int) <= u64::MAX
}

/// The summary of `s` taken against `now`: the first eight file types by
/// name and size, the summed size of the rest, and the median time.
pub open spec fn summary_matches(tree: ScanTree, s: DirStats, now: int, r: (Vec<FileTypeStat>, u64, i64)) -> bool {
    let e = s.exts@;
    &&& r.0@.len() == min_int(e.len() as int, TOP_FILE_TYPES as int)
    &&& forall|t: int| 0 <= t < r.0@.len() ==> (#[trigger] r.0@[t]).ext@ == tree.ext_names@[e[t].0 as int]@ && r.0@[t].size == e[t].1
    &&& r.1 as int == pair_sum(e, TOP_FILE_TYPES as int, e.len() as int)
    &&& r.2 as int == median_mtime_of(s.age_hist@, now)
}

proof fn lemma_hist_prefix_bounds(h: Seq<u32>, i: int)
    requires
        0 <= i <= 9,
    ensures
        0 <= hist_prefix(h, i) <= i * (u32::MAX as int),
        forall|j: int| 0 <= j <= i ==> #[trigger] hist_prefix(h, j) <= hist_prefix(h, i),
    decreases i,
{
    if i > 0 {
        lemma_hist_prefix_bounds(h, i - 1);
    }
}

pub proof fn lemma_pair_sum_nonneg(s: Seq<(u32, u64)>, a: int, b: int)
    ensures
        pair_sum(s, a, b) >= 0,
    decreases b - a,
{
    if a < b {
        lemma_pair_sum_nonneg(s, a, b - 1);
    }
}

/// The summary of directory `idx`, ages taken against `now`; three empty
/// values when `idx` has no statistics.
pub fn subtree_stats_at(tree: &ScanTree, idx: u32, now: i64) -> (r: (Vec<FileTypeStat>, u64, i64))
    requires
        tree.dir_stats@.contains_key(idx) ==> stats_summable(*tree, tree.dir_stats@[idx]),
        now >= now_floor(),
    ensures
        !tree.dir_stats@.contains_key(idx) ==> r.0@.len() == 0 && r.1 == 0 && r.2 == 0,
        tree.dir_stats@.contains_key(idx) ==> summary_matches(*tree, tree.dir_stats@[idx], now as int, r),
{
    let stats = match tree.dir_stats.get(&idx) {
        Some(s) => s,
        None => {
            return (Vec::new(), 0, 0);
        },
    };
    let ghost e = stats.exts@;
    let n = stats.exts.len();
    let shown = if n < TOP_FILE_TYPES { n } else { TOP_FILE_TYPES };
    let mut file_types: Vec<FileTypeStat> = Vec::new();
    let mut i: usize = 0;
    while i < shown
        invariant
            i <= shown,
            shown == min_int(n as int, TOP_FILE_TYPES as int),
            n == e.len(),
            e == stats.exts@,
            stats_summable(*tree, *stats),
            file_types@.len() == i,
            forall|t: int| 0 <= t < i ==> (#[trigger] file_types@[t]).ext@ == tree.ext_names@[e[t].0 as int]@ && file_types@[t].size == e[t].1,
        decreases shown - i,
    {
        let (id, size) = stats.exts[i];
        assert(e[i as int].0 < tree.ext_names@.len());
        let ext = tree.ext_names[id as usize].clone();
        file_types.push(FileTypeStat { ext, size });
        i = i + 1;
    }
    let mut other: u64 = 0;
    let mut j: usize = TOP_FILE_TYPES;
    while j < n
        invariant
            TOP_FILE_TYPES <= j <= n || (j == TOP_FILE_TYPES && n < TOP_FILE_TYPES),
            n == e.len(),
            e == stats.exts@,
            pair_sum(e, TOP_FILE_TYPES as int, n as int) <= u64::MAX,
            other as int == pair_sum(e, TOP_FILE_TYPES as int, j as int),
        decreases n - j,
    {
        proof {
            lemma_pair_sum_split(e, TOP_FILE_TYPES as int, (j + 1) as int, n as int);
            lemma_pair_sum_nonneg(e, (j + 1) as int, n as int);
        }
        other = other + stats.exts[j].1;
        j = j + 1;
    }
    proof {
        if n < TOP_FILE_TYPES {
            assert(pair_sum(e, TOP_FILE_TYPES as int, n as int) == 0);
        }
    }
    let ghost h = stats.age_hist@;
    let mut file_count: u64 = 0;
    let mut b: usize = 0;
    while b < 9
        invariant
            b <= 9,
            h == stats.age_hist@,
            h.len() == 9,
            file_count as int == hist_prefix(h, b as int),
        decreases 9 - b,
    {
        proof {
            lemma_hist_prefix_bounds(h, (b + 1) as int);
        }
        file_count = file_count + stats.age_hist[b] as u64;
        b = b + 1;
    }
    proof {
        lemma_hist_prefix_bounds(h, 9);
    }
    let median_mtime: i64 = if file_count == 0 {
        0
    } else {
        let target = (file_count + 1) / 2;
        let mut cumulative: u64 = 0;
        let mut bucket: usize = 0;
        let mut k: usize = 0;
        while k < 9
            invariant_except_break
                bucket == 0,
                cumulative as int == hist_prefix(h, k as int),
            invariant
                k <= 9,
                h == stats.age_hist@,
                h.len() == 9,
                file_count as int == hist_prefix(h, 9),
                target == (file_count + 1) / 2,
                reaching_bucket(h, target as int, 0) == reaching_bucket(h, target as int, k as int),
            ensures
                bucket == reaching_bucket(h, target as int, 0),
                bucket < 9,
            decreases 9 - k,
        {
            proof {
                lemma_hist_prefix_bounds(h, (k + 1) as int);
            }
            cumulative = cumulative + stats.age_hist[k] as u64;
            if cumulative >= target {
                bucket = k;
                break;
            }
            k = k + 1;
        }
        proof {
            lemma_rep_days();
        }
        now - AGE_BUCKET_REP_DAYS[bucket] * SECS_PER_DAY
    };
    (file_types, other, median_mtime)
}

/// The summary of directory `idx`, ages taken against the system clock.
pub fn subtree_stats(tree: &ScanTree, idx: u32) -> (r: (Vec<FileTypeStat>, u64, i64))
    requires
        tree.dir_stats@.contains_key(idx) ==> stats_summable(*tree, tree.dir_stats@[idx]),
    ensures
        !tree.dir_stats@.contains_key(idx) ==> r.0@.len() == 0 && r.1 == 0 && r.2 == 0,
        tree.dir_stats@.contains_key(idx) ==> exists|now: i64| now >= 0 && #[trigger] summary_matches(*tree, tree.dir_stats@[idx], now as int, r),
{
    if !tree.dir_stats.contains_key(&idx) {
        return (Vec::new(), 0, 0);
    }
    let now = unix_now_secs();
    let now = if now < 0 { 0 } else { now };
    subtree_stats_at(tree, idx, now)
}

pub proof fn lemma_pair_sum_split(s: Seq<(u32, u64)>, a: int, m: int, b: int)
    requires
        a <= m <= b,
    ensures
        pair_sum(s, a, b) == pair_sum(s, a, m) + pair_sum(s, m, b),
    decreases b - m,
{
    if m < b {
        lemma_pair_sum_split(s, a, m, b - 1);
    }
}

proof fn lemma_rep_days()
    ensures
        forall|i: int| 0 <= i < 9 ==> 0 <= #[trigger] AGE_BUCKET_REP_DAYS@[i] <= 2555,
{
    assert(AGE_BUCKET_REP_DAYS@ == seq![0i64, 3, 18, 60, 135, 270, 545, 1277, 2555]);
}

} // verus!
