//! Requests that name a node by its id: resolving the id against the loaded
//! tree, the slice rooted there, and taking a deleted node out of the tree.

use vstd::prelude::*;

use crate::commands::dto::{FileNodeDto, ScanSummary};
use crate::commands::view::{build_dto, dto_matches, viewable};
use crate::scanner::remove::{removable, removal_node, removal_stats, removed_dirs, removed_files, removed_size, sat_sub};
use crate::scanner::tree::ScanTree;
use crate::sys::{decimal, digit_char, digits_value, is_digit, parse_u32, parsed_u32, u32_text, unsigned_digits};

verus! {

/// Depth of a slice when none is asked for.
pub const DEFAULT_DEPTH: usize = 3;

/// Children per node when no cap is asked for.
pub const DEFAULT_MAX_CHILDREN: usize = 100;

/// `r` is the error whose text is `msg`.
pub open spec fn is_err_text<T>(r: Result<T, String>, msg: Seq<char>) -> bool {
    r matches Err(e) && e@ == msg
}

/// The value given, or `d` when none is.
pub open spec fn or_default(o: Option<usize>, d: usize) -> usize {
    match o {
        Some(v) => v,
        None => d,
    }
}

/// The summary `s` reports the totals of `t`.
pub open spec fn summary_matches_tree(t: ScanTree, s: ScanSummary) -> bool {
    &&& s.root_id@ == decimal(t.root as nat)
    &&& s.total_size == t.total_size
    &&& s.total_files == t.total_files
    &&& s.total_directories == t.total_dirs
    &&& s.scan_duration_ms == t.scan_duration_ms
}

/// The summary of a scanned tree.
pub fn summary_of(tree: &ScanTree) -> (s: ScanSummary)
    ensures
        summary_matches_tree(*tree, s),
{
    ScanSummary {
        root_id: u32_text(tree.root),
        total_size: tree.total_size,
        total_files: tree.total_files,
        total_directories: tree.total_dirs,
        scan_duration_ms: tree.scan_duration_ms,
    }
}

/// Resolves a node id: it must parse as a `u32`, a tree must be loaded and
/// the index must be in range, checked in that order.
pub fn node_index(tree: Option<&ScanTree>, node_id: &str) -> (r: Result<u32, String>)
    ensures
        match (parsed_u32(node_id@), tree) {
            (None, _) => is_err_text(r, "invalid node id"@),
            (Some(_), None) => is_err_text(r, "no scan loaded"@),
            (Some(i), Some(t)) => if i >= t.nodes@.len() {
                is_err_text(r, "node id out of range"@)
            } else {
                r == Ok::<u32, String>(i)
            },
        },
{
    let idx = match parse_u32(node_id) {
        Some(i) => i,
        None => {
            return Err("invalid node id".to_owned());
        },
    };
    let t = match tree {
        Some(t) => t,
        None => {
            return Err("no scan loaded".to_owned());
        },
    };
    if idx as usize >= t.nodes.len() {
        return Err("node id out of range".to_owned());
    }
    Ok(idx)
}

/// The slice rooted at the node named by `node_id`: `max_depth` levels deep
/// (3 by default), about `max_children` children per node (100 by default),
/// the root's children from `offset` on (0 by default).  Fails as
/// `node_index` does.
pub fn get_subtree(
    tree: Option<&ScanTree>,
    node_id: &str,
    max_depth: Option<usize>,
    max_children: Option<usize>,
    offset: Option<usize>,
) -> (r: Result<FileNodeDto, String>)
    requires
        tree matches Some(t) ==> viewable(*t),
    ensures
        match (parsed_u32(node_id@), tree) {
            (None, _) => is_err_text(r, "invalid node id"@),
            (Some(_), None) => is_err_text(r, "no scan loaded"@),
            (Some(i), Some(t)) => if i >= t.nodes@.len() {
                is_err_text(r, "node id out of range"@)
            } else {
                &&& r is Ok
                &&& exists|now: i64| now >= 0 && #[trigger] dto_matches(*t, i as int,
                    or_default(max_depth, DEFAULT_DEPTH) as nat,
                    or_default(max_children, DEFAULT_MAX_CHILDREN) as int,
                    or_default(offset, 0) as int,
                    now as int, r->Ok_0)
            },
        },
{
    let idx = match node_index(tree, node_id) {
        Ok(i) => i,
        Err(e) => {
            return Err(e);
        },
    };
    let t = match tree {
        Some(t) => t,
        None => {
            return Err("no scan loaded".to_owned());
        },
    };
    let depth = match max_depth {
        Some(v) => v,
        None => DEFAULT_DEPTH,
    };
    let cap = match max_children {
        Some(v) => v,
        None => DEFAULT_MAX_CHILDREN,
    };
    let from = match offset {
        Some(v) => v,
        None => 0,
    };
    let d = build_dto(t, idx, depth, cap, from);
    assert(depth == or_default(max_depth, DEFAULT_DEPTH));
    assert(cap == or_default(max_children, DEFAULT_MAX_CHILDREN));
    assert(from == or_default(offset, 0));
    let r: Result<FileNodeDto, String> = Ok(d);
    proof {
        let w = choose|now: i64| now >= 0 && #[trigger] dto_matches(*t, idx as int, depth as nat, cap as int, from as int, now as int, d);
        assert(w >= 0);
        assert(dto_matches(*t, idx as int, or_default(max_depth, DEFAULT_DEPTH) as nat,
            or_default(max_children, DEFAULT_MAX_CHILDREN) as int, or_default(offset, 0) as int, w as int, r->Ok_0));
    }
    r
}

/// Takes node `idx`, already deleted on disk, out of the tree and returns
/// the new summary of the scan.
pub fn delete_node(tree: &mut ScanTree, idx: u32) -> (s: ScanSummary)
    requires
        removable(*old(tree)),
        (idx as int) < old(tree).nodes@.len(),
        removed_files(old(tree).nodes@[idx as int]) <= u64::MAX,
        removed_dirs(old(tree).nodes@[idx as int]) <= u64::MAX,
    ensures
        forall|k: int| 0 <= k < old(tree).nodes@.len() ==>
            #[trigger] removal_node(old(tree).nodes@, idx as int, k, final(tree).nodes@[k]),
        removal_stats(*old(tree), idx as int, old(tree).scan_now_secs, final(tree).dir_stats@),
        s.root_id@ == decimal(old(tree).root as nat),
        s.total_size as int == sat_sub(old(tree).total_size as int, removed_size(old(tree).nodes@[idx as int])),
        s.total_files as int == sat_sub(old(tree).total_files as int, removed_files(old(tree).nodes@[idx as int])),
        s.total_directories as int == sat_sub(old(tree).total_dirs as int, removed_dirs(old(tree).nodes@[idx as int])),
        s.scan_duration_ms == old(tree).scan_duration_ms,
        summary_matches_tree(*final(tree), s),
{
    let (total_size, total_files, total_dirs) = tree.remove_subtree(idx);
    ScanSummary {
        root_id: u32_text(tree.root),
        total_size,
        total_files,
        total_directories: total_dirs,
        scan_duration_ms: tree.scan_duration_ms,
    }
}


// ── Node ids read back ───────────────────────────────────────────────────────

proof fn lemma_digit_char(d: int)
    requires
        0 <= d < 10,
    ensures
        is_digit(digit_char(d)),
        (digit_char(d) as int) - ('0' as int) == d,
{
    let t = seq!['0', '1', '2', '3', '4', '5', '6', '7', '8', '9'];
    assert(digit_char(d) == t[d]);
    assert('1' as int == '0' as int + 1);
    assert('9' as int == '0' as int + 9);
    if d == 0 { assert(t[d] == '0'); }
    else if d == 1 { assert(t[d] == '1'); }
    else if d == 2 { assert(t[d] == '2'); assert('2' as int == '0' as int + 2); }
    else if d == 3 { assert(t[d] == '3'); assert('3' as int == '0' as int + 3); }
    else if d == 4 { assert(t[d] == '4'); assert('4' as int == '0' as int + 4); }
    else if d == 5 { assert(t[d] == '5'); assert('5' as int == '0' as int + 5); }
    else if d == 6 { assert(t[d] == '6'); assert('6' as int == '0' as int + 6); }
    else if d == 7 { assert(t[d] == '7'); assert('7' as int == '0' as int + 7); }
    else if d == 8 { assert(t[d] == '8'); assert('8' as int == '0' as int + 8); }
    else { assert(t[d] == '9'); }
}

proof fn lemma_decimal_digits(n: nat)
    ensures
        decimal(n).len() > 0,
        forall|i: int| 0 <= i < decimal(n).len() ==> #[trigger] is_digit(decimal(n)[i]),
        digits_value(decimal(n)) == n,
    decreases n,
{
    if n < 10 {
        lemma_digit_char(n as int);
        let s = decimal(n);
        assert(s.drop_last() =~= Seq::<char>::empty());
        assert(digits_value(s.drop_last()) == 0);
        assert(s.last() == digit_char(n as int));
        assert(digits_value(s) == n);
    } else {
        lemma_digit_char((n % 10) as int);
        lemma_decimal_digits(n / 10);
        let p = decimal(n / 10);
        let s = decimal(n);
        assert(s.drop_last() =~= p);
        assert(s.last() == digit_char((n % 10) as int));
        assert(digits_value(s) == digits_value(p) * 10 + (n % 10));
        assert(n == (n / 10) * 10 + n % 10);
        assert forall|i: int| 0 <= i < s.len() implies #[trigger] is_digit(s[i]) by {
            if i < p.len() {
                assert(s[i] == p[i]);
            }
        }
    }
}

/// The id a slice reports for a node reads back as that node's index: the
/// decimal text of any `u32` parses to the same `u32`.
pub proof fn law_node_id_round_trip(n: u32)
    ensures
        parsed_u32(decimal(n as nat)) == Some(n),
{
    lemma_decimal_digits(n as nat);
    let s = decimal(n as nat);
    assert(is_digit(s[0]));
    assert(unsigned_digits(s) == s);
}

} // verus!
