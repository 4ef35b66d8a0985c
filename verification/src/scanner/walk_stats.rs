//! Counters shared by the workers of a parallel walk, and the progress
//! report throttled to one per window: the first worker to claim a window
//! reports, the others stay quiet until the next.

use std::sync::atomic::{AtomicU64, Ordering};
use vstd::prelude::*;

use super::assemble::Progress;
use super::walk_common::RawNode;
use crate::sys::unix_now_millis;

verus! {

/// Milliseconds that must pass between two reports.
pub const EMIT_WINDOW_MS: u64 = 80;

/// What a walker sends to the thread that pumps its results.
pub enum Msg {
    Progress(Progress),
    Done(RawNode),
}

/// Counters shared by all workers of a walk.
pub struct WalkStats {
    pub file_count: AtomicU64,
    pub dir_count: AtomicU64,
    pub bytes_scanned: AtomicU64,
    /// Clock reading, in unix milliseconds, of the last report.
    pub last_emit_ms: AtomicU64,
}

impl Default for WalkStats {
    fn default() -> Self {
        WalkStats {
            file_count: AtomicU64::new(0),
            dir_count: AtomicU64::new(0),
            bytes_scanned: AtomicU64::new(0),
            last_emit_ms: AtomicU64::new(0),
        }
    }
}

/// A new window opens once `EMIT_WINDOW_MS` have passed since the last
/// report (a clock that went backwards counts as no time passed).
pub open spec fn spec_window_open(now_ms: u64, last_ms: u64) -> bool {
    now_ms >= last_ms && now_ms - last_ms >= EMIT_WINDOW_MS
}

pub fn window_open(now_ms: u64, last_ms: u64) -> (r: bool)
    ensures
        r == spec_window_open(now_ms, last_ms),
{
    now_ms >= last_ms && now_ms - last_ms >= EMIT_WINDOW_MS
}

/// The report a caller sends once it has read the clock and the last
/// report's time: one carrying `current_path` and the counter readings when a
/// new window is open and this caller claimed it, none otherwise.
pub fn report_for(
    now_ms: u64,
    last_ms: u64,
    claimed: bool,
    current_path: &str,
    files: u64,
    dirs: u64,
    bytes: u64,
) -> (r: Option<Progress>)
    ensures
        r is Some <==> spec_window_open(now_ms, last_ms) && claimed,
        r matches Some(p) ==> p.current_path@ == current_path@ && p.files_scanned == files
            && p.directories_scanned == dirs && p.bytes_scanned == bytes,
{
    if window_open(now_ms, last_ms) && claimed {
        Some(Progress {
            current_path: current_path.to_owned(),
            files_scanned: files,
            directories_scanned: dirs,
            bytes_scanned: bytes,
        })
    } else {
        None
    }
}

/// A progress report for `current_path`, if a new window is open and this
/// caller is the one that claims it (by moving the last report's time to
/// now); the counts are the counters' readings after the claim.  Nothing is
/// promised of whether a report comes: that rests on the clock and on the
/// other workers.
pub fn emit_progress_if_due(current_path: &str, stats: &WalkStats) -> (r: Option<Progress>)
    ensures
        r matches Some(p) ==> p.current_path@ == current_path@,
{
    let now_ms = unix_now_millis();
    let last = stats.last_emit_ms.load(Ordering::Relaxed);
    let claimed = if window_open(now_ms, last) {
        match stats.last_emit_ms.compare_exchange(last, now_ms, Ordering::Relaxed, Ordering::Relaxed) {
            Ok(_) => true,
            Err(_) => false,
        }
    } else {
        false
    };
    if claimed {
        let files = stats.file_count.load(Ordering::Relaxed);
        let dirs = stats.dir_count.load(Ordering::Relaxed);
        let bytes = stats.bytes_scanned.load(Ordering::Relaxed);
        report_for(now_ms, last, claimed, current_path, files, dirs, bytes)
    } else {
        report_for(now_ms, last, claimed, current_path, 0, 0, 0)
    }
}

} // verus!
