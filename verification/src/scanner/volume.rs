//! How much of a volume is in use, from the block counts a file-system
//! statistics call reports; the denominator of scan progress.

use vstd::prelude::*;

verus! {

/// Block counts of a mounted file system.
pub struct VolumeStat {
    /// Size of the file system in fragments.
    pub blocks: u64,
    /// Free fragments.
    pub bfree: u64,
    /// Fragment size in bytes.
    pub frsize: u64,
}

/// Bytes in use: used fragments times the fragment size, held to `u64`.
pub open spec fn used_bytes(s: VolumeStat) -> int {
    let used = if s.blocks >= s.bfree { s.blocks - s.bfree } else { 0 };
    let bytes = used * s.frsize;
    if bytes > u64::MAX { u64::MAX as int } else { bytes }
}

/// Bytes in use on the volume, when its statistics could be read.
pub fn volume_used_bytes(stat: Option<VolumeStat>) -> (r: Option<u64>)
    ensures
        match stat {
            None => r is None,
            Some(s) => r matches Some(v) && v as int == used_bytes(s),
        },
{
    match stat {
        None => None,
        Some(s) => {
            let used = s.blocks.saturating_sub(s.bfree);
            match used.checked_mul(s.frsize) {
                Some(b) => Some(b),
                None => Some(u64::MAX),
            }
        },
    }
}

} // verus!
