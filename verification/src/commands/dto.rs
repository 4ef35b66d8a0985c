//! The values handed to a user interface.

use vstd::prelude::*;

verus! {

/// One node of a rendered slice, with its visible children nested inside.
pub struct FileNodeDto {
    pub id: String,
    pub name: String,
    pub path: String,
    /// `"directory"` or `"file"`.
    pub node_type: String,
    pub size: u64,
    pub file_count: u64,
    pub dir_count: u64,
    pub children: Vec<FileNodeDto>,
    /// Children not included in `children`.
    pub hidden_children: u64,
    /// Summed size of the children not included.
    pub hidden_size: u64,
    pub last_modified: i64,
    pub is_hidden: bool,
    pub permissions: String,
    /// The largest file types below the node, at most eight.
    pub file_types: Vec<FileTypeStat>,
    /// Summed size of the file types beyond the listed ones.
    pub file_types_other: u64,
    /// Representative modification time of the median file below the node.
    pub median_mtime: i64,
}

/// One file type and the summed size of its files.
pub struct FileTypeStat {
    pub ext: String,
    pub size: u64,
}

/// The totals of a scan.
pub struct ScanSummary {
    pub root_id: String,
    pub total_size: u64,
    pub total_files: u64,
    pub total_directories: u64,
    pub scan_duration_ms: u64,
}

} // verus!
