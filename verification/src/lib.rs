//! Disk-usage scanning library: an index-based arena of the scanned tree,
//! bottom-up aggregation of sizes, counts, file-type and age statistics,
//! and the bounded views that a user interface pulls out of it.

pub mod commands;
pub mod scanner;
pub mod sys;
