//! The command surface over a scanned tree: the bounded slices a user
//! interface renders, the summary of a scan, and the requests that name a
//! node by its id.

pub mod dto;
pub mod visible;
pub mod stats;
pub mod view;
pub mod requests;
pub mod guards;
pub mod menu;

pub use dto::{FileNodeDto, FileTypeStat, ScanSummary};
pub use visible::{adaptive_visible_count, MIN_SHOWN};
pub use stats::{subtree_stats, subtree_stats_at};
pub use view::{build_dto, build_dto_at, display_name};
pub use requests::{delete_node, get_subtree, node_index, summary_of};
pub use guards::{is_removable, is_viewable};
