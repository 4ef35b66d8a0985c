//! Scanner core: the arena and its aggregation, removal from a finished
//! tree, the building blocks of the walkers, and the helpers shared with the
//! command surface.

pub mod accum;
pub mod age;
pub mod arena;
pub mod assemble;
pub mod composition;
pub mod consistency;
pub mod dirmeta;
pub mod edits;
pub mod ext;
pub mod finalize;
pub mod histogram;
pub mod path;
pub mod remove;
pub mod sort;
pub mod tree;
pub mod volume;
pub mod walk_common;
pub mod walk_stats;

pub use age::{age_bucket, AGE_BUCKET_DAYS, AGE_BUCKET_REP_DAYS, SECS_PER_DAY};
pub use ext::extension_of;
