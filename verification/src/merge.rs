//! Merging: which segments to merge, and making one segment out of several.
pub mod contents;
pub mod kway;
pub mod laws;
pub mod parts;
pub mod policy;
pub mod steps;

pub use self::kway::{is_mergeable, k_way_merge};
pub use self::policy::TieredMergePolicy;
