//! Ranked retrieval: the documents of a segment that match a query best.
pub mod laws;
pub mod scan;
pub mod score;
pub mod scoring;
pub mod search;

pub use self::score::{Bm25Scorer, ScoredDoc};
