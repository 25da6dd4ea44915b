//! A segment-based inverted index.
//!
//! Documents go into a segment in memory, which is flushed to files; segments are merged and
//! searched. A log makes additions durable. Everything here is a function from values to values:
//! reading and writing files is left to the caller, and so is floating-point arithmetic.
pub mod bm25;
pub mod codec;
pub mod count;
pub mod dict;
pub mod index;
pub mod le;
pub mod merge;
pub mod order;
pub mod query;
pub mod segment;
pub mod terms;
pub mod wal;

pub use self::index::{IndexReader, IndexWriter};
