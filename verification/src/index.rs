//! The index: documents are added to a segment in memory, and segments are searched together.
pub mod laws;
pub mod reader;
pub mod writer;

pub use self::reader::IndexReader;
pub use self::writer::IndexWriter;
