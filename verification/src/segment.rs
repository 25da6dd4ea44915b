//! Segments: documents are collected in a [`MemSegment`], which is flushed to the files of a
//! segment, which a [`DiskSegment`] reads.
pub mod disk;
pub mod docmeta;
pub mod files;
pub mod flush;
pub mod laws;
pub mod mem;
pub mod readback;

pub use self::disk::{DiskSegment, SegmentBytes};
pub use self::docmeta::{DocMeta, DOC_META_SIZE};
pub use self::files::{Corpus, SegmentFiles, SegmentMeta};
pub use self::mem::MemSegment;
