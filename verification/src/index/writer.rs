//! Adding documents.
use vstd::prelude::*;
use crate::segment::files::{Corpus, SegmentFiles};
use crate::segment::mem::MemSegment;

verus! {

/// Adds documents to a segment in memory, and numbers the segments that are flushed.
pub struct IndexWriter {
    pub flush_threshold: usize,
    pub active_segment: MemSegment,
    pub next_seg_id: u64,
}

impl IndexWriter {
    pub open spec fn wf(self) -> bool {
        self.active_segment.wf() && self.active_segment.flush_threshold == self.flush_threshold
    }

    /// A writer without documents.
    pub fn new(flush_threshold: usize) -> (writer: Self)
        ensures
            writer.wf(),
            writer.flush_threshold == flush_threshold,
            writer.active_segment.is_empty(),
            writer.next_seg_id == 0,
    {
        IndexWriter {
            flush_threshold,
            active_segment: MemSegment::new(flush_threshold),
            next_seg_id: 0,
        }
    }

    /// Adds a document. Returns whether the writer should be flushed now.
    pub fn add_doc(
        &mut self,
        url: &str,
        tokens: &[String],
        crawl_ts: u64,
        content_hash: u64,
    ) -> (should_flush: bool)
        requires
            old(self).wf(),
            old(self).active_segment.has_room(tokens@),
        ensures
            final(self).wf(),
            old(self).active_segment.added(
                final(self).active_segment,
                url@,
                tokens@,
                crawl_ts,
                content_hash,
            ),
            final(self).next_seg_id == old(self).next_seg_id,
            final(self).flush_threshold == old(self).flush_threshold,
            should_flush == (final(self).active_segment.byte_size >= final(self).flush_threshold),
    {
        let (_, should_flush) = self.active_segment.add_doc(url, tokens, crawl_ts, content_hash);
        should_flush
    }

    /// The files to write when the writer is flushed, with the number of the next segment. `None`
    /// where no document was added.
    ///
    /// `max_score` and `mean` are as in [`MemSegment::flush`].
    pub fn flush<S, M>(&self, max_score: S, mean: M) -> (r: Option<SegmentFiles>) where
        S: Fn(Corpus, u64, u8) -> u32,
        M: Fn(u64, u64) -> u64,

        requires
            self.wf(),
            forall|corpus: Corpus, doc_freq: u64, top: u8|
                call_requires(max_score, (corpus, doc_freq, top)),
            forall|total: u64, num_docs: u64| call_requires(mean, (total, num_docs)),
        ensures
            r is Some <==> self.active_segment.next_doc_id > 0,
            r matches Some(files) ==> self.active_segment.flushed(
                self.next_seg_id,
                files,
                max_score,
                mean,
            ),
    {
        if self.active_segment.next_doc_id > 0 {
            Some(self.active_segment.flush(self.next_seg_id, max_score, mean))
        } else {
            None
        }
    }

    /// The files of the segment have been written: starts the next one.
    pub fn finish_flush(&mut self)
        requires
            old(self).wf(),
            old(self).next_seg_id < u64::MAX,
        ensures
            final(self).wf(),
            final(self).active_segment.is_empty(),
            final(self).next_seg_id == old(self).next_seg_id + 1,
            final(self).flush_threshold == old(self).flush_threshold,
    {
        self.next_seg_id = self.next_seg_id + 1;
        self.active_segment = MemSegment::new(self.flush_threshold);
    }
}

} // verus!
