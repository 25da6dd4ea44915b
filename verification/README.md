# quartz_core

The core of a disk-based inverted index, written in Verus: its behaviour is stated in contracts and
proved.

- `src/codec.rs`: variable-byte integers and postings lists.
- `src/wal.rs`: the write-ahead log. What is replayed is what was appended after the last
  checkpoint, up to the first frame that is torn, corrupt or too short for an entry.
- `src/segment/`: the segment in memory, the files it is flushed to, and reading them.
- `src/merge/`: which segments to merge, making one segment out of several, and merging in steps.
- `src/bm25/`: ranked retrieval with early termination.
- `src/query.rs`: the words of a query.
- `src/index/`: adding documents, and reading several segments as one index.
- `src/terms.rs`, `src/dict.rs`: the order of terms, the term file, the dictionary in memory.
- `src/le.rs`, `src/order.rs`, `src/count.rs`: little-endian numbers, stable sorting, counting.

Properties that span several functions are public proof functions whose names begin with `law_`.

The library reads and writes no file and computes with no floating-point number. Scores and means
are bit patterns; the functions that compute them are arguments. `app/` holds the files, the memory
maps, the floating-point arithmetic and the Python module.

Trusted without proof: that `crc32fast` computes the CRC-32 that `src/wal.rs` states, and what
`src/terms.rs` says of the `fst` crate's builder, map and stream. The term file of a segment must be one that the
builder wrote: a map over other bytes may panic.
