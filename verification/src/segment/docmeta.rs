//! The record of fixed size that a segment keeps of each document.
use vstd::prelude::*;
use crate::le::{get_le, put_le};
use crate::le::{concat, le_bytes, le_value, uniform};
use crate::le::{
    law_le_roundtrip, lemma_byte_ranges, lemma_concat_push, lemma_uniform_at, lemma_uniform_len,
};

verus! {

/// Fixed-size record per document: 28 bytes, found by the number of the document.
#[derive(Clone, Copy, Debug, PartialEq, Eq, Structural)]
pub struct DocMeta {
    /// Byte offset into the file of URLs.
    pub url_offset: u64,
    /// URL length in bytes.
    pub url_len: u16,
    /// Unix timestamp in seconds.
    pub crawl_ts: u64,
    /// Hash of the raw text.
    pub content_hash: u64,
    /// Language: 0 unknown, 1 English.
    pub lang_id: u16,
}

pub const DOC_META_SIZE: usize = 28;

/// The record as bytes: its fields one after the other.
pub open spec fn meta_bytes(m: DocMeta) -> Seq<u8> {
    le_bytes(m.url_offset as nat, 8) + le_bytes(m.url_len as nat, 2) + le_bytes(
        m.crawl_ts as nat,
        8,
    ) + le_bytes(m.content_hash as nat, 8) + le_bytes(m.lang_id as nat, 2)
}

/// The record that 28 bytes hold.
pub open spec fn parse_meta(s: Seq<u8>) -> DocMeta {
    DocMeta {
        url_offset: le_value(s.subrange(0, 8)) as u64,
        url_len: le_value(s.subrange(8, 10)) as u16,
        crawl_ts: le_value(s.subrange(10, 18)) as u64,
        content_hash: le_value(s.subrange(18, 26)) as u64,
        lang_id: le_value(s.subrange(26, 28)) as u16,
    }
}

pub open spec fn meta_chunks(metas: Seq<DocMeta>) -> Seq<Seq<u8>> {
    metas.map_values(|m: DocMeta| meta_bytes(m))
}

/// Records one after the other.
pub open spec fn metas_bytes(metas: Seq<DocMeta>) -> Seq<u8> {
    concat(meta_chunks(metas))
}

/// A record is read back as it was written.
pub proof fn law_meta_roundtrip(m: DocMeta)
    ensures
        meta_bytes(m).len() == DOC_META_SIZE,
        parse_meta(meta_bytes(m)) == m,
{
    let s = meta_bytes(m);
    lemma_byte_ranges();
    law_le_roundtrip(m.url_offset as nat, 8);
    law_le_roundtrip(m.url_len as nat, 2);
    law_le_roundtrip(m.crawl_ts as nat, 8);
    law_le_roundtrip(m.content_hash as nat, 8);
    law_le_roundtrip(m.lang_id as nat, 2);
    assert(s.subrange(0, 8) =~= le_bytes(m.url_offset as nat, 8));
    assert(s.subrange(8, 10) =~= le_bytes(m.url_len as nat, 2));
    assert(s.subrange(10, 18) =~= le_bytes(m.crawl_ts as nat, 8));
    assert(s.subrange(18, 26) =~= le_bytes(m.content_hash as nat, 8));
    assert(s.subrange(26, 28) =~= le_bytes(m.lang_id as nat, 2));
}

pub proof fn lemma_metas_len(metas: Seq<DocMeta>)
    ensures
        uniform(meta_chunks(metas), DOC_META_SIZE as int),
        metas_bytes(metas).len() == DOC_META_SIZE * metas.len(),
{
    assert forall|i: int| 0 <= i < meta_chunks(metas).len() implies (#[trigger] meta_chunks(
        metas,
    )[i]).len() == DOC_META_SIZE by {
        law_meta_roundtrip(metas[i]);
    }
    lemma_uniform_len(meta_chunks(metas), DOC_META_SIZE as int);
}

/// Records are found by their number.
pub proof fn law_metas_at(metas: Seq<DocMeta>, i: int)
    requires
        0 <= i < metas.len(),
    ensures
        DOC_META_SIZE * i + DOC_META_SIZE <= metas_bytes(metas).len(),
        parse_meta(
            metas_bytes(metas).subrange(DOC_META_SIZE * i, DOC_META_SIZE * i + DOC_META_SIZE),
        ) == metas[i],
{
    lemma_metas_len(metas);
    lemma_uniform_at(meta_chunks(metas), DOC_META_SIZE as int, i);
    law_meta_roundtrip(metas[i]);
}

/// Appends a record.
pub fn put_meta(m: &DocMeta, out: &mut Vec<u8>)
    ensures
        final(out)@ == old(out)@ + meta_bytes(*m),
{
    put_le(m.url_offset, 8, out);
    put_le(m.url_len as u64, 2, out);
    put_le(m.crawl_ts, 8, out);
    put_le(m.content_hash, 8, out);
    put_le(m.lang_id as u64, 2, out);
    assert(out@ =~= old(out)@ + meta_bytes(*m));
}

/// Appends records one after the other.
pub fn put_metas(metas: &[DocMeta], out: &mut Vec<u8>)
    ensures
        final(out)@ == old(out)@ + metas_bytes(metas@),
{
    let ghost start = out@;
    let mut i: usize = 0;
    assert(meta_chunks(metas@.take(0)) =~= Seq::empty());
    assert(start + metas_bytes(metas@.take(0)) =~= start);
    while i < metas.len()
        invariant
            i <= metas@.len(),
            out@ == start + metas_bytes(metas@.take(i as int)),
        decreases metas.len() - i,
    {
        let ghost before = out@;
        put_meta(&metas[i], out);
        proof {
            let chunk = meta_bytes(metas@[i as int]);
            let chunks = meta_chunks(metas@.take(i as int));
            assert(meta_chunks(metas@.take(i + 1)) =~= chunks.push(chunk));
            lemma_concat_push(chunks, chunk);
            assert(before + chunk =~= start + (concat(chunks) + chunk));
        }
        i += 1;
    }
    assert(metas@.take(i as int) =~= metas@);
}

/// Reads the record at position `at`.
pub fn get_meta(data: &[u8], at: usize) -> (m: DocMeta)
    requires
        at + DOC_META_SIZE <= data@.len(),
    ensures
        m == parse_meta(data@.subrange(at as int, at + DOC_META_SIZE)),
{
    assert(at + DOC_META_SIZE <= data.len());
    let ghost s = data@.subrange(at as int, at + DOC_META_SIZE);
    proof {
        lemma_byte_ranges();
        assert(s.subrange(0, 8) =~= data@.subrange(at as int, at + 8));
        assert(s.subrange(8, 10) =~= data@.subrange(at + 8, at + 10));
        assert(s.subrange(10, 18) =~= data@.subrange(at + 10, at + 18));
        assert(s.subrange(18, 26) =~= data@.subrange(at + 18, at + 26));
        assert(s.subrange(26, 28) =~= data@.subrange(at + 26, at + 28));
    }
    DocMeta {
        url_offset: get_le(data, at, 8),
        url_len: get_le(data, at + 8, 2) as u16,
        crawl_ts: get_le(data, at + 10, 8),
        content_hash: get_le(data, at + 18, 8),
        lang_id: get_le(data, at + 26, 2) as u16,
    }
}

} // verus!
