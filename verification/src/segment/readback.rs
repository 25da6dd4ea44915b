//! What the files of a segment give back when they are opened.
use vstd::prelude::*;
use crate::codec::ascending;
use crate::le::{law_le_u32s_at, lemma_le_u32s_uniform};
use crate::segment::disk::{DiskSegment, SegmentBytes};
use crate::segment::docmeta::{law_metas_at, lemma_metas_len};
use crate::segment::files::{Corpus, SegmentFiles};
use crate::segment::files::{
    ids_of, law_list_read_back, list_start, postings_file, term_rows, terms_ascending, tfs_of,
    Index,
};
use crate::segment::flush::u32_at;
use crate::segment::flush::{lemma_list_ascending, lemma_list_len};
use crate::segment::mem::{lemma_occurs, list_ok, new_posting, term_freq, token_bytes, MemSegment};
use crate::terms::{bytes_lt, has_key, keys_ascending, lemma_value_at, map_entries, value_of};

verus! {

/// Every list can be encoded: its documents are in ascending order, and their number has 32 bits.
pub open spec fn encodable(index: Index) -> bool {
    forall|i: int|
        #![trigger index[i]]
        0 <= i < index.len() ==> ascending(ids_of(index[i].1)) && index[i].1.len() <= u32::MAX
}

/// The postings of a term in an index; none where it does not have the term.
pub open spec fn postings_in(index: Index, term: Seq<u8>) -> Seq<(u32, u8)> {
    if term_in(index, term) {
        let i = choose|i: int| 0 <= i < index.len() && (#[trigger] index[i]).0 == term;
        index[i].1
    } else {
        Seq::empty()
    }
}

/// An index has a term.
pub open spec fn term_in(index: Index, term: Seq<u8>) -> bool {
    exists|i: int| 0 <= i < index.len() && (#[trigger] index[i]).0 == term
}

/// In ascending order each term stands once.
pub proof fn lemma_term_unique(index: Index, i: int, j: int)
    requires
        terms_ascending(index),
        0 <= i < index.len(),
        0 <= j < index.len(),
        index[i].0 == index[j].0,
    ensures
        i == j,
{
    crate::terms::lemma_lt_irreflexive(index[i].0);
    if i < j {
        assert(bytes_lt(index[i].0, index[j].0));
    } else if j < i {
        assert(bytes_lt(index[j].0, index[i].0));
    }
}

/// An index that was written is read back: each term with its postings, and no other term.
pub proof fn law_index_read_back(index: Index, seg: DiskSegment<'_>)
    requires
        terms_ascending(index),
        encodable(index),
        seg.postings@ == postings_file(index),
        map_entries(seg.fst) == Some(term_rows(index)),
    ensures
        keys_ascending(seg.rows()),
        seg.index() == index,
        forall|i: int|
            0 <= i < index.len() ==> seg.has_list((#[trigger] seg.rows()[i]).1) && seg.list_at(
                seg.rows()[i].1,
            ) == index[i].1,
        forall|t: Seq<u8>| #[trigger] value_of(seg.rows(), t) is Some <==> term_in(index, t),
        forall|t: Seq<u8>| #[trigger] seg.postings_of(t) == postings_in(index, t),
{
    let rows = seg.rows();
    assert(seg.postings.len() == postings_file(index).len());
    assert forall|i: int, j: int| 0 <= i < j < rows.len() implies bytes_lt(
        #[trigger] rows[i].0,
        #[trigger] rows[j].0,
    ) by {
        assert(bytes_lt(index[i].0, index[j].0));
    }
    assert forall|i: int| 0 <= i < index.len() implies seg.has_list((#[trigger] rows[i]).1)
        && seg.list_at(rows[i].1) == index[i].1 && rows[i].0 == index[i].0 by {
        assert(ascending(ids_of(index[i].1)));
        law_list_read_back(index, i);
        assert(rows[i].1 == list_start(index, i));
        let list = index[i].1;
        assert(seg.list_at(rows[i].1) =~= list) by {
            assert(ids_of(list).len() == list.len());
            assert(forall|k: int|
                0 <= k < list.len() ==> ids_of(list)[k] == list[k].0 && tfs_of(list)[k]
                    == list[k].1);
        }
    }
    assert(seg.index() =~= index);
    assert forall|t: Seq<u8>| #[trigger] value_of(rows, t) is Some <==> term_in(index, t) by {
        if has_key(rows, t) {
            let i = choose|i: int| 0 <= i < rows.len() && (#[trigger] rows[i]).0 == t;
            assert(index[i].0 == t);
        }
        if term_in(index, t) {
            let i = choose|i: int| 0 <= i < index.len() && (#[trigger] index[i]).0 == t;
            assert(rows[i].0 == t);
        }
    }
    assert forall|t: Seq<u8>| #[trigger] seg.postings_of(t) == postings_in(index, t) by {
        assert(value_of(rows, t) is Some <==> term_in(index, t));
        if term_in(index, t) {
            let i = choose|i: int| 0 <= i < index.len() && (#[trigger] index[i]).0 == t;
            assert(rows[i].0 == t);
            lemma_value_at(rows, i);
        }
    }
}

/// Flushing and opening gives back what was in memory: every term with its postings and no other
/// term, and the length, the record and the URL of every document.
pub proof fn law_flush_reads_back<S, M>(
    mem: MemSegment,
    seg_id: u64,
    files: SegmentFiles,
    max_score: S,
    mean: M,
    bytes: SegmentBytes<'_>,
    seg: DiskSegment<'_>,
) where S: Fn(Corpus, u64, u8) -> u32, M: Fn(u64, u64) -> u64
    requires
        mem.wf(),
        mem.flushed(seg_id, files, max_score, mean),
        bytes.holds(files),
        seg.opened(bytes),
    ensures
        seg.valid(),
        seg.meta == files.meta,
        seg.index() == mem.index(),
        forall|t: Seq<u8>| #[trigger]
            value_of(seg.rows(), t) is Some <==> mem.term_dict@.contains_key(t),
        forall|t: Seq<u8>| #[trigger] seg.postings_of(t) == mem.postings_of(t),
        forall|d: int|
            0 <= d < mem.next_doc_id ==> #[trigger] seg.len_of(d) == mem.doc_lengths@[d],
        forall|d: int| 0 <= d < mem.next_doc_id ==> #[trigger] seg.meta_of(d) == mem.doc_metas@[d],
        forall|d: int|
            0 <= d < mem.next_doc_id ==> seg.has_doc_len(d) && seg.has_doc_meta(d) && seg.has_url(
                #[trigger] seg.meta_of(d),
            ),
        seg.docurls@ == mem.doc_urls@,
        forall|t: Seq<u8>| #[trigger]
            mem.term_dict@.contains_key(t) ==> 4 * mem.term_dict@[t] + 4 <= seg.maxscores@.len()
                && mem.scored(t, u32_at(seg.maxscores@, mem.term_dict@[t] as int), max_score),
{
    let index = mem.index();
    let dict = mem.term_dict;
    assert forall|i: int| 0 <= i < index.len() implies list_ok(
        (#[trigger] index[i]).1,
        mem.next_doc_id as int,
    ) && dict@.contains_key(index[i].0) && index[i].1 == mem.postings_of(index[i].0) by {
        dict.lemma_row(i);
        assert(dict.rows()[i].0 == index[i].0);
        assert(mem.postings@.contains_key(dict@[index[i].0]));
    }
    assert forall|i: int, j: int| 0 <= i < j < index.len() implies bytes_lt(
        #[trigger] index[i].0,
        #[trigger] index[j].0,
    ) by {
        assert(bytes_lt(dict.rows()[i].0, dict.rows()[j].0));
    }
    assert forall|i: int| 0 <= i < index.len() implies ascending(ids_of((#[trigger] index[i]).1))
        && index[i].1.len() <= u32::MAX by {
        lemma_list_len(index[i].1, mem.next_doc_id as int);
        lemma_list_ascending(index[i].1, mem.next_doc_id as int);
    }
    law_index_read_back(index, seg);
    assert forall|t: Seq<u8>| #[trigger] term_in(index, t) <==> dict@.contains_key(t) by {
        if dict@.contains_key(t) {
            let i = dict.lemma_has_row(t);
            dict.lemma_row(i);
            assert(index[i].0 == t);
        }
    }
    assert forall|t: Seq<u8>| #[trigger] seg.postings_of(t) == mem.postings_of(t) by {
        assert(seg.postings_of(t) == postings_in(index, t));
        assert(term_in(index, t) <==> dict@.contains_key(t));
    }
    assert forall|t: Seq<u8>| #[trigger] value_of(seg.rows(), t) is Some <==> dict@.contains_key(
        t,
    ) by {
        assert(term_in(index, t) <==> dict@.contains_key(t));
    }
    lemma_le_u32s_uniform(mem.doc_lengths@);
    lemma_metas_len(mem.doc_metas@);
    assert forall|d: int| 0 <= d < mem.next_doc_id implies #[trigger] seg.len_of(d)
        == mem.doc_lengths@[d] by {
        law_le_u32s_at(mem.doc_lengths@, d);
    }
    assert forall|d: int| 0 <= d < mem.next_doc_id implies #[trigger] seg.meta_of(d)
        == mem.doc_metas@[d] by {
        law_metas_at(mem.doc_metas@, d);
    }
    assert forall|i: int| #![trigger seg.rows()[i]] 0 <= i < seg.rows().len() implies seg.list_sound(
        seg.rows()[i].1,
    ) by {
        assert(list_ok(index[i].1, mem.next_doc_id as int));
    }
}

/// A document that was added is found under each of its tokens, once, with the frequency of the
/// token; and the postings of the documents before it are what they were.
pub proof fn law_added_document_is_indexed(
    before: MemSegment,
    mem: MemSegment,
    url: Seq<char>,
    tokens: Seq<String>,
    crawl_ts: u64,
    content_hash: u64,
    term: Seq<u8>,
)
    requires
        before.added(mem, url, tokens, crawl_ts, content_hash),
    ensures
        token_bytes(tokens).contains(term) ==> mem.postings_of(term) == before.postings_of(
            term,
        ).push((before.next_doc_id, term_freq(token_bytes(tokens), term))),
        !token_bytes(tokens).contains(term) ==> mem.postings_of(term) == before.postings_of(term),
{
    let words = token_bytes(tokens);
    lemma_occurs(words, term);
    assert(mem.postings_of(term) == before.postings_of(term) + new_posting(
        words,
        term,
        before.next_doc_id,
    ));
    if words.contains(term) {
        assert(mem.postings_of(term) =~= before.postings_of(term).push(
            (before.next_doc_id, term_freq(words, term)),
        ));
    } else {
        assert(mem.postings_of(term) =~= before.postings_of(term));
    }
}

/// The URL of a document that was added, if its length has 16 bits, is read back from the files.
pub proof fn law_added_url_is_read_back<S, M>(
    before: MemSegment,
    mem: MemSegment,
    url: Seq<char>,
    tokens: Seq<String>,
    crawl_ts: u64,
    content_hash: u64,
    seg_id: u64,
    files: SegmentFiles,
    max_score: S,
    mean: M,
    bytes: SegmentBytes<'_>,
    seg: DiskSegment<'_>,
) where S: Fn(Corpus, u64, u8) -> u32, M: Fn(u64, u64) -> u64
    requires
        before.wf(),
        mem.wf(),
        before.added(mem, url, tokens, crawl_ts, content_hash),
        mem.flushed(seg_id, files, max_score, mean),
        bytes.holds(files),
        seg.opened(bytes),
        vstd::utf8::encode_utf8(url).len() < 0x1_0000,
    ensures
        seg.url_of(seg.meta_of(before.next_doc_id as int)) == vstd::utf8::encode_utf8(url),
{
    let url_bytes = vstd::utf8::encode_utf8(url);
    law_flush_reads_back(mem, seg_id, files, max_score, mean, bytes, seg);
    let m = mem.doc_metas@[before.next_doc_id as int];
    assert(seg.meta_of(before.next_doc_id as int) == m);
    assert(mem.doc_urls.len() == before.doc_urls@.len() + url_bytes.len());
    assert(seg.url_of(m) =~= url_bytes);
}

} // verus!
