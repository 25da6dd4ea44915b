//! What a segment in memory, its files, and reading them amount to.
use vstd::prelude::*;
use crate::segment::readback::{law_added_url_is_read_back, law_flush_reads_back};
use crate::segment::files::{list_chunks, postings_file, term_rows};
use crate::segment::docmeta::{meta_chunks, metas_bytes};
use crate::le::{law_concat_flattens, le_u32_chunks, le_u32s};
use crate::codec::postings_bytes;
use vstd::math::min;
use vstd::utf8::encode_utf8;
use crate::codec::parse_postings;
use crate::le::{law_le_rewrite, law_le_u32s_at, lemma_byte_ranges, lemma_le_bytes_len};
use crate::le::{le_bytes, le_value, lemma_le_value_range};
use crate::segment::disk::{DiskSegment, SegmentBytes};
use crate::segment::docmeta::{law_meta_roundtrip, meta_bytes, parse_meta, DocMeta};
use crate::segment::files::{
    corpus_of, entry_count, greatest_tf, ids_of, least_len, lemma_total_len_bound, tfs_of,
    total_len, Corpus, Index, SegmentFiles,
};
use crate::segment::flush::u32_at;
use crate::segment::mem::{learn, lemma_learn, occurrences, term_freq, token_bytes, MemSegment};
use crate::terms::{bytes_lt, fst_content, map_entries, value_of};

verus! {

// ---------------------------------------------------------------------------------------------
// Counting
// ---------------------------------------------------------------------------------------------

/// How often a term occurs is its count in the bag of the words.
pub proof fn law_occurrences(words: Seq<Seq<u8>>, term: Seq<u8>)
    ensures
        occurrences(words, term) == words.to_multiset().count(term),
    decreases words.len(),
{
    broadcast use vstd::seq_lib::group_to_multiset_ensures;

    if words.len() > 0 {
        law_occurrences(words.drop_last(), term);
        assert(words.drop_last().push(words.last()) =~= words);
    } else {
        assert(words.to_multiset().len() == 0);
        assert(!words.contains(term));
    }
}

/// Occurrences add up over the parts of a text; in a single word there is one if it is the term.
pub proof fn law_occurrences_add_up(a: Seq<Seq<u8>>, b: Seq<Seq<u8>>, word: Seq<u8>, term: Seq<u8>)
    ensures
        occurrences(a + b, term) == occurrences(a, term) + occurrences(b, term),
        occurrences(seq![word], term) == if word == term {
            1int
        } else {
            0
        },
        occurrences(Seq::empty(), term) == 0,
    decreases b.len(),
{
    assert(seq![word].drop_last() =~= Seq::empty());
    reveal_with_fuel(occurrences, 2);
    if b.len() == 0 {
        assert(a + b =~= a);
    } else {
        assert((a + b).drop_last() =~= a + b.drop_last());
        law_occurrences_add_up(a, b.drop_last(), word, term);
    }
}

/// The frequency of a term is how often it occurs, and 255 where it occurs more often.
pub proof fn law_term_freq(words: Seq<Seq<u8>>, term: Seq<u8>)
    ensures
        term_freq(words, term) == min(255, words.to_multiset().count(term) as int),
{
    law_occurrences(words, term);
}

/// The total length is the sum of the lengths.
pub proof fn law_total_len(lengths: Seq<u32>)
    ensures
        total_len(lengths) == lengths.fold_left(0, |sum: int, n: u32| sum + n),
    decreases lengths.len(),
{
    if lengths.len() > 0 {
        law_total_len(lengths.drop_last());
    }
}

/// Total lengths add up; that of one document is its length.
pub proof fn law_total_len_adds_up(a: Seq<u32>, b: Seq<u32>, n: u32)
    ensures
        total_len(a + b) == total_len(a) + total_len(b),
        total_len(seq![n]) == n,
        total_len(Seq::empty()) == 0,
    decreases b.len(),
{
    assert(seq![n].drop_last() =~= Seq::empty());
    reveal_with_fuel(total_len, 2);
    if b.len() == 0 {
        assert(a + b =~= a);
    } else {
        assert((a + b).drop_last() =~= a + b.drop_last());
        law_total_len_adds_up(a, b.drop_last(), n);
    }
}

/// The least length is that of a document, and no document is shorter; an empty document counts as
/// one of length 1.
pub proof fn law_least_len(lengths: Seq<u32>)
    ensures
        lengths.len() == 0 ==> least_len(lengths) == u32::MAX,
        forall|i: int|
            0 <= i < lengths.len() ==> least_len(lengths) <= (if #[trigger] lengths[i] == 0 {
                1
            } else {
                lengths[i] as int
            }),
        lengths.len() > 0 ==> exists|i: int|
            0 <= i < lengths.len() && least_len(lengths) == (if #[trigger] lengths[i] == 0 {
                1
            } else {
                lengths[i] as int
            }),
    decreases lengths.len(),
{
    if lengths.len() > 0 {
        let front = lengths.drop_last();
        law_least_len(front);
        let last = lengths.len() - 1;
        assert(lengths[last] == lengths.last());
        if front.len() > 0 {
            let i = choose|i: int|
                0 <= i < front.len() && least_len(front) == (if #[trigger] front[i] == 0 {
                    1
                } else {
                    front[i] as int
                });
            assert(front[i] == lengths[i]);
        }
        assert forall|i: int| 0 <= i < lengths.len() implies least_len(lengths) <= (
        if #[trigger] lengths[i] == 0 {
            1
        } else {
            lengths[i] as int
        }) by {
            if i < last {
                assert(front[i] == lengths[i]);
            }
        }
    }
}

/// The greatest frequency is one of the list, and no other is greater.
pub proof fn law_greatest_tf(list: Seq<(u32, u8)>)
    ensures
        list.len() == 0 ==> greatest_tf(list) == 1,
        forall|i: int| 0 <= i < list.len() ==> (#[trigger] list[i]).1 <= greatest_tf(list),
        list.len() > 0 ==> exists|i: int|
            0 <= i < list.len() && (#[trigger] list[i]).1 == greatest_tf(list),
    decreases list.len(),
{
    if list.len() > 0 {
        let front = list.drop_last();
        law_greatest_tf(front);
        let last = list.len() - 1;
        assert(list[last] == list.last());
        if front.len() > 0 {
            let i = choose|i: int|
                0 <= i < front.len() && (#[trigger] front[i]).1 == greatest_tf(front);
            assert(front[i] == list[i]);
        }
        assert forall|i: int| 0 <= i < list.len() implies (#[trigger] list[i]).1 <= greatest_tf(
            list,
        ) by {
            if i < last {
                assert(front[i] == list[i]);
            }
        }
    }
}

/// The number of postings is the sum of the lengths of the lists.
pub proof fn law_entry_count(index: Index)
    ensures
        entry_count(index) == index.fold_left(
            0,
            |n: int, e: (Seq<u8>, Seq<(u32, u8)>)| n + e.1.len(),
        ),
    decreases index.len(),
{
    if index.len() > 0 {
        law_entry_count(index.drop_last());
    }
}

/// The columns of a list of postings.
pub proof fn law_columns(list: Seq<(u32, u8)>)
    ensures
        ids_of(list).len() == list.len(),
        tfs_of(list).len() == list.len(),
        forall|i: int| 0 <= i < list.len() ==> #[trigger] ids_of(list)[i] == list[i].0,
        forall|i: int| 0 <= i < list.len() ==> #[trigger] tfs_of(list)[i] == list[i].1,
{
}

// ---------------------------------------------------------------------------------------------
// Adding a document
// ---------------------------------------------------------------------------------------------

/// Words one after the other are learnt like words put together. A word that was not known gets
/// the number of words known so far, and one that was known keeps its number.
pub proof fn law_learn(dict: Map<Seq<u8>, u32>, a: Seq<Seq<u8>>, b: Seq<Seq<u8>>, word: Seq<u8>)
    ensures
        learn(dict, a + b) == learn(learn(dict, a), b),
        learn(dict, seq![word]) == if dict.contains_key(word) {
            dict
        } else {
            dict.insert(word, dict.len() as u32)
        },
        learn(dict, Seq::empty()) == dict,
    decreases b.len(),
{
    assert(seq![word].drop_last() =~= Seq::empty());
    reveal_with_fuel(learn, 2);
    if b.len() == 0 {
        assert(a + b =~= a);
    } else {
        assert((a + b).drop_last() =~= a + b.drop_last());
        law_learn(dict, a, b.drop_last(), word);
    }
}

/// The words of a document are the bytes of its tokens.
pub proof fn law_token_bytes(tokens: Seq<String>)
    ensures
        token_bytes(tokens).len() == tokens.len(),
        forall|i: int|
            0 <= i < tokens.len() ==> #[trigger] token_bytes(tokens)[i] == encode_utf8(tokens[i]@),
{
}

/// The postings of a term that is known are those under its number.
pub proof fn law_postings_in_memory(mem: MemSegment, term: Seq<u8>)
    ensures
        mem.term_dict@.contains_key(term) ==> mem.postings_of(term)
            == mem.postings@[mem.term_dict@[term]]@,
        !mem.term_dict@.contains_key(term) ==> mem.postings_of(term).len() == 0,
{
}

/// Adding a document: each of its words is known afterwards and has one more posting, with the
/// number of the document and how often the word is among the tokens, up to 255. The postings of
/// other words stay, and so do the numbers of the words.
pub proof fn law_words_of_an_added_document(
    before: MemSegment,
    after: MemSegment,
    url: Seq<char>,
    tokens: Seq<String>,
    crawl_ts: u64,
    content_hash: u64,
    term: Seq<u8>,
)
    requires
        before.wf(),
        after.wf(),
        before.added(after, url, tokens, crawl_ts, content_hash),
    ensures
        ({
            let words = tokens.map_values(|t: String| encode_utf8(t@));
            let n = words.to_multiset().count(term);
            let list = if before.term_dict@.contains_key(term) {
                before.postings@[before.term_dict@[term]]@
            } else {
                Seq::empty()
            };
            &&& after.term_dict@.contains_key(term) <==> before.term_dict@.contains_key(term)
                || words.contains(term)
            &&& before.term_dict@.contains_key(term) ==> after.term_dict@[term]
                == before.term_dict@[term]
            &&& words.contains(term) ==> n > 0 && after.postings@[after.term_dict@[term]]@
                == list.push((before.next_doc_id, min(255, n as int) as u8))
            &&& !words.contains(term) && before.term_dict@.contains_key(term)
                ==> after.postings@[after.term_dict@[term]]@ == list
        }),
{
    broadcast use vstd::seq_lib::group_to_multiset_ensures;

    let words = tokens.map_values(|t: String| encode_utf8(t@));
    assert(words =~= token_bytes(tokens));
    law_occurrences(words, term);
    law_term_freq(words, term);
    lemma_learn(before.term_dict@, words);
    let one = after.postings_of(term);
    assert(one == before.postings_of(term) + crate::segment::mem::new_posting(
        words,
        term,
        before.next_doc_id,
    ));
    if words.contains(term) {
        assert(words.to_multiset().count(term) > 0);
        assert(one =~= before.postings_of(term).push(
            (before.next_doc_id, min(255, words.to_multiset().count(term) as int) as u8),
        ));
    } else {
        assert(words.to_multiset().count(term) == 0);
        assert(one =~= before.postings_of(term));
    }
}

/// Adding a document: it gets the next number, a record that points to its URL behind those of the
/// documents before it, and the number of its tokens for a length. Nothing of the documents before
/// it changes.
pub proof fn law_record_of_an_added_document(
    before: MemSegment,
    after: MemSegment,
    url: Seq<char>,
    tokens: Seq<String>,
    crawl_ts: u64,
    content_hash: u64,
)
    requires
        before.added(after, url, tokens, crawl_ts, content_hash),
    ensures
        after.next_doc_id == before.next_doc_id + 1,
        after.doc_urls@ == before.doc_urls@ + encode_utf8(url),
        after.doc_metas@.len() == before.doc_metas@.len() + 1,
        after.doc_metas@.drop_last() == before.doc_metas@,
        after.doc_metas@.last().url_offset == before.doc_urls@.len() as u64,
        after.doc_metas@.last().url_len as int == encode_utf8(url).len() as int % 0x1_0000,
        after.doc_metas@.last().crawl_ts == crawl_ts,
        after.doc_metas@.last().content_hash == content_hash,
        after.doc_metas@.last().lang_id == 1,
        after.doc_lengths@.len() == before.doc_lengths@.len() + 1,
        after.doc_lengths@.drop_last() == before.doc_lengths@,
        after.doc_lengths@.last() as int == tokens.len() as int % 0x1_0000_0000,
        after.byte_size == before.byte_size + 24 * tokens.len(),
        after.flush_threshold == before.flush_threshold,
{
    assert(after.doc_metas@.drop_last() =~= before.doc_metas@);
    assert(after.doc_lengths@.drop_last() =~= before.doc_lengths@);
}

/// A segment that holds no document has nothing.
pub proof fn law_empty_segment(mem: MemSegment)
    ensures
        mem.is_empty() <==> {
            &&& mem.term_dict@ == Map::<Seq<u8>, u32>::empty()
            &&& mem.postings@ == Map::<u32, Vec<(u32, u8)>>::empty()
            &&& mem.doc_metas@.len() == 0
            &&& mem.doc_urls@.len() == 0
            &&& mem.doc_lengths@.len() == 0
            &&& mem.next_term_id == 0
            &&& mem.next_doc_id == 0
            &&& mem.byte_size == 0
        },
{
    if mem.doc_metas@.len() == 0 && mem.doc_urls@.len() == 0 && mem.doc_lengths@.len() == 0 {
        assert(mem.doc_metas@ =~= Seq::empty());
        assert(mem.doc_urls@ =~= Seq::empty());
        assert(mem.doc_lengths@ =~= Seq::empty());
    }
}

// ---------------------------------------------------------------------------------------------
// Flushing
// ---------------------------------------------------------------------------------------------

/// The terms that are written: each that is known, once and in order, with its postings.
pub proof fn law_terms_to_write(mem: MemSegment)
    requires
        mem.wf(),
    ensures
        mem.index().len() == mem.term_dict@.len() == mem.next_term_id,
        forall|i: int, j: int|
            0 <= i < j < mem.index().len() ==> bytes_lt(
                #[trigger] mem.index()[i].0,
                #[trigger] mem.index()[j].0,
            ),
        forall|i: int|
            0 <= i < mem.index().len() ==> mem.term_dict@.contains_key(#[trigger] mem.index()[i].0)
                && mem.index()[i].1 == mem.postings@[mem.term_dict@[mem.index()[i].0]]@,
{
    mem.term_dict.lemma_size();
    let rows = mem.term_dict.rows();
    assert forall|i: int, j: int| 0 <= i < j < mem.index().len() implies bytes_lt(
        #[trigger] mem.index()[i].0,
        #[trigger] mem.index()[j].0,
    ) by {
        assert(bytes_lt(rows[i].0, rows[j].0));
    }
    assert forall|i: int| 0 <= i < mem.index().len() implies mem.term_dict@.contains_key(
        #[trigger] mem.index()[i].0,
    ) && mem.index()[i].1 == mem.postings@[mem.term_dict@[mem.index()[i].0]]@ by {
        mem.term_dict.lemma_row(i);
        assert(rows[i].0 == mem.term_dict.entries@[i].0@);
    }
}

/// The statistics that a flush writes: the numbers of documents, terms and postings; the number of
/// documents that have each term; and what the mean and the scores are computed from, which are the
/// number and the lengths of the documents, and for each term the number of documents that have it
/// and its greatest frequency.
pub proof fn law_flushed_statistics<S, M>(
    mem: MemSegment,
    seg_id: u64,
    files: SegmentFiles,
    max_score: S,
    mean: M,
) where S: Fn(Corpus, u64, u8) -> u32, M: Fn(u64, u64) -> u64
    requires
        mem.wf(),
        mem.flushed(seg_id, files, max_score, mean),
    ensures
        files.meta.seg_id == seg_id,
        files.meta.merge_gen == 0,
        files.meta.num_docs == mem.next_doc_id,
        files.meta.num_terms == mem.term_dict@.len(),
        files.meta.total_postings == mem.index().fold_left(
            0,
            |n: int, e: (Seq<u8>, Seq<(u32, u8)>)| n + e.1.len(),
        ),
        ({
            let sum = mem.doc_lengths@.fold_left(0, |sum: int, n: u32| sum + n);
            let corpus = Corpus {
                num_docs: mem.next_doc_id as u64,
                total_len: sum as u64,
                min_len: least_len(mem.doc_lengths@),
            };
            &&& 0 <= sum <= u64::MAX
            &&& call_ensures(mean, (sum as u64, mem.next_doc_id as u64), files.meta.avg_doc_len)
            &&& forall|t: Seq<u8>| #[trigger]
                mem.term_dict@.contains_key(t) ==> {
                    let id = mem.term_dict@[t] as int;
                    let list = mem.postings@[mem.term_dict@[t]]@;
                    &&& 4 * id + 4 <= files.maxscores@.len()
                    &&& call_ensures(
                        max_score,
                        (corpus, list.len() as u64, greatest_tf(list)),
                        le_value(files.maxscores@.subrange(4 * id, 4 * id + 4)) as u32,
                    )
                }
        }),
        files.terminfo is Some,
        forall|id: u32|
            id < mem.next_term_id ==> 4 * id + 4 <= files.terminfo->0@.len() && le_value(
                files.terminfo->0@.subrange(4 * id, 4 * id + 4),
            ) == (#[trigger] mem.postings@[id])@.len(),
{
    let lens = mem.doc_lengths@;
    law_entry_count(mem.index());
    law_total_len(lens);
    lemma_total_len_bound(lens);
    assert(lens.len() * u32::MAX <= u32::MAX * u32::MAX) by (nonlinear_arith)
        requires
            lens.len() <= u32::MAX,
    ;
    mem.term_dict.lemma_size();
    let terminfo = files.terminfo->0@;
    assert forall|id: u32| id < mem.next_term_id implies 4 * id + 4 <= terminfo.len() && le_value(
        terminfo.subrange(4 * id, 4 * id + 4),
    ) == (#[trigger] mem.postings@[id])@.len() by {
        law_le_u32s_at(mem.doc_freqs(), id as int);
        assert(mem.postings@.contains_key(id));
        crate::segment::flush::lemma_list_len(mem.postings@[id]@, mem.next_doc_id as int);
    }
    assert forall|t: Seq<u8>| #[trigger] mem.term_dict@.contains_key(t) implies {
        let id = mem.term_dict@[t] as int;
        let list = mem.postings@[mem.term_dict@[t]]@;
        &&& 4 * id + 4 <= files.maxscores@.len()
        &&& call_ensures(
            max_score,
            (
                Corpus {
                    num_docs: mem.next_doc_id as u64,
                    total_len: total_len(lens) as u64,
                    min_len: least_len(lens),
                },
                list.len() as u64,
                greatest_tf(list),
            ),
            le_value(files.maxscores@.subrange(4 * id, 4 * id + 4)) as u32,
        )
    } by {
        assert(mem.term_dict@[t] < mem.next_term_id);
        assert(mem.scored(t, u32_at(files.maxscores@, mem.term_dict@[t] as int), max_score));
    }
}

/// Documents in numbers: how many there are, their total length, and the least length.
pub proof fn law_corpus(lengths: Seq<u32>)
    requires
        lengths.len() <= u32::MAX,
    ensures
        corpus_of(lengths).num_docs == lengths.len(),
        corpus_of(lengths).total_len == lengths.fold_left(0, |sum: int, n: u32| sum + n),
        corpus_of(lengths).min_len == least_len(lengths),
{
    law_total_len(lengths);
    lemma_total_len_bound(lengths);
    assert(lengths.len() * u32::MAX <= u32::MAX * u32::MAX) by (nonlinear_arith)
        requires
            lengths.len() <= u32::MAX,
    ;
}

// ---------------------------------------------------------------------------------------------
// Records
// ---------------------------------------------------------------------------------------------

/// Where the fields of a record stand.
pub proof fn law_meta_layout(m: DocMeta)
    ensures
        meta_bytes(m).len() == 28,
        meta_bytes(m).subrange(0, 8) == le_bytes(m.url_offset as nat, 8),
        meta_bytes(m).subrange(8, 10) == le_bytes(m.url_len as nat, 2),
        meta_bytes(m).subrange(10, 18) == le_bytes(m.crawl_ts as nat, 8),
        meta_bytes(m).subrange(18, 26) == le_bytes(m.content_hash as nat, 8),
        meta_bytes(m).subrange(26, 28) == le_bytes(m.lang_id as nat, 2),
{
    law_meta_roundtrip(m);
    lemma_le_bytes_len(m.url_offset as nat, 8);
    lemma_le_bytes_len(m.url_len as nat, 2);
    lemma_le_bytes_len(m.crawl_ts as nat, 8);
    lemma_le_bytes_len(m.content_hash as nat, 8);
    lemma_le_bytes_len(m.lang_id as nat, 2);
    assert(meta_bytes(m).subrange(0, 8) =~= le_bytes(m.url_offset as nat, 8));
    assert(meta_bytes(m).subrange(8, 10) =~= le_bytes(m.url_len as nat, 2));
    assert(meta_bytes(m).subrange(10, 18) =~= le_bytes(m.crawl_ts as nat, 8));
    assert(meta_bytes(m).subrange(18, 26) =~= le_bytes(m.content_hash as nat, 8));
    assert(meta_bytes(m).subrange(26, 28) =~= le_bytes(m.lang_id as nat, 2));
}

/// The bytes of a record that was read are those that it was read from.
pub proof fn law_meta_rewrite(s: Seq<u8>)
    requires
        s.len() == 28,
    ensures
        meta_bytes(parse_meta(s)) == s,
{
    lemma_byte_ranges();
    law_le_rewrite(s.subrange(0, 8));
    law_le_rewrite(s.subrange(8, 10));
    law_le_rewrite(s.subrange(10, 18));
    law_le_rewrite(s.subrange(18, 26));
    law_le_rewrite(s.subrange(26, 28));
    lemma_le_value_range(s.subrange(0, 8));
    lemma_le_value_range(s.subrange(8, 10));
    lemma_le_value_range(s.subrange(10, 18));
    lemma_le_value_range(s.subrange(18, 26));
    lemma_le_value_range(s.subrange(26, 28));
    assert(meta_bytes(parse_meta(s)) =~= s.subrange(0, 8) + s.subrange(8, 10) + s.subrange(10, 18)
        + s.subrange(18, 26) + s.subrange(26, 28));
    assert(s.subrange(0, 8) + s.subrange(8, 10) + s.subrange(10, 18) + s.subrange(18, 26)
        + s.subrange(26, 28) =~= s);
}

// ---------------------------------------------------------------------------------------------
// Reading
// ---------------------------------------------------------------------------------------------

/// What is read of a document: four bytes for its length, 28 for its record, and the bytes of its
/// URL, where the record says.
pub proof fn law_reading_documents(seg: DiskSegment<'_>, d: int, m: DocMeta)
    requires
        d >= 0,
    ensures
        seg.has_doc_len(d) <==> 4 * (d + 1) <= seg.doclens@.len(),
        seg.has_doc_len(d) ==> seg.len_of(d) == le_value(seg.doclens@.subrange(4 * d, 4 * d + 4)),
        seg.has_doc_meta(d) <==> 28 * (d + 1) <= seg.docmeta@.len(),
        seg.has_doc_meta(d) ==> meta_bytes(seg.meta_of(d)) == seg.docmeta@.subrange(
            28 * d,
            28 * d + 28,
        ),
        seg.has_url(m) <==> m.url_offset + m.url_len <= seg.docurls@.len(),
        seg.has_url(m) ==> seg.url_of(m) == seg.docurls@.skip(m.url_offset as int).take(
            m.url_len as int,
        ),
{
    lemma_byte_ranges();
    if seg.has_doc_len(d) {
        lemma_le_value_range(seg.doclens@.subrange(4 * d, 4 * d + 4));
    }
    if seg.has_doc_meta(d) {
        law_meta_rewrite(seg.docmeta@.subrange(28 * d, 28 * d + 28));
    }
    if seg.has_url(m) {
        assert(seg.url_of(m) =~= seg.docurls@.skip(m.url_offset as int).take(m.url_len as int));
    }
}

/// What is read of a term: the list that starts where the term file says, and none for a term that
/// it does not have.
pub proof fn law_reading_terms(seg: DiskSegment<'_>, term: Seq<u8>, offset: u64)
    ensures
        seg.has_terms() <==> map_entries(seg.fst) is Some,
        seg.has_terms() ==> Some(seg.rows()) == map_entries(seg.fst),
        value_of(seg.rows(), term) matches Some(at) ==> seg.postings_of(term) == seg.list_at(at),
        value_of(seg.rows(), term) is None ==> seg.postings_of(term).len() == 0,
        seg.has_list(offset) <==> offset <= seg.postings@.len() && parse_postings(
            seg.postings@.skip(offset as int),
        ) is Some,
        seg.has_list(offset) ==> {
            let p = parse_postings(seg.postings@.skip(offset as int))->0;
            &&& seg.list_at(offset).len() == p.ids.len()
            &&& forall|i: int|
                0 <= i < p.ids.len() ==> #[trigger] seg.list_at(offset)[i] == (p.ids[i], p.tfs[i])
        },
{
}

/// An open segment has the contents of the files, and the sum of their sizes.
pub proof fn law_open_segment<'a>(seg: DiskSegment<'a>, bytes: SegmentBytes<'a>, files: SegmentFiles)
    requires
        seg.opened(bytes),
        bytes.holds(files),
    ensures
        seg.meta == files.meta,
        seg.postings@ == files.postings@,
        seg.doclens@ == files.doclens@,
        seg.docmeta@ == files.docmeta@,
        seg.docurls@ == files.docurls@,
        seg.maxscores@ == files.maxscores@,
        map_entries(seg.fst) == fst_content(files.terms@),
        seg.size_bytes == files.postings@.len() + files.terms@.len() + files.doclens@.len()
            + files.docmeta@.len() + files.docurls@.len() + files.maxscores@.len() + (
        match files.terminfo {
            Some(terminfo) => terminfo@.len() as int,
            None => 0,
        }) + bytes.meta_len,
{
}

/// A table of numbers holds four bytes for each.
pub proof fn law_table(table: Seq<u8>, i: int)
    requires
        0 <= i,
        4 * i + 4 <= table.len(),
    ensures
        u32_at(table, i) == le_value(table.subrange(4 * i, 4 * i + 4)),
{
    lemma_byte_ranges();
    lemma_le_value_range(table.subrange(4 * i, 4 * i + 4));
}

/// What is read back of the words of a document that was added and flushed: for each of its tokens
/// the last posting has its number and how often the token stands in it, up to 255.
pub proof fn law_added_words_are_read_back<S, M>(
    before: MemSegment,
    mem: MemSegment,
    url: Seq<char>,
    tokens: Seq<String>,
    crawl_ts: u64,
    content_hash: u64,
    seg_id: u64,
    files: SegmentFiles,
    max_score: S,
    mean: M,
    bytes: SegmentBytes<'_>,
    seg: DiskSegment<'_>,
    i: int,
) where S: Fn(Corpus, u64, u8) -> u32, M: Fn(u64, u64) -> u64
    requires
        before.wf(),
        mem.wf(),
        before.added(mem, url, tokens, crawl_ts, content_hash),
        mem.flushed(seg_id, files, max_score, mean),
        bytes.holds(files),
        seg.opened(bytes),
        0 <= i < tokens.len(),
    ensures
        ({
            let words = tokens.map_values(|t: String| encode_utf8(t@));
            let n = words.to_multiset().count(words[i]);
            &&& n > 0
            &&& seg.postings_of(words[i]).last() == (before.next_doc_id, min(255, n as int) as u8)
        }),
{
    let words = tokens.map_values(|t: String| encode_utf8(t@));
    let word = words[i];
    assert(words.contains(word));
    law_words_of_an_added_document(before, mem, url, tokens, crawl_ts, content_hash, word);
    assert(seg.postings_of(word) == mem.postings_of(word)) by {
        law_flush_reads_back(mem, seg_id, files, max_score, mean, bytes, seg);
    }
}

/// What is read back of the record of a document that was added and flushed: its length, its time,
/// its hash and its URL.
pub proof fn law_added_record_is_read_back<S, M>(
    before: MemSegment,
    mem: MemSegment,
    url: Seq<char>,
    tokens: Seq<String>,
    crawl_ts: u64,
    content_hash: u64,
    seg_id: u64,
    files: SegmentFiles,
    max_score: S,
    mean: M,
    bytes: SegmentBytes<'_>,
    seg: DiskSegment<'_>,
) where S: Fn(Corpus, u64, u8) -> u32, M: Fn(u64, u64) -> u64
    requires
        before.wf(),
        mem.wf(),
        before.added(mem, url, tokens, crawl_ts, content_hash),
        mem.flushed(seg_id, files, max_score, mean),
        bytes.holds(files),
        seg.opened(bytes),
        encode_utf8(url).len() < 0x1_0000,
        tokens.len() <= u32::MAX,
    ensures
        ({
            let doc = before.next_doc_id as int;
            let m = seg.meta_of(doc);
            &&& seg.len_of(doc) == tokens.len()
            &&& m.crawl_ts == crawl_ts
            &&& m.content_hash == content_hash
            &&& m.lang_id == 1
            &&& seg.docurls@.skip(m.url_offset as int).take(m.url_len as int) == encode_utf8(url)
        }),
{
    let doc = before.next_doc_id as int;
    let m = seg.meta_of(doc);
    assert(m == mem.doc_metas@.last() && seg.len_of(doc) == mem.doc_lengths@.last()
        && seg.has_url(m)) by {
        law_flush_reads_back(mem, seg_id, files, max_score, mean, bytes, seg);
        assert(mem.doc_metas@[doc] == mem.doc_metas@.last());
        assert(mem.doc_lengths@[doc] == mem.doc_lengths@.last());
        assert(seg.meta_of(doc) == mem.doc_metas@[doc]);
        assert(seg.len_of(doc) == mem.doc_lengths@[doc]);
    }
    law_record_of_an_added_document(before, mem, url, tokens, crawl_ts, content_hash);
    assert(seg.url_of(m) == encode_utf8(url)) by {
        law_added_url_is_read_back(
            before,
            mem,
            url,
            tokens,
            crawl_ts,
            content_hash,
            seg_id,
            files,
            max_score,
            mean,
            bytes,
            seg,
        );
    }
    assert(seg.docurls@.skip(m.url_offset as int).take(m.url_len as int) =~= seg.url_of(m));
}

// ---------------------------------------------------------------------------------------------
// The files
// ---------------------------------------------------------------------------------------------

/// The postings file has the lists of the terms, one after the other, and the term file says of each
/// term how many bytes stand before its list.
pub proof fn law_files_of_an_index(index: Index, i: int)
    requires
        0 <= i < index.len(),
    ensures
        postings_file(index) == index.map_values(
            |e: (Seq<u8>, Seq<(u32, u8)>)| postings_bytes(ids_of(e.1), tfs_of(e.1)),
        ).flatten(),
        term_rows(index).len() == index.len(),
        term_rows(index)[i].0 == index[i].0,
        term_rows(index)[i].1 == postings_file(index.take(i)).len() as u64,
{
    let bytes = |e: (Seq<u8>, Seq<(u32, u8)>)| postings_bytes(ids_of(e.1), tfs_of(e.1));
    assert(list_chunks(index) =~= index.map_values(bytes));
    law_concat_flattens(list_chunks(index));
    assert(list_chunks(index).take(i) =~= list_chunks(index.take(i)));
}

/// What a flush writes: the terms of the segment with their postings, and the tables of its
/// documents.
pub proof fn law_flushed_files<S, M>(
    mem: MemSegment,
    seg_id: u64,
    files: SegmentFiles,
    max_score: S,
    mean: M,
) where S: Fn(Corpus, u64, u8) -> u32, M: Fn(u64, u64) -> u64
    requires
        mem.flushed(seg_id, files, max_score, mean),
    ensures
        files.postings@ == postings_file(mem.index()),
        fst_content(files.terms@) == Some(term_rows(mem.index())),
        files.doclens@ == mem.doc_lengths@.map_values(|n: u32| le_bytes(n as nat, 4)).flatten(),
        files.docmeta@ == mem.doc_metas@.map_values(|m: DocMeta| meta_bytes(m)).flatten(),
        files.docurls@ == mem.doc_urls@,
{
    law_table_of_numbers(mem.doc_lengths@);
    law_table_of_records(mem.doc_metas@);
}

/// A table of numbers is their bytes, four each, one after the other.
pub proof fn law_table_of_numbers(values: Seq<u32>)
    ensures
        le_u32s(values) == values.map_values(|n: u32| le_bytes(n as nat, 4)).flatten(),
{
    law_concat_flattens(le_u32_chunks(values));
    assert(le_u32_chunks(values) =~= values.map_values(|n: u32| le_bytes(n as nat, 4)));
}

/// A table of records is their bytes, one after the other.
pub proof fn law_table_of_records(metas: Seq<DocMeta>)
    ensures
        metas_bytes(metas) == metas.map_values(|m: DocMeta| meta_bytes(m)).flatten(),
{
    law_concat_flattens(meta_chunks(metas));
    assert(meta_chunks(metas) =~= metas.map_values(|m: DocMeta| meta_bytes(m)));
}

/// A segment is valid where its term file came from a builder and its terms ascend, each with a list
/// that can be read, of documents of the segment that ascend; and where each document has its length,
/// its record, and the URL that the record points to.
pub proof fn law_valid(seg: DiskSegment<'_>)
    ensures
        seg.valid() <==> {
            &&& map_entries(seg.fst) is Some
            &&& forall|i: int, j: int|
                0 <= i < j < seg.rows().len() ==> bytes_lt(
                    #[trigger] seg.rows()[i].0,
                    #[trigger] seg.rows()[j].0,
                )
            &&& forall|i: int|
                0 <= i < seg.rows().len() ==> {
                    let list = seg.list_at((#[trigger] seg.rows()[i]).1);
                    &&& seg.has_list(seg.rows()[i].1)
                    &&& forall|k: int|
                        0 <= k < list.len() ==> (#[trigger] list[k]).0 < seg.meta.num_docs
                    &&& forall|k: int, l: int|
                        0 <= k < l < list.len() ==> (#[trigger] list[k]).0 < (#[trigger] list[l]).0
                }
            &&& seg.meta.num_docs <= u32::MAX
            &&& 4 * seg.meta.num_docs <= seg.doclens@.len()
            &&& 28 * seg.meta.num_docs <= seg.docmeta@.len()
            &&& forall|d: int|
                0 <= d < seg.meta.num_docs ==> (#[trigger] seg.meta_of(d)).url_offset + seg.meta_of(
                    d,
                ).url_len <= seg.docurls@.len()
        },
{
    if seg.valid() {
        assert forall|i: int| 0 <= i < seg.rows().len() implies {
            let list = seg.list_at((#[trigger] seg.rows()[i]).1);
            &&& seg.has_list(seg.rows()[i].1)
            &&& forall|k: int| 0 <= k < list.len() ==> (#[trigger] list[k]).0 < seg.meta.num_docs
            &&& forall|k: int, l: int|
                0 <= k < l < list.len() ==> (#[trigger] list[k]).0 < (#[trigger] list[l]).0
        } by {
            assert(seg.list_sound(seg.rows()[i].1));
        }
        assert forall|d: int| 0 <= d < seg.meta.num_docs implies (#[trigger] seg.meta_of(
            d,
        )).url_offset + seg.meta_of(d).url_len <= seg.docurls@.len() by {
            assert(seg.has_url(seg.meta_of(d)));
        }
    }
}

} // verus!
