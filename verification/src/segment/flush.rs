//! Flushing: the segment in memory becomes the files of a segment.
use vstd::prelude::*;
use crate::codec::ascending;
use crate::le::{put_bytes, put_le_u32s};
use crate::le::{le_u32s, le_value};
use crate::le::{law_le_u32s_at, lemma_le_u32s_uniform};
use crate::segment::docmeta::put_metas;
use crate::segment::docmeta::metas_bytes;
use crate::segment::files::{max_tf, survey, Corpus, SegmentFiles, SegmentMeta, TermWriter};
use crate::segment::files::{
    corpus_of, entry_count, greatest_tf, ids_of, lemma_entry_count_push, postings_file,
    term_rows, total_len, Index,
};
use crate::segment::mem::{lemma_number_taken, MemSegment};
use crate::segment::mem::list_ok;
use crate::terms::{bytes_lt, fst_content, fst_fits, fst_framed};

verus! {

/// The number at position `i` of a table of 32-bit numbers.
pub open spec fn u32_at(table: Seq<u8>, i: int) -> u32 {
    le_value(table.subrange(4 * i, 4 * i + 4)) as u32
}

impl MemSegment {
    /// The terms in ascending order, with their postings.
    pub open spec fn index(self) -> Index {
        self.term_dict.rows().map_values(
            |row: (Seq<u8>, u64)| (row.0, self.postings_of(row.0)),
        )
    }

    /// The number of documents that have each term, in the order of the term numbers.
    pub open spec fn doc_freqs(self) -> Seq<u32> {
        Seq::new(
            self.next_term_id as nat,
            |id: int| self.postings@[id as u32]@.len() as u32,
        )
    }

    /// The files hold what the segment holds. `max_score` and `mean` are what computed the scores
    /// and the mean document length.
    pub open spec fn flushed<S, M>(
        self,
        seg_id: u64,
        files: SegmentFiles,
        max_score: S,
        mean: M,
    ) -> bool where S: Fn(Corpus, u64, u8) -> u32, M: Fn(u64, u64) -> u64 {
        &&& files.postings@ == postings_file(self.index())
        &&& fst_content(files.terms@) == Some(term_rows(self.index()))
        &&& fst_framed(files.terms@) && fst_fits(files.terms@)
        &&& files.terminfo matches Some(terminfo) && terminfo@ == le_u32s(self.doc_freqs())
        &&& files.maxscores@.len() == 4 * self.next_term_id
        &&& forall|t: Seq<u8>| #[trigger]
            self.term_dict@.contains_key(t) ==> self.scored(
                t,
                u32_at(files.maxscores@, self.term_dict@[t] as int),
                max_score,
            )
        &&& files.doclens@ == le_u32s(self.doc_lengths@)
        &&& files.docmeta@ == metas_bytes(self.doc_metas@)
        &&& files.docurls@ == self.doc_urls@
        &&& files.meta.seg_id == seg_id
        &&& files.meta.num_docs == self.doc_lengths@.len()
        &&& files.meta.num_terms == self.next_term_id
        &&& files.meta.total_postings == entry_count(self.index())
        &&& files.meta.merge_gen == 0
        &&& call_ensures(
            mean,
            (total_len(self.doc_lengths@) as u64, self.doc_lengths@.len() as u64),
            files.meta.avg_doc_len,
        )
    }

    /// `bits` is what `max_score` gives for a term, from the documents of the segment, the number
    /// of those that have the term, and the greatest frequency of the term.
    pub open spec fn scored<S>(self, term: Seq<u8>, bits: u32, max_score: S) -> bool where
        S: Fn(Corpus, u64, u8) -> u32,
     {
        call_ensures(
            max_score,
            (
                corpus_of(self.doc_lengths@),
                self.postings_of(term).len() as u64,
                greatest_tf(self.postings_of(term)),
            ),
            bits,
        )
    }

    /// Flushes the segment: makes the files of a segment with the number `seg_id`.
    ///
    /// `max_score` computes the highest score that a term can give, from the documents, the
    /// number of those that have the term and its greatest frequency in one of them. `mean`
    /// computes the mean document length from the sum of the lengths and their number.
    pub fn flush<S, M>(&self, seg_id: u64, max_score: S, mean: M) -> (files: SegmentFiles) where
        S: Fn(Corpus, u64, u8) -> u32,
        M: Fn(u64, u64) -> u64,

        requires
            self.wf(),
            forall|corpus: Corpus, doc_freq: u64, top: u8|
                call_requires(max_score, (corpus, doc_freq, top)),
            forall|total: u64, num_docs: u64| call_requires(mean, (total, num_docs)),
        ensures
            self.flushed(seg_id, files, max_score, mean),
    {
        let corpus = survey(self.doc_lengths.as_slice());
        let ghost index = self.index();
        let mut writer = TermWriter::new();
        let mut freqs: Vec<u32> = Vec::new();
        freqs.resize(self.next_term_id as usize, 0);
        let mut total_postings: u64 = 0;
        let mut scores: Vec<u32> = Vec::new();
        scores.resize(self.next_term_id as usize, 0);
        let mut i: usize = 0;
        proof {
            assert(index.take(0) =~= Seq::empty());
            self.term_dict.lemma_size();
        }
        while i < self.term_dict.entries.len()
            invariant
                self.wf(),
                index == self.index(),
                i <= self.term_dict.entries@.len(),
                self.term_dict.entries@.len() == self.next_term_id,
                corpus == corpus_of(self.doc_lengths@),
                forall|corpus: Corpus, doc_freq: u64, top: u8|
                    call_requires(max_score, (corpus, doc_freq, top)),
                writer.wf(),
                writer.index() == index.take(i as int),
                freqs@.len() == self.next_term_id,
                forall|j: int|
                    0 <= j < i ==> freqs@[(#[trigger] self.term_dict.entries@[j]).1 as int]
                        == self.doc_freqs()[self.term_dict.entries@[j].1 as int],
                total_postings == entry_count(index.take(i as int)),
                total_postings <= i * u32::MAX,
                scores@.len() == self.next_term_id,
                forall|j: int|
                    0 <= j < i ==> self.scored(
                        (#[trigger] self.term_dict.entries@[j]).0@,
                        scores@[self.term_dict.entries@[j].1 as int],
                        max_score,
                    ),
            decreases self.term_dict.entries.len() - i,
        {
            let term = self.term_dict.entries[i].0.as_slice();
            let id: u32 = self.term_dict.entries[i].1;
            proof {
                self.term_dict.lemma_row(i as int);
                assert(self.term_dict.rows()[i as int].0 == term@);
                assert(self.postings@.contains_key(id));
                assert(index.take(i + 1).drop_last() =~= index.take(i as int));
            }
            let ghost scores0 = scores@;
            let ghost done = index.take(i as int);
            match self.postings.get(&id) {
                Some(list) => {
                    proof {
                        assert(list@ == self.postings_of(term@));
                        lemma_list_len(list@, self.next_doc_id as int);
                        assert(index[i as int] == (term@, list@));
                        assert(index.take(i + 1) =~= done.push((term@, list@)));
                        if i > 0 {
                            assert(done.last().0 == self.term_dict.rows()[i - 1].0);
                            assert(bytes_lt(
                                self.term_dict.rows()[i - 1].0,
                                self.term_dict.rows()[i as int].0,
                            ));
                        }
                        lemma_list_ascending(list@, self.next_doc_id as int);
                        lemma_entry_count_push(done, term@, list@);
                        assert(i * u32::MAX + u32::MAX == (i + 1) * u32::MAX) by (nonlinear_arith);
                        assert((i + 1) * u32::MAX <= u32::MAX * u32::MAX) by (nonlinear_arith)
                            requires
                                i + 1 <= u32::MAX,
                        ;
                    }
                    writer.push(term, list.as_slice());
                    let doc_freq: u32 = list.len() as u32;
                    freqs.set(id as usize, doc_freq);
                    total_postings = total_postings + list.len() as u64;
                    let top: u8 = max_tf(list.as_slice());
                    let bits: u32 = max_score(corpus, list.len() as u64, top);
                    scores.set(id as usize, bits);
                    proof {
                        assert(self.scored(term@, bits, max_score));
                        assert forall|j: int| 0 <= j < i + 1 implies self.scored(
                            (#[trigger] self.term_dict.entries@[j]).0@,
                            scores@[self.term_dict.entries@[j].1 as int],
                            max_score,
                        ) && freqs@[self.term_dict.entries@[j].1 as int]
                            == self.doc_freqs()[self.term_dict.entries@[j].1 as int] by {
                            if j < i {
                                self.term_dict.lemma_row(j);
                                assert(bytes_lt(
                                    self.term_dict.rows()[j].0,
                                    self.term_dict.rows()[i as int].0,
                                ));
                                crate::terms::lemma_lt_irreflexive(term@);
                                assert(self.term_dict.entries@[j].1 != id);
                            }
                        }
                    }
                },
                None => {
                    assert(false);
                },
            }
            i += 1;
        }
        assert(index.take(i as int) =~= index);
        let (postings, terms) = writer.finish();
        let mut terminfo: Vec<u8> = Vec::new();
        put_le_u32s(freqs.as_slice(), &mut terminfo);
        let mut maxscores: Vec<u8> = Vec::new();
        put_le_u32s(scores.as_slice(), &mut maxscores);
        let mut doclens: Vec<u8> = Vec::new();
        put_le_u32s(self.doc_lengths.as_slice(), &mut doclens);
        let mut docmeta: Vec<u8> = Vec::new();
        put_metas(self.doc_metas.as_slice(), &mut docmeta);
        let mut docurls: Vec<u8> = Vec::new();
        put_bytes(self.doc_urls.as_slice(), &mut docurls);
        let avg_doc_len: u64 = mean(corpus.total_len, corpus.num_docs);
        let files = SegmentFiles {
            meta: SegmentMeta {
                seg_id,
                num_docs: corpus.num_docs,
                num_terms: self.next_term_id as u64,
                avg_doc_len,
                total_postings,
                merge_gen: 0,
            },
            postings,
            terms,
            terminfo: Some(terminfo),
            maxscores,
            doclens,
            docmeta,
            docurls,
        };
        proof {
            assert forall|id: int| 0 <= id < freqs@.len() implies #[trigger] freqs@[id]
                == self.doc_freqs()[id] by {
                let t = lemma_number_taken(
                    self.term_dict@,
                    self.next_term_id as int,
                    id as u32,
                );
                let j = self.term_dict.lemma_has_row(t);
                assert(self.term_dict.entries@[j].1 == id);
            }
            assert(freqs@ =~= self.doc_freqs());
            assert(files.terminfo->0@ =~= le_u32s(self.doc_freqs()));
            assert(files.maxscores@ =~= le_u32s(scores@));
            assert(files.doclens@ =~= le_u32s(self.doc_lengths@));
            assert(files.docmeta@ =~= metas_bytes(self.doc_metas@));
            assert(files.docurls@ =~= self.doc_urls@);
            lemma_le_u32s_uniform(scores@);
            assert forall|t: Seq<u8>| #[trigger] self.term_dict@.contains_key(t) implies self.scored(
                t,
                u32_at(files.maxscores@, self.term_dict@[t] as int),
                max_score,
            ) by {
                let j = self.term_dict.lemma_has_row(t);
                law_le_u32s_at(scores@, self.term_dict@[t] as int);
            }
        }
        files
    }
}

/// Strictly ascending documents below `docs` are at most `docs`.
pub proof fn lemma_list_len(list: Seq<(u32, u8)>, docs: int)
    requires
        list_ok(list, docs),
    ensures
        list.len() <= docs,
{
    lemma_list_spread(list, docs, list.len() - 1);
}

proof fn lemma_list_spread(list: Seq<(u32, u8)>, docs: int, i: int)
    requires
        list_ok(list, docs),
        0 <= i < list.len(),
    ensures
        i <= list[i].0,
    decreases i,
{
    if i > 0 {
        lemma_list_spread(list, docs, i - 1);
        assert(list[i - 1].0 < list[i].0);
    }
}

pub proof fn lemma_list_ascending(list: Seq<(u32, u8)>, docs: int)
    requires
        list_ok(list, docs),
    ensures
        ascending(ids_of(list)),
{
    let ids = ids_of(list);
    assert forall|i: int, j: int| 0 <= i <= j < ids.len() implies ids[i] <= ids[j] by {
        if i < j {
            assert(list[i].0 < list[j].0);
        }
    }
}

} // verus!
