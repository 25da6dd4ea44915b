//! Reading several segments as one index. The documents of each segment follow those of the
//! segment before it.
use vstd::prelude::*;
use crate::bm25::laws::law_results_have_a_word;
use crate::bm25::scan::{can_search, kept, numeric, segment_results};
use crate::bm25::score::{rank_of, Bm25Scorer, ScoredDoc};
use crate::bm25::score::{falling_key, is_number, Arithmetic};
use crate::query::{contents, query_words, split_words};
use crate::order::sort_order;
use crate::order::{pick, sorted_by, sorts};
use crate::segment::disk::DiskSegment;
use crate::segment::docmeta::DocMeta;
use crate::segment::mem::token_bytes;

verus! {

/// Number of documents in the segments.
pub open spec fn doc_count(segs: Seq<DiskSegment<'_>>) -> nat
    decreases segs.len(),
{
    if segs.len() == 0 {
        0
    } else {
        doc_count(segs.drop_last()) + segs.last().meta.num_docs as nat
    }
}

/// Number of documents of a segment, as far as 32 bits tell it.
pub open spec fn low_count(seg: DiskSegment<'_>) -> int {
    seg.meta.num_docs as int % 0x1_0000_0000
}

/// The number of the first document of segment `i`.
pub open spec fn first_doc(segs: Seq<DiskSegment<'_>>, i: int) -> int
    decreases i,
{
    if i <= 0 {
        0
    } else {
        first_doc(segs, i - 1) + low_count(segs[i - 1])
    }
}

/// Document `doc` of the index is one of segment `i`.
pub open spec fn lies_in(segs: Seq<DiskSegment<'_>>, i: int, doc: int) -> bool {
    &&& 0 <= i < segs.len()
    &&& first_doc(segs, i) <= doc < first_doc(segs, i) + low_count(segs[i])
}

/// The documents that a segment adds to the results of a search, under their numbers in the index.
pub open spec fn numbered_from(results: Seq<ScoredDoc>, base: int) -> Seq<ScoredDoc> {
    results.map_values(
        |r: ScoredDoc| ScoredDoc { doc_id: (r.doc_id + base) as u32, score: r.score },
    )
}

/// The results of the segments, one after the other, under their numbers in the index.
pub open spec fn all_results(segs: Seq<DiskSegment<'_>>, parts: Seq<Seq<ScoredDoc>>) -> Seq<
    ScoredDoc,
>
    decreases parts.len(),
{
    if parts.len() == 0 {
        Seq::empty()
    } else {
        all_results(segs, parts.drop_last()) + numbered_from(
            parts.last(),
            first_doc(segs, parts.len() - 1),
        )
    }
}

/// Keys to sort results by, best first.
pub open spec fn result_keys(results: Seq<ScoredDoc>) -> Seq<u64> {
    results.map_values(|r: ScoredDoc| falling_key(r.score))
}

/// The first `k` results by score, best first; what stood first among equals stays first.
pub open spec fn best_results(results: Seq<ScoredDoc>, k: nat) -> Seq<ScoredDoc> {
    let sorted = sorted_by(results, result_keys(results));
    if k < sorted.len() {
        sorted.take(k as int)
    } else {
        sorted
    }
}

/// The scores that are kept in all segments are numbers; but a document that is the only one kept
/// may have another.
pub open spec fn numeric_results(
    math: Arithmetic,
    segs: Seq<DiskSegment<'_>>,
    words: Seq<Seq<u8>>,
    k: nat,
) -> bool {
    forall|i: int, j: int, p: int, q: int|
        #![trigger kept(math, segs[i], words, k)[p], kept(math, segs[j], words, k)[q]]
        0 <= i < segs.len() && 0 <= j < segs.len() && 0 <= p < kept(math, segs[i], words, k).len()
            && 0 <= q < kept(math, segs[j], words, k).len() && !(i == j && p == q) ==> is_number(
            kept(math, segs[i], words, k)[p].score,
        )
}

/// `parts` are what searches of the segments may return.
pub open spec fn searched(
    math: Arithmetic,
    segs: Seq<DiskSegment<'_>>,
    words: Seq<Seq<u8>>,
    k: nat,
    parts: Seq<Seq<ScoredDoc>>,
) -> bool {
    &&& parts.len() == segs.len()
    &&& forall|i: int|
        0 <= i < segs.len() ==> segment_results(math, segs[i], words, k, #[trigger] parts[i])
}

pub proof fn lemma_count_monotone(segs: Seq<DiskSegment<'_>>, i: int)
    requires
        0 <= i <= segs.len(),
    ensures
        doc_count(segs.take(i)) <= doc_count(segs),
    decreases segs.len() - i,
{
    if i == segs.len() {
        assert(segs.take(i) =~= segs);
    } else {
        lemma_count_monotone(segs, i + 1);
        assert(segs.take(i + 1).drop_last() =~= segs.take(i));
    }
}

/// What a search of a segment returns are documents of the segment.
proof fn lemma_results_in_segment(
    math: Arithmetic,
    seg: DiskSegment<'_>,
    words: Seq<Seq<u8>>,
    k: nat,
    part: Seq<ScoredDoc>,
)
    requires
        can_search(seg, words),
        words.len() <= usize::MAX,
        segment_results(math, seg, words, k, part),
    ensures
        forall|r: int| 0 <= r < part.len() ==> (#[trigger] part[r]).doc_id < seg.meta.num_docs,
{
    let top = kept(math, seg, words, k);
    assert forall|r: int| 0 <= r < part.len() implies (#[trigger] part[r]).doc_id
        < seg.meta.num_docs by {
        vstd::seq_lib::to_multiset_contains(part, part[r]);
        vstd::seq_lib::to_multiset_contains(top, part[r]);
        assert(part.contains(part[r]));
        assert(top.contains(part[r]));
        law_results_have_a_word(math, seg, words, k, part[r]);
    }
}

/// Puts the results of all segments together: the first `k` by score, best first.
pub fn combine(results: &Vec<ScoredDoc>, k: usize) -> (best: Vec<ScoredDoc>)
    ensures
        best@ == best_results(results@, k as nat),
{
    let mut keys: Vec<u64> = Vec::new();
    let mut i: usize = 0;
    while i < results.len()
        invariant
            i <= results@.len(),
            keys@ == result_keys(results@).take(i as int),
        decreases results.len() - i,
    {
        keys.push((0x8000_0000 - rank_of(results[i].score)) as u64);
        i += 1;
        assert(keys@ =~= result_keys(results@).take(i as int));
    }
    assert(keys@ =~= result_keys(results@));
    let order = sort_order(keys.as_slice());
    let mut best: Vec<ScoredDoc> = Vec::new();
    let mut j: usize = 0;
    while j < order.len() && j < k
        invariant
            j <= order@.len(),
            j <= k,
            sorts(keys@, order@),
            keys@.len() == results@.len(),
            best@ == pick(results@, order@.take(j as int)),
        decreases order.len() - j,
    {
        best.push(results[order[j]]);
        j += 1;
        assert(best@ =~= pick(results@, order@.take(j as int)));
    }
    assert(best@ =~= best_results(results@, k as nat));
    best
}

/// The segments of an index.
pub struct IndexReader<'a> {
    pub segments: Vec<DiskSegment<'a>>,
}

impl<'a> IndexReader<'a> {
    /// Number of documents in the index.
    pub fn num_docs(&self) -> (n: u64)
        requires
            doc_count(self.segments@) <= u64::MAX,
        ensures
            n == doc_count(self.segments@),
    {
        let mut n: u64 = 0;
        let mut i: usize = 0;
        assert(self.segments@.take(0) =~= Seq::empty());
        while i < self.segments.len()
            invariant
                i <= self.segments@.len(),
                doc_count(self.segments@) <= u64::MAX,
                n == doc_count(self.segments@.take(i as int)),
            decreases self.segments.len() - i,
        {
            proof {
                lemma_count_monotone(self.segments@, i + 1);
                assert(self.segments@.take(i + 1).drop_last() =~= self.segments@.take(i as int));
            }
            n = n + self.segments[i].meta.num_docs;
            i += 1;
        }
        assert(self.segments@.take(i as int) =~= self.segments@);
        n
    }

    /// Number of segments.
    pub fn num_segments(&self) -> (n: usize)
        ensures
            n == self.segments@.len(),
    {
        self.segments.len()
    }

    /// Finds a document: the position of its segment, and its number in the segment. `None` where
    /// there is no such document.
    pub fn locate(&self, doc_id: u32) -> (r: Option<(usize, u32)>)
        ensures
            r matches Some((i, d)) ==> lies_in(self.segments@, i as int, doc_id as int) && d
                == doc_id - first_doc(self.segments@, i as int),
            r is None ==> forall|i: int| !lies_in(self.segments@, i, doc_id as int),
    {
        let ghost segs = self.segments@;
        let mut base: u64 = 0;
        let mut i: usize = 0;
        while i < self.segments.len()
            invariant
                i <= segs.len(),
                segs == self.segments@,
                base == first_doc(segs, i as int),
                base <= doc_id,
                forall|j: int| 0 <= j < i ==> !#[trigger] lies_in(segs, j, doc_id as int),
            decreases self.segments.len() - i,
        {
            let n: u64 = self.segments[i].meta.num_docs % 0x1_0000_0000;
            if (doc_id as u64) < base + n {
                assert(lies_in(segs, i as int, doc_id as int));
                return Some((i, (doc_id as u64 - base) as u32));
            }
            assert(!lies_in(segs, i as int, doc_id as int));
            base = base + n;
            i += 1;
        }
        assert forall|j: int| !lies_in(segs, j, doc_id as int) by {}
        None
    }

    /// The record and the URL of a document. `None` where there is no such document.
    pub fn get_doc_meta(&self, doc_id: u32) -> (r: Option<(DocMeta, &'a [u8])>)
        requires
            forall|i: int| #[trigger]
                lies_in(self.segments@, i, doc_id as int) ==> {
                    let d = doc_id - first_doc(self.segments@, i);
                    self.segments@[i].has_doc_meta(d) && self.segments@[i].has_url(
                        self.segments@[i].meta_of(d),
                    )
                },
        ensures
            r is None <==> forall|i: int| !lies_in(self.segments@, i, doc_id as int),
            r matches Some((meta, url)) ==> exists|i: int|
                {
                    &&& #[trigger] lies_in(self.segments@, i, doc_id as int)
                    &&& meta == self.segments@[i].meta_of(doc_id - first_doc(self.segments@, i))
                    &&& url@ == self.segments@[i].url_of(meta)
                },
    {
        match self.locate(doc_id) {
            Some((i, d)) => {
                assert(lies_in(self.segments@, i as int, doc_id as int));
                let meta = self.segments[i].doc_meta(d);
                let url = self.segments[i].doc_url(&meta);
                Some((meta, url))
            },
            None => None,
        }
    }

    /// Searches all segments for the words of a query. Returns the best `k` documents of all, best
    /// first, under their numbers in the index.
    pub fn search<W, B, P, A>(
        &self,
        scorer: &Bm25Scorer<W, B, P, A>,
        q: &str,
        k: usize,
    ) -> (results: Vec<ScoredDoc>) where
        W: Fn(u64, u64) -> u32,
        B: Fn(u32, u8, u64) -> u32,
        P: Fn(u32, u8, u32, u64) -> u32,
        A: Fn(u32, u32) -> u32,

        requires
            scorer.wf(),
            forall|i: int|
                0 <= i < self.segments@.len() ==> {
                    let seg = #[trigger] self.segments@[i];
                    &&& can_search(seg, query_words(q@))
                    &&& numeric(scorer.arithmetic(), seg, query_words(q@), k as nat)
                },
            numeric_results(scorer.arithmetic(), self.segments@, query_words(q@), k as nat),
            doc_count(self.segments@) <= u32::MAX,
        ensures
            exists|parts: Seq<Seq<ScoredDoc>>|
                {
                    &&& #[trigger] searched(
                        scorer.arithmetic(),
                        self.segments@,
                        query_words(q@),
                        k as nat,
                        parts,
                    )
                    &&& results@ == best_results(all_results(self.segments@, parts), k as nat)
                },
    {
        let words = split_words(q);
        proof {
            assert(token_bytes(words@) =~= query_words(q@)) by {
                assert forall|i: int| 0 <= i < words@.len() implies token_bytes(words@)[i]
                    == query_words(q@)[i] by {
                    assert(contents(words@)[i] == words@[i]@);
                }
                assert(contents(words@).len() == words@.len());
            }
        }
        self.search_words(scorer, words.as_slice(), k)
    }

    /// Searches all segments for words. Returns the best `k` documents of all, best first, under
    /// their numbers in the index.
    pub fn search_words<W, B, P, A>(
        &self,
        scorer: &Bm25Scorer<W, B, P, A>,
        query_terms: &[String],
        k: usize,
    ) -> (results: Vec<ScoredDoc>) where
        W: Fn(u64, u64) -> u32,
        B: Fn(u32, u8, u64) -> u32,
        P: Fn(u32, u8, u32, u64) -> u32,
        A: Fn(u32, u32) -> u32,

        requires
            scorer.wf(),
            forall|i: int|
                0 <= i < self.segments@.len() ==> {
                    let seg = #[trigger] self.segments@[i];
                    &&& can_search(seg, token_bytes(query_terms@))
                    &&& numeric(scorer.arithmetic(), seg, token_bytes(query_terms@), k as nat)
                },
            numeric_results(
                scorer.arithmetic(),
                self.segments@,
                token_bytes(query_terms@),
                k as nat,
            ),
            doc_count(self.segments@) <= u32::MAX,
        ensures
            exists|parts: Seq<Seq<ScoredDoc>>|
                {
                    &&& #[trigger] searched(
                        scorer.arithmetic(),
                        self.segments@,
                        token_bytes(query_terms@),
                        k as nat,
                        parts,
                    )
                    &&& results@ == best_results(all_results(self.segments@, parts), k as nat)
                },
    {
        let ghost segs = self.segments@;
        let ghost words = token_bytes(query_terms@);
        let ghost math = scorer.arithmetic();
        let mut all: Vec<ScoredDoc> = Vec::new();
        let ghost mut parts: Seq<Seq<ScoredDoc>> = Seq::empty();
        let mut base: u32 = 0;
        let mut i: usize = 0;
        assert(segs.take(0) =~= Seq::empty());
        while i < self.segments.len()
            invariant
                i <= segs.len(),
                segs == self.segments@,
                words == token_bytes(query_terms@),
                math == scorer.arithmetic(),
                scorer.wf(),
                forall|i: int|
                    0 <= i < segs.len() ==> {
                        let seg = #[trigger] segs[i];
                        &&& can_search(seg, words)
                        &&& numeric(math, seg, words, k as nat)
                    },
                doc_count(segs) <= u32::MAX,
                base == doc_count(segs.take(i as int)),
                base == first_doc(segs, i as int),
                parts.len() == i,
                forall|j: int|
                    0 <= j < i ==> segment_results(math, segs[j], words, k as nat, #[trigger] parts[j]),
                all@ == all_results(segs, parts),
            decreases self.segments.len() - i,
        {
            let seg: &DiskSegment<'a> = &self.segments[i];
            let found = scorer.search(seg, query_terms, k);
            let ghost earlier = parts;
            proof {
                lemma_count_monotone(segs, i + 1);
                assert(segs.take(i + 1).drop_last() =~= segs.take(i as int));
                assert(words.len() == query_terms.len());
                lemma_results_in_segment(math, *seg, words, k as nat, found@);
                parts = parts.push(found@);
                assert(parts.drop_last() =~= earlier);
            }
            let ghost before = all@;
            let mut j: usize = 0;
            while j < found.len()
                invariant
                    j <= found@.len(),
                    base + seg.meta.num_docs <= u32::MAX,
                    forall|r: int|
                        0 <= r < found@.len() ==> (#[trigger] found@[r]).doc_id < seg.meta.num_docs,
                    all@ == before + numbered_from(found@, base as int).take(j as int),
                decreases found.len() - j,
            {
                all.push(ScoredDoc { doc_id: found[j].doc_id + base, score: found[j].score });
                j += 1;
                assert(all@ =~= before + numbered_from(found@, base as int).take(j as int));
            }
            proof {
                assert(numbered_from(found@, base as int).take(j as int) =~= numbered_from(
                    found@,
                    base as int,
                ));
                assert(low_count(*seg) == seg.meta.num_docs);
                assert forall|p: int| 0 <= p < i + 1 implies segment_results(
                    math,
                    segs[p],
                    words,
                    k as nat,
                    #[trigger] parts[p],
                ) by {}
            }
            base = base + seg.meta.num_docs as u32;
            i += 1;
        }
        assert(searched(math, segs, words, k as nat, parts));
        combine(&all, k)
    }
}

} // verus!
