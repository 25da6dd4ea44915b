//! What a search returns.
//!
//! The documents that have a term of the query are looked at one after the other, in ascending
//! order. The best `k` so far are kept. The search stops early when the terms that are left cannot
//! lift a document above the worst of these.
use vstd::prelude::*;
use crate::bm25::score::{above, at_most, is_number, rising_key, Arithmetic, ScoredDoc, ZERO};
use crate::order::sorted_by;
use crate::segment::disk::DiskSegment;
use crate::segment::files::{greatest_tf, SegmentMeta};
use crate::terms::value_of;

verus! {

/// A term of the query that the segment has.
pub struct Term {
    /// Its postings.
    pub list: Seq<(u32, u8)>,
    /// Its weight.
    pub weight: u32,
    /// The highest score that it can give.
    pub bound: u32,
}

/// A term of a segment, with these postings.
pub open spec fn term_of(math: Arithmetic, meta: SegmentMeta, list: Seq<(u32, u8)>) -> Term {
    let weight = (math.weigh)(meta.num_docs, list.len() as u64);
    Term { list, weight, bound: (math.bound)(weight, greatest_tf(list), meta.avg_doc_len) }
}

/// The words of the query that the segment has, in the order of the query.
pub open spec fn found(math: Arithmetic, seg: DiskSegment<'_>, words: Seq<Seq<u8>>) -> Seq<Term>
    decreases words.len(),
{
    if words.len() == 0 {
        Seq::empty()
    } else {
        let before = found(math, seg, words.drop_last());
        if value_of(seg.rows(), words.last()) is Some {
            before.push(term_of(math, seg.meta, seg.postings_of(words.last())))
        } else {
            before
        }
    }
}

/// Keys to sort terms by their bounds.
pub open spec fn bound_keys(terms: Seq<Term>) -> Seq<u64> {
    terms.map_values(|t: Term| rising_key(t.bound))
}

/// The terms of the query, those with the lowest bounds first.
pub open spec fn query_terms_of(
    math: Arithmetic,
    seg: DiskSegment<'_>,
    words: Seq<Seq<u8>>,
) -> Seq<Term> {
    sorted_by(found(math, seg, words), bound_keys(found(math, seg, words)))
}

/// The list has the document.
pub open spec fn in_list(list: Seq<(u32, u8)>, doc: u32) -> bool {
    exists|j: int| 0 <= j < list.len() && (#[trigger] list[j]).0 == doc
}

/// How often the term occurs in the document.
pub open spec fn tf_in(list: Seq<(u32, u8)>, doc: u32) -> u8 {
    list[choose|j: int| 0 <= j < list.len() && (#[trigger] list[j]).0 == doc].1
}

/// The list has a document from `from` on.
pub open spec fn reaches(list: Seq<(u32, u8)>, from: int) -> bool {
    exists|j: int| 0 <= j < list.len() && (#[trigger] list[j]).0 >= from
}

/// A term of the query has the document.
pub open spec fn matches_query(terms: Seq<Term>, doc: u32) -> bool {
    exists|i: int| 0 <= i < terms.len() && in_list((#[trigger] terms[i]).list, doc)
}

/// The score of a document of length `len` in a segment with mean length `avg`: the sum of what
/// its terms add, in the order of the terms.
pub open spec fn score(math: Arithmetic, terms: Seq<Term>, doc: u32, len: u32, avg: u64) -> u32
    decreases terms.len(),
{
    if terms.len() == 0 {
        ZERO
    } else {
        let before = score(math, terms.drop_last(), doc, len, avg);
        let t = terms.last();
        if in_list(t.list, doc) {
            (math.plus)(before, (math.part)(t.weight, tf_in(t.list, doc), len, avg))
        } else {
            before
        }
    }
}

/// The sum of the bounds of the terms that have a document from `from` on.
pub open spec fn upper(math: Arithmetic, terms: Seq<Term>, from: int) -> u32
    decreases terms.len(),
{
    if terms.len() == 0 {
        ZERO
    } else {
        let before = upper(math, terms.drop_last(), from);
        if reaches(terms.last().list, from) {
            (math.plus)(before, terms.last().bound)
        } else {
            before
        }
    }
}

/// `doc` is the first document from `from` on that a term of the query has.
pub open spec fn is_next(terms: Seq<Term>, from: int, doc: u32) -> bool {
    &&& matches_query(terms, doc)
    &&& doc >= from
    &&& forall|e: u32| #[trigger] matches_query(terms, e) && e >= from ==> doc <= e
}

/// The first document from `from` on that a term of the query has.
pub open spec fn next_doc(terms: Seq<Term>, from: int) -> Option<u32> {
    if exists|doc: u32| is_next(terms, from, doc) {
        Some(choose|doc: u32| is_next(terms, from, doc))
    } else {
        None
    }
}

/// The best documents so far, in ascending order of their numbers, and the score that another must
/// exceed once there are enough of them.
pub struct Best {
    pub top: Seq<ScoredDoc>,
    pub threshold: u32,
}

/// `a` is given up before `b`: its bit pattern is the smaller one, or it is the same and so is its
/// number.
pub open spec fn worse(a: ScoredDoc, b: ScoredDoc) -> bool {
    a.score < b.score || (a.score == b.score && a.doc_id < b.doc_id)
}

/// Where the document stands that is given up first.
pub open spec fn worst(top: Seq<ScoredDoc>) -> int
    decreases top.len(),
{
    if top.len() <= 1 {
        0
    } else {
        let w = worst(top.drop_last());
        if worse(top.last(), top[w]) {
            top.len() - 1
        } else {
            w
        }
    }
}

/// The best `k` documents after another one was met.
pub open spec fn offer(best: Best, k: nat, doc: ScoredDoc) -> Best {
    if above(doc.score, best.threshold) || best.top.len() < k {
        let grown = best.top.push(doc);
        let kept = if grown.len() > k {
            grown.remove(worst(grown))
        } else {
            grown
        };
        Best {
            top: kept,
            threshold: if kept.len() == k {
                kept[worst(kept)].score
            } else {
                best.threshold
            },
        }
    } else {
        best
    }
}

/// A document with its score.
pub open spec fn scored(
    math: Arithmetic,
    seg: DiskSegment<'_>,
    terms: Seq<Term>,
    doc: u32,
) -> ScoredDoc {
    ScoredDoc {
        doc_id: doc,
        score: score(math, terms, doc, seg.len_of(doc as int), seg.meta.avg_doc_len),
    }
}

/// The best documents when all documents from `from` on have been looked at, or the terms that
/// are left cannot lift another one above the threshold.
pub open spec fn run(
    math: Arithmetic,
    seg: DiskSegment<'_>,
    terms: Seq<Term>,
    k: nat,
    from: int,
    best: Best,
) -> Best
    decreases 0x1_0000_0000 - from,
{
    match next_doc(terms, from) {
        None => best,
        Some(doc) => {
            if doc < from || (at_most(upper(math, terms, doc as int), best.threshold)
                && best.top.len() >= k) {
                best
            } else {
                run(math, seg, terms, k, doc + 1, offer(best, k, scored(math, seg, terms, doc)))
            }
        },
    }
}

/// Before any document was looked at.
pub open spec fn no_best() -> Best {
    Best { top: Seq::empty(), threshold: ZERO }
}

/// The documents that a search for `k` results keeps, in ascending order of their numbers.
pub open spec fn kept(math: Arithmetic, seg: DiskSegment<'_>, words: Seq<Seq<u8>>, k: nat) -> Seq<
    ScoredDoc,
> {
    if k == 0 {
        Seq::empty()
    } else {
        run(math, seg, query_terms_of(math, seg, words), k, 0, no_best()).top
    }
}

/// `part` is what a search of a segment may return: the documents that it keeps, best first.
pub open spec fn segment_results(
    math: Arithmetic,
    seg: DiskSegment<'_>,
    words: Seq<Seq<u8>>,
    k: nat,
    part: Seq<ScoredDoc>,
) -> bool {
    &&& part.to_multiset() == kept(math, seg, words, k).to_multiset()
    &&& forall|i: int, j: int|
        0 <= i < j < part.len() ==> !above((#[trigger] part[j]).score, (#[trigger] part[i]).score)
}

/// What is sorted are numbers: the bounds where there are several terms, and the scores where
/// several documents are kept.
pub open spec fn numeric(math: Arithmetic, seg: DiskSegment<'_>, words: Seq<Seq<u8>>, k: nat) -> bool {
    let terms = found(math, seg, words);
    let top = kept(math, seg, words, k);
    k > 0 ==> {
        &&& terms.len() >= 2 ==> forall|i: int|
            0 <= i < terms.len() ==> is_number((#[trigger] terms[i]).bound)
        &&& top.len() >= 2 ==> forall|i: int|
            0 <= i < top.len() ==> is_number((#[trigger] top[i]).score)
    }
}

/// The segment can be searched for these words: the list of each is sound, and the documents have
/// their lengths.
pub open spec fn can_search(seg: DiskSegment<'_>, words: Seq<Seq<u8>>) -> bool {
    &&& seg.has_terms()
    &&& 4 * seg.meta.num_docs <= seg.doclens@.len()
    &&& forall|i: int|
        0 <= i < words.len() ==> (value_of(seg.rows(), #[trigger] words[i]) matches Some(offset)
            ==> seg.list_sound(offset))
}

} // verus!
