//! What holds of every search.
use vstd::prelude::*;
use crate::bm25::scan::segment_results;
use crate::bm25::scan::{
    bound_keys, can_search, found, in_list, is_next, kept, matches_query, next_doc, no_best,
    offer, query_terms_of, reaches, run, score, scored, tf_in, upper, worst, Best, Term,
};
use crate::bm25::score::{above, at_most, not_negative, Arithmetic, ScoredDoc, ZERO};
use crate::count::{
    count_all, count_below, lemma_at_least, lemma_at_most, lemma_count_gap, lemma_count_implies,
    lemma_count_monotone_in,
};
use crate::order::{law_some_order, lemma_sorts_onto, order_of};
use crate::segment::disk::DiskSegment;
use crate::terms::value_of;

verus! {

// ---------------------------------------------------------------------------------------------
// Stopping early
// ---------------------------------------------------------------------------------------------

/// The best documents when all documents from `from` on have been looked at.
pub open spec fn run_all(
    math: Arithmetic,
    seg: DiskSegment<'_>,
    terms: Seq<Term>,
    k: nat,
    from: int,
    best: Best,
) -> Best
    decreases 0x1_0000_0000 - from,
{
    match next_doc(terms, from) {
        None => best,
        Some(doc) => {
            if doc < from {
                best
            } else {
                run_all(math, seg, terms, k, doc + 1, offer(best, k, scored(math, seg, terms, doc)))
            }
        },
    }
}

/// No document from `from` on scores above the sum of the bounds of the terms that reach there.
pub open spec fn bounds_hold(math: Arithmetic, seg: DiskSegment<'_>, terms: Seq<Term>) -> bool {
    forall|from: int, doc: u32|
        #![trigger upper(math, terms, from), matches_query(terms, doc)]
        matches_query(terms, doc) && from <= doc ==> !above(
            scored(math, seg, terms, doc).score,
            upper(math, terms, from),
        )
}

proof fn lemma_next(terms: Seq<Term>, from: int)
    ensures
        next_doc(terms, from) matches Some(doc) ==> is_next(terms, from, doc),
{
}

/// Documents that do not exceed the threshold change nothing.
proof fn lemma_rest_changes_nothing(
    math: Arithmetic,
    seg: DiskSegment<'_>,
    terms: Seq<Term>,
    k: nat,
    from: int,
    best: Best,
)
    requires
        best.top.len() >= k,
        forall|doc: u32| #[trigger] matches_query(terms, doc) && from <= doc ==> !above(
            scored(math, seg, terms, doc).score,
            best.threshold,
        ),
    ensures
        run_all(math, seg, terms, k, from, best) == best,
    decreases 0x1_0000_0000 - from,
{
    lemma_next(terms, from);
    match next_doc(terms, from) {
        None => {},
        Some(doc) => {
            assert(matches_query(terms, doc));
            assert(offer(best, k, scored(math, seg, terms, doc)) == best);
            lemma_rest_changes_nothing(math, seg, terms, k, doc + 1, best);
        },
    }
}

/// Stopping early never changes which documents are kept, as long as the bounds hold.
pub proof fn law_stopping_early_is_safe(
    math: Arithmetic,
    seg: DiskSegment<'_>,
    terms: Seq<Term>,
    k: nat,
    from: int,
    best: Best,
)
    requires
        bounds_hold(math, seg, terms),
    ensures
        run(math, seg, terms, k, from, best) == run_all(math, seg, terms, k, from, best),
    decreases 0x1_0000_0000 - from,
{
    lemma_next(terms, from);
    match next_doc(terms, from) {
        None => {},
        Some(doc) => {
            let bound = upper(math, terms, doc as int);
            if at_most(bound, best.threshold) && best.top.len() >= k {
                assert forall|e: u32| #[trigger] matches_query(terms, e) && from <= e implies !above(
                    scored(math, seg, terms, e).score,
                    best.threshold,
                ) by {
                    assert(doc <= e);
                }
                lemma_rest_changes_nothing(math, seg, terms, k, from, best);
            } else {
                law_stopping_early_is_safe(
                    math,
                    seg,
                    terms,
                    k,
                    doc + 1,
                    offer(best, k, scored(math, seg, terms, doc)),
                );
            }
        },
    }
}

/// Sums of numbers that are not negative: they are not negative, they do not get smaller by adding,
/// and they grow with what is added.
pub open spec fn adds_up(math: Arithmetic) -> bool {
    forall|a: u32, b: u32, c: u32, d: u32|
        #![trigger (math.plus)(a, b), (math.plus)(c, d)]
        not_negative(a) && not_negative(b) && not_negative(c) && not_negative(d) && a <= c && b <= d
            ==> {
            &&& not_negative((math.plus)(a, b))
            &&& not_negative((math.plus)(c, d))
            &&& c <= (math.plus)(c, d)
            &&& (math.plus)(a, b) <= (math.plus)(c, d)
        }
}

/// What a term adds to a document is not negative.
pub open spec fn parts_not_negative(math: Arithmetic, seg: DiskSegment<'_>, terms: Seq<Term>) -> bool {
    forall|i: int, doc: u32|
        #![trigger in_list(terms[i].list, doc)]
        0 <= i < terms.len() && in_list(terms[i].list, doc) ==> not_negative(
            (math.part)(
                terms[i].weight,
                tf_in(terms[i].list, doc),
                seg.len_of(doc as int),
                seg.meta.avg_doc_len,
            ),
        )
}

/// What a term adds to a document is not negative, and at most the bound of the term.
pub open spec fn parts_bounded(math: Arithmetic, seg: DiskSegment<'_>, terms: Seq<Term>) -> bool {
    &&& parts_not_negative(math, seg, terms)
    &&& forall|i: int| 0 <= i < terms.len() ==> not_negative((#[trigger] terms[i]).bound)
    &&& forall|i: int, doc: u32|
        #![trigger in_list(terms[i].list, doc)]
        0 <= i < terms.len() && in_list(terms[i].list, doc) ==> (math.part)(
            terms[i].weight,
            tf_in(terms[i].list, doc),
            seg.len_of(doc as int),
            seg.meta.avg_doc_len,
        ) <= terms[i].bound
}

proof fn lemma_score_not_negative(
    math: Arithmetic,
    seg: DiskSegment<'_>,
    terms: Seq<Term>,
    n: int,
    doc: u32,
)
    requires
        adds_up(math),
        parts_not_negative(math, seg, terms),
        0 <= n <= terms.len(),
    ensures
        not_negative(score(math, terms.take(n), doc, seg.len_of(doc as int), seg.meta.avg_doc_len)),
    decreases n,
{
    if n > 0 {
        lemma_score_not_negative(math, seg, terms, n - 1, doc);
        assert(terms.take(n).drop_last() =~= terms.take(n - 1));
        assert(terms.take(n).last() == terms[n - 1]);
        if in_list(terms[n - 1].list, doc) {
            let before = score(math, terms.take(n - 1), doc, seg.len_of(doc as int), seg.meta.avg_doc_len);
            let part = (math.part)(
                terms[n - 1].weight,
                tf_in(terms[n - 1].list, doc),
                seg.len_of(doc as int),
                seg.meta.avg_doc_len,
            );
            assert(not_negative((math.plus)(before, part)));
        }
    }
}

/// Where no term adds less than zero, no document scores less.
pub proof fn law_scores_not_negative(
    math: Arithmetic,
    seg: DiskSegment<'_>,
    terms: Seq<Term>,
    doc: u32,
)
    requires
        adds_up(math),
        parts_not_negative(math, seg, terms),
    ensures
        not_negative(scored(math, seg, terms, doc).score),
{
    assert(terms.take(terms.len() as int) =~= terms);
    lemma_score_not_negative(math, seg, terms, terms.len() as int, doc);
}

proof fn lemma_score_bounded(
    math: Arithmetic,
    seg: DiskSegment<'_>,
    terms: Seq<Term>,
    n: int,
    from: int,
    doc: u32,
)
    requires
        adds_up(math),
        parts_bounded(math, seg, terms),
        0 <= n <= terms.len(),
        from <= doc,
    ensures
        not_negative(score(math, terms.take(n), doc, seg.len_of(doc as int), seg.meta.avg_doc_len)),
        not_negative(upper(math, terms.take(n), from)),
        score(math, terms.take(n), doc, seg.len_of(doc as int), seg.meta.avg_doc_len) <= upper(math, terms.take(n), from),
    decreases n,
{
    if n > 0 {
        lemma_score_bounded(math, seg, terms, n - 1, from, doc);
        assert(terms.take(n).drop_last() =~= terms.take(n - 1));
        assert(terms.take(n).last() == terms[n - 1]);
        let t = terms[n - 1];
        let low = score(math, terms.take(n - 1), doc, seg.len_of(doc as int), seg.meta.avg_doc_len);
        let high = upper(math, terms.take(n - 1), from);
        let part = (math.part)(
            t.weight,
            tf_in(t.list, doc),
            seg.len_of(doc as int),
            seg.meta.avg_doc_len,
        );
        if in_list(t.list, doc) {
            let j = choose|j: int| 0 <= j < t.list.len() && (#[trigger] t.list[j]).0 == doc;
            assert(t.list[j].0 >= from);
            assert(reaches(t.list, from));
            assert((math.plus)(low, part) <= (math.plus)(high, t.bound));
        } else if reaches(t.list, from) {
            assert(high <= (math.plus)(high, t.bound));
        }
    }
}

/// Where no term adds more than its bound, the bounds hold for whole documents.
pub proof fn law_bounds_add_up(math: Arithmetic, seg: DiskSegment<'_>, terms: Seq<Term>)
    requires
        adds_up(math),
        parts_bounded(math, seg, terms),
    ensures
        bounds_hold(math, seg, terms),
{
    assert forall|from: int, doc: u32|
        #![trigger upper(math, terms, from), matches_query(terms, doc)]
        matches_query(terms, doc) && from <= doc implies !above(
        scored(math, seg, terms, doc).score,
        upper(math, terms, from),
    ) by {
        assert(terms.take(terms.len() as int) =~= terms);
        lemma_score_bounded(math, seg, terms, terms.len() as int, from, doc);
    }
}

// ---------------------------------------------------------------------------------------------
// The best documents
// ---------------------------------------------------------------------------------------------

/// Up to document `from` the best `k` documents are known: they are documents that match, each
/// with its score and in ascending order, and no other one so far is better than any of them.
spec fn best_so_far(
    math: Arithmetic,
    seg: DiskSegment<'_>,
    terms: Seq<Term>,
    k: nat,
    from: int,
    best: Best,
) -> bool {
    &&& best.top.len() <= k
    &&& not_negative(best.threshold)
    &&& forall|i: int|
        0 <= i < best.top.len() ==> {
            &&& matches_query(terms, (#[trigger] best.top[i]).doc_id)
            &&& best.top[i].doc_id < from
            &&& best.top[i] == scored(math, seg, terms, best.top[i].doc_id)
            &&& best.top.len() == k ==> best.threshold <= best.top[i].score
        }
    &&& forall|i: int, j: int|
        0 <= i < j < best.top.len() ==> (#[trigger] best.top[i]).doc_id < (
        #[trigger] best.top[j]).doc_id
    &&& best.top.len() < k ==> best.threshold == ZERO
    &&& forall|doc: u32| #[trigger]
        matches_query(terms, doc) && doc < from && !best.top.contains(
            scored(math, seg, terms, doc),
        ) ==> best.top.len() == k && scored(math, seg, terms, doc).score <= best.threshold
}

proof fn lemma_worst(top: Seq<ScoredDoc>)
    requires
        top.len() > 0,
    ensures
        0 <= worst(top) < top.len(),
        forall|i: int| 0 <= i < top.len() ==> top[worst(top)].score <= (#[trigger] top[i]).score,
    decreases top.len(),
{
    if top.len() > 1 {
        let front = top.drop_last();
        lemma_worst(front);
        assert forall|i: int| 0 <= i < top.len() implies top[worst(top)].score <= (
        #[trigger] top[i]).score by {
            if i < front.len() {
                assert(front[i] == top[i]);
            }
        }
    }
}

proof fn lemma_best_step(
    math: Arithmetic,
    seg: DiskSegment<'_>,
    terms: Seq<Term>,
    k: nat,
    from: int,
    best: Best,
    doc: u32,
)
    requires
        k > 0,
        adds_up(math),
        parts_not_negative(math, seg, terms),
        best_so_far(math, seg, terms, k, from, best),
        is_next(terms, from, doc),
    ensures
        best_so_far(
            math,
            seg,
            terms,
            k,
            doc + 1,
            offer(best, k, scored(math, seg, terms, doc)),
        ),
{
    let new = scored(math, seg, terms, doc);
    let after = offer(best, k, new);
    assert(terms.take(terms.len() as int) =~= terms);
    lemma_score_not_negative(math, seg, terms, terms.len() as int, doc);
    assert forall|e: u32| #[trigger] matches_query(terms, e) && e < doc + 1 implies e < from || e
        == doc by {}
    if above(new.score, best.threshold) || best.top.len() < k {
        let grown = best.top.push(new);
        assert(grown[best.top.len() as int] == new);
        assert forall|i: int| 0 <= i < grown.len() implies {
            &&& matches_query(terms, (#[trigger] grown[i]).doc_id)
            &&& grown[i].doc_id < doc + 1
            &&& grown[i] == scored(math, seg, terms, grown[i].doc_id)
        } by {
            if i < best.top.len() {
                assert(grown[i] == best.top[i]);
            }
        }
        lemma_worst(grown);
        let w = worst(grown);
        let gone = grown[w];
        let left = after.top;
        if grown.len() > k {
            assert(left == grown.remove(w));
            assert forall|i: int| 0 <= i < left.len() implies #[trigger] left[i] == grown[if i < w {
                i
            } else {
                i + 1
            }] by {}
            assert forall|i: int| 0 <= i < grown.len() implies best.threshold <= (
            #[trigger] grown[i]).score by {
                if i < best.top.len() {
                    assert(grown[i] == best.top[i]);
                    assert(best.threshold <= best.top[i].score);
                }
            }
        }
        lemma_worst(left);
        assert forall|i: int| 0 <= i < left.len() implies {
            &&& matches_query(terms, (#[trigger] left[i]).doc_id)
            &&& left[i].doc_id < doc + 1
            &&& left[i] == scored(math, seg, terms, left[i].doc_id)
            &&& left.len() == k ==> after.threshold <= left[i].score
        } by {
            if grown.len() > k {
                let g = if i < w {
                    i
                } else {
                    i + 1
                };
                assert(left[i] == grown[g]);
            }
        }
        assert(not_negative(after.threshold)) by {
            if left.len() == k {
                let m = left[worst(left)];
                assert(m == scored(math, seg, terms, m.doc_id));
                lemma_score_not_negative(math, seg, terms, terms.len() as int, m.doc_id);
            }
        }
        assert forall|e: u32| #[trigger]
            matches_query(terms, e) && e < doc + 1 && !left.contains(
                scored(math, seg, terms, e),
            ) implies left.len() == k && scored(math, seg, terms, e).score <= after.threshold by {
            let s = scored(math, seg, terms, e);
            if grown.contains(s) {
                let g = choose|g: int| 0 <= g < grown.len() && grown[g] == s;
                if grown.len() > k {
                    if g < w {
                        assert(left[g] == s);
                    } else if g > w {
                        assert(left[g - 1] == s);
                    }
                    assert(g == w);
                    let m = worst(left);
                    let h = if m < w {
                        m
                    } else {
                        m + 1
                    };
                    assert(left[m] == grown[h]);
                    assert(gone.score <= grown[h].score);
                } else {
                    assert(left[g] == s);
                }
            } else {
                if e == doc {
                    assert(grown[best.top.len() as int] == s);
                }
                assert(e < from);
                assert(!best.top.contains(s)) by {
                    if best.top.contains(s) {
                        let b = choose|b: int| 0 <= b < best.top.len() && best.top[b] == s;
                        assert(grown[b] == s);
                    }
                }
                assert(best.top.len() == k && s.score <= best.threshold);
                let m = worst(left);
                let h = if m < w {
                    m
                } else {
                    m + 1
                };
                assert(left[m] == grown[h]);
                assert(best.threshold <= grown[h].score);
            }
        }
        assert forall|i: int, j: int| 0 <= i < j < left.len() implies (#[trigger] left[i]).doc_id < (
        #[trigger] left[j]).doc_id by {
            let a = if grown.len() > k && i >= w {
                i + 1
            } else {
                i
            };
            let b = if grown.len() > k && j >= w {
                j + 1
            } else {
                j
            };
            assert(left[i] == grown[a] && left[j] == grown[b]);
            if b < best.top.len() {
                assert(best.top[a].doc_id < best.top[b].doc_id);
            } else {
                assert(best.top[a].doc_id < from);
            }
        }
    } else {
        assert(after == best);
        assert(new.score <= best.threshold);
    }
}

proof fn lemma_best_all(
    math: Arithmetic,
    seg: DiskSegment<'_>,
    terms: Seq<Term>,
    k: nat,
    from: int,
    best: Best,
)
    requires
        k > 0,
        adds_up(math),
        parts_not_negative(math, seg, terms),
        best_so_far(math, seg, terms, k, from, best),
    ensures
        best_so_far(
            math,
            seg,
            terms,
            k,
            0x1_0000_0000,
            run_all(math, seg, terms, k, from, best),
        ),
    decreases 0x1_0000_0000 - from,
{
    lemma_next(terms, from);
    match next_doc(terms, from) {
        None => {
            assert forall|doc: u32| #[trigger] matches_query(terms, doc) implies doc < from by {
                if doc >= from {
                    lemma_some_next(terms, from, doc);
                }
            }
        },
        Some(doc) => {
            lemma_best_step(math, seg, terms, k, from, best, doc);
            lemma_best_all(
                math,
                seg,
                terms,
                k,
                doc + 1,
                offer(best, k, scored(math, seg, terms, doc)),
            );
        },
    }
}

/// Where a document matches there is a first one.
proof fn lemma_some_next(terms: Seq<Term>, from: int, doc: u32)
    requires
        matches_query(terms, doc),
        from <= doc,
    ensures
        next_doc(terms, from) is Some,
    decreases doc - from,
{
    if is_next(terms, from, doc) {
    } else {
        let e = choose|e: u32| #[trigger] matches_query(terms, e) && e >= from && e < doc;
        lemma_some_next(terms, from, e);
    }
}

/// The document has one of the words.
pub open spec fn has_word(seg: DiskSegment<'_>, words: Seq<Seq<u8>>, doc: u32) -> bool {
    exists|i: int| 0 <= i < words.len() && in_list(seg.postings_of(#[trigger] words[i]), doc)
}

proof fn lemma_found_matches(
    math: Arithmetic,
    seg: DiskSegment<'_>,
    words: Seq<Seq<u8>>,
    doc: u32,
)
    ensures
        matches_query(found(math, seg, words), doc) <==> has_word(seg, words, doc),
        found(math, seg, words).len() <= words.len(),
    decreases words.len(),
{
    if words.len() > 0 {
        let front = words.drop_last();
        let word = words.last();
        let before = found(math, seg, front);
        let all = found(math, seg, words);
        lemma_found_matches(math, seg, front, doc);
        if has_word(seg, front, doc) {
            let i = choose|i: int|
                0 <= i < front.len() && in_list(seg.postings_of(#[trigger] front[i]), doc);
            assert(words[i] == front[i]);
            let j = choose|j: int| 0 <= j < before.len() && in_list((#[trigger] before[j]).list, doc);
            assert(all[j] == before[j]);
        } else if in_list(seg.postings_of(word), doc) {
            assert(words[words.len() - 1] == word);
            assert(all[before.len() as int].list == seg.postings_of(word));
        } else {
            assert forall|i: int| 0 <= i < words.len() implies !in_list(
                seg.postings_of(#[trigger] words[i]),
                doc,
            ) by {
                if i < front.len() {
                    assert(front[i] == words[i]);
                }
            }
            assert forall|j: int| 0 <= j < all.len() implies !in_list(
                (#[trigger] all[j]).list,
                doc,
            ) by {
                if j < before.len() {
                    assert(all[j] == before[j]);
                }
            }
        }
    }
}

/// The documents that a query matches are those that have one of its words.
pub proof fn lemma_query_matches(
    math: Arithmetic,
    seg: DiskSegment<'_>,
    words: Seq<Seq<u8>>,
    doc: u32,
)
    requires
        words.len() <= usize::MAX,
    ensures
        matches_query(query_terms_of(math, seg, words), doc) <==> has_word(seg, words, doc),
{
    let some = found(math, seg, words);
    let keys = bound_keys(some);
    let terms = query_terms_of(math, seg, words);
    lemma_found_matches(math, seg, words, doc);
    law_some_order(keys);
    let order = order_of(keys);
    if matches_query(some, doc) {
        let j = choose|j: int| 0 <= j < some.len() && in_list((#[trigger] some[j]).list, doc);
        let i = lemma_sorts_onto(keys, order, j as usize);
        assert(terms[i] == some[j]);
    }
    if matches_query(terms, doc) {
        let i = choose|i: int| 0 <= i < terms.len() && in_list((#[trigger] terms[i]).list, doc);
        assert(terms[i] == some[order[i] as int]);
    }
}

/// A search keeps the best documents: at most `k`, each with one of the words and with its score,
/// none twice; and a document with one of the words that is not kept scores no better than any of
/// the `k` that are. Stopping early makes no difference to what is kept.
///
/// This holds of an arithmetic in which sums of numbers that are not negative behave like sums,
/// and in which no term adds less than zero or more than its bound.
pub proof fn law_search_keeps_the_best(
    math: Arithmetic,
    seg: DiskSegment<'_>,
    words: Seq<Seq<u8>>,
    k: nat,
)
    requires
        k > 0,
        words.len() <= usize::MAX,
        adds_up(math),
        parts_bounded(math, seg, query_terms_of(math, seg, words)),
    ensures
        kept(math, seg, words, k) == run_all(
            math,
            seg,
            query_terms_of(math, seg, words),
            k,
            0,
            no_best(),
        ).top,
        kept(math, seg, words, k).len() <= k,
        forall|i: int|
            0 <= i < kept(math, seg, words, k).len() ==> {
                let d = #[trigger] kept(math, seg, words, k)[i];
                has_word(seg, words, d.doc_id) && d == scored(
                    math,
                    seg,
                    query_terms_of(math, seg, words),
                    d.doc_id,
                )
            },
        forall|i: int, j: int|
            0 <= i < j < kept(math, seg, words, k).len() ==> (#[trigger] kept(
                math,
                seg,
                words,
                k,
            )[i]).doc_id < (#[trigger] kept(math, seg, words, k)[j]).doc_id,
        forall|doc: u32, i: int|
            #![trigger has_word(seg, words, doc), kept(math, seg, words, k)[i]]
            {
                let s = scored(math, seg, query_terms_of(math, seg, words), doc);
                has_word(seg, words, doc) && !kept(math, seg, words, k).contains(s) && 0 <= i
                    < kept(math, seg, words, k).len() ==> s.score <= kept(
                    math,
                    seg,
                    words,
                    k,
                )[i].score
            },
        forall|doc: u32| #[trigger]
            has_word(seg, words, doc) && !kept(math, seg, words, k).contains(
                scored(math, seg, query_terms_of(math, seg, words), doc),
            ) ==> kept(math, seg, words, k).len() == k,
{
    let terms = query_terms_of(math, seg, words);
    let top = kept(math, seg, words, k);
    law_bounds_add_up(math, seg, terms);
    law_stopping_early_is_safe(math, seg, terms, k, 0, no_best());
    lemma_best_all(math, seg, terms, k, 0, no_best());
    assert forall|doc: u32| #[trigger] has_word(seg, words, doc) <==> matches_query(terms, doc) by {
        lemma_query_matches(math, seg, words, doc);
    }
    assert forall|i: int| 0 <= i < top.len() implies has_word(
        seg,
        words,
        (#[trigger] top[i]).doc_id,
    ) by {
        lemma_query_matches(math, seg, words, top[i].doc_id);
    }
    assert forall|doc: u32, i: int|
        #![trigger has_word(seg, words, doc), top[i]]
        has_word(seg, words, doc) && !top.contains(scored(math, seg, terms, doc)) && 0 <= i
            < top.len() implies scored(math, seg, terms, doc).score <= top[i].score by {
        assert(matches_query(terms, doc));
    }
}

/// Documents beyond the segment have none of the words.
proof fn lemma_word_in_segment(seg: DiskSegment<'_>, words: Seq<Seq<u8>>, doc: u32)
    requires
        can_search(seg, words),
        has_word(seg, words, doc),
    ensures
        doc < seg.meta.num_docs,
{
    let i = choose|i: int|
        0 <= i < words.len() && in_list(seg.postings_of(#[trigger] words[i]), doc);
    let list = seg.postings_of(words[i]);
    let j = choose|j: int| 0 <= j < list.len() && (#[trigger] list[j]).0 == doc;
    assert(value_of(seg.rows(), words[i]) is Some);
    assert(list[j].0 < seg.meta.num_docs);
}

proof fn lemma_run_matches(
    math: Arithmetic,
    seg: DiskSegment<'_>,
    terms: Seq<Term>,
    k: nat,
    from: int,
    best: Best,
)
    requires
        forall|i: int|
            0 <= i < best.top.len() ==> matches_query(terms, (#[trigger] best.top[i]).doc_id)
                && best.top[i] == scored(math, seg, terms, best.top[i].doc_id),
        best.top.len() <= k,
    ensures
        forall|i: int|
            0 <= i < run(math, seg, terms, k, from, best).top.len() ==> {
                let d = #[trigger] run(math, seg, terms, k, from, best).top[i];
                matches_query(terms, d.doc_id) && d == scored(math, seg, terms, d.doc_id)
            },
        run(math, seg, terms, k, from, best).top.len() <= k,
    decreases 0x1_0000_0000 - from,
{
    lemma_next(terms, from);
    match next_doc(terms, from) {
        None => {},
        Some(doc) => {
            let after = offer(best, k, scored(math, seg, terms, doc));
            let grown = best.top.push(scored(math, seg, terms, doc));
            lemma_worst(grown);
            let w = worst(grown);
            assert forall|i: int| 0 <= i < after.top.len() implies matches_query(
                terms,
                (#[trigger] after.top[i]).doc_id,
            ) && after.top[i] == scored(math, seg, terms, after.top[i].doc_id) by {
                if after.top == grown.remove(w) {
                    let g = if i < w {
                        i
                    } else {
                        i + 1
                    };
                    assert(after.top[i] == grown[g]);
                    if g < best.top.len() {
                        assert(grown[g] == best.top[g]);
                    }
                } else if i < best.top.len() {
                    assert(after.top[i] == best.top[i]);
                }
            }
            lemma_run_matches(math, seg, terms, k, doc + 1, after);
        },
    }
}

/// Every document that a search returns is one of the segment, has one of the words, and comes with
/// its score; there are at most `k`.
pub proof fn law_results_have_a_word(
    math: Arithmetic,
    seg: DiskSegment<'_>,
    words: Seq<Seq<u8>>,
    k: nat,
    d: ScoredDoc,
)
    requires
        can_search(seg, words),
        words.len() <= usize::MAX,
        kept(math, seg, words, k).contains(d),
    ensures
        has_word(seg, words, d.doc_id),
        d.doc_id < seg.meta.num_docs,
        d == scored(math, seg, query_terms_of(math, seg, words), d.doc_id),
        kept(math, seg, words, k).len() <= k,
{
    let terms = query_terms_of(math, seg, words);
    lemma_run_matches(math, seg, terms, k, 0, no_best());
    let top = kept(math, seg, words, k);
    let i = choose|i: int| 0 <= i < top.len() && top[i] == d;
    assert(matches_query(terms, top[i].doc_id));
    lemma_query_matches(math, seg, words, d.doc_id);
    lemma_word_in_segment(seg, words, d.doc_id);
}

/// A query without words, or with words that the segment does not have, finds nothing.
pub proof fn law_unknown_words_find_nothing(
    math: Arithmetic,
    seg: DiskSegment<'_>,
    words: Seq<Seq<u8>>,
    k: nat,
)
    requires
        words.len() <= usize::MAX,
        forall|i: int| 0 <= i < words.len() ==> value_of(seg.rows(), #[trigger] words[i]) is None,
    ensures
        kept(math, seg, words, k) == Seq::<ScoredDoc>::empty(),
{
    let terms = query_terms_of(math, seg, words);
    lemma_next(terms, 0);
    match next_doc(terms, 0) {
        None => {},
        Some(doc) => {
            lemma_query_matches(math, seg, words, doc);
            let i = choose|i: int|
                0 <= i < words.len() && in_list(seg.postings_of(#[trigger] words[i]), doc);
            assert(value_of(seg.rows(), words[i]) is None);
        },
    }
}

// ---------------------------------------------------------------------------------------------
// How many documents are returned
// ---------------------------------------------------------------------------------------------

/// Number of documents that have one of the words.
pub open spec fn match_count(seg: DiskSegment<'_>, words: Seq<Seq<u8>>) -> nat {
    count_all(|doc: u32| has_word(seg, words, doc))
}

/// The lesser of two numbers.
pub open spec fn lesser(a: nat, b: nat) -> nat {
    if a < b {
        a
    } else {
        b
    }
}

/// Among the documents before `from`: those kept are different, they match, and there are `k` of
/// them or as many as match.
spec fn counted_so_far(terms: Seq<Term>, k: nat, from: int, top: Seq<ScoredDoc>) -> bool {
    &&& top.len() == lesser(k, count_below(|doc: u32| matches_query(terms, doc), from))
    &&& forall|i: int| 0 <= i < top.len() ==> (#[trigger] top[i]).doc_id < from
    &&& forall|i: int, j: int|
        0 <= i < j < top.len() ==> (#[trigger] top[i]).doc_id < (#[trigger] top[j]).doc_id
}

proof fn lemma_counted_step(terms: Seq<Term>, k: nat, from: int, best: Best, new: ScoredDoc)
    requires
        0 <= from,
        counted_so_far(terms, k, from, best.top),
        is_next(terms, from, new.doc_id),
    ensures
        counted_so_far(terms, k, new.doc_id + 1, offer(best, k, new).top),
{
    let p = |doc: u32| matches_query(terms, doc);
    let doc = new.doc_id;
    assert forall|d: u32| from <= d < doc implies !#[trigger] p(d) by {
        assert(matches_query(terms, d) ==> doc <= d);
    }
    lemma_count_gap(p, from, doc as int);
    assert(p(doc));
    assert(count_below(p, doc + 1) == count_below(p, from) + 1);
    let grown = best.top.push(new);
    let w = worst(grown);
    lemma_worst(grown);
    let after = offer(best, k, new).top;
    assert forall|i: int, j: int| 0 <= i < j < after.len() implies (#[trigger] after[i]).doc_id < (
    #[trigger] after[j]).doc_id by {
        let cut = after.len() < grown.len() && after == grown.remove(w);
        let a = if cut && i >= w {
            i + 1
        } else {
            i
        };
        let b = if cut && j >= w {
            j + 1
        } else {
            j
        };
        assert(after[i] == grown[a] && after[j] == grown[b]);
    }
    assert forall|i: int| 0 <= i < after.len() implies (#[trigger] after[i]).doc_id < doc + 1 by {
        let cut = after.len() < grown.len() && after == grown.remove(w);
        let a = if cut && i >= w {
            i + 1
        } else {
            i
        };
        assert(after[i] == grown[a]);
    }
}

proof fn lemma_counted_run(
    math: Arithmetic,
    seg: DiskSegment<'_>,
    terms: Seq<Term>,
    k: nat,
    from: int,
    best: Best,
)
    requires
        0 <= from <= 0x1_0000_0000,
        counted_so_far(terms, k, from, best.top),
    ensures
        counted_so_far(terms, k, 0x1_0000_0000, run(math, seg, terms, k, from, best).top),
    decreases 0x1_0000_0000 - from,
{
    let p = |doc: u32| matches_query(terms, doc);
    lemma_next(terms, from);
    match next_doc(terms, from) {
        None => {
            assert forall|d: u32| from <= d < 0x1_0000_0000 implies !#[trigger] p(d) by {
                if p(d) {
                    lemma_some_next(terms, from, d);
                }
            }
            lemma_count_gap(p, from, 0x1_0000_0000);
        },
        Some(doc) => {
            lemma_count_monotone_in(p, from, 0x1_0000_0000);
            let new = scored(math, seg, terms, doc);
            lemma_counted_step(terms, k, from, best, new);
            if !(at_most(upper(math, terms, doc as int), best.threshold) && best.top.len() >= k) {
                lemma_counted_run(math, seg, terms, k, doc + 1, offer(best, k, new));
            }
        },
    }
}

/// Whatever the arithmetic, a search keeps `k` documents, or as many as have one of the words if
/// there are fewer; and they are different documents.
pub proof fn law_number_of_results(
    math: Arithmetic,
    seg: DiskSegment<'_>,
    words: Seq<Seq<u8>>,
    k: nat,
)
    requires
        words.len() <= usize::MAX,
    ensures
        kept(math, seg, words, k).len() == lesser(k, match_count(seg, words)),
        forall|i: int, j: int|
            0 <= i < j < kept(math, seg, words, k).len() ==> (#[trigger] kept(
                math,
                seg,
                words,
                k,
            )[i]).doc_id < (#[trigger] kept(math, seg, words, k)[j]).doc_id,
{
    let terms = query_terms_of(math, seg, words);
    let p = |doc: u32| matches_query(terms, doc);
    let q = |doc: u32| has_word(seg, words, doc);
    assert forall|d: u32| #[trigger] p(d) == q(d) by {
        lemma_query_matches(math, seg, words, d);
    }
    assert(p =~= q);
    if k > 0 {
        lemma_counted_run(math, seg, terms, k, 0, no_best());
    }
}

/// With `k` no less than the number of documents that have one of the words, a search returns every
/// one of these and no other, each with its score. Which documents these are does not depend on the
/// arithmetic.
pub proof fn law_large_k_returns_all(
    math: Arithmetic,
    seg: DiskSegment<'_>,
    words: Seq<Seq<u8>>,
    k: nat,
    s: ScoredDoc,
)
    requires
        words.len() <= usize::MAX,
        match_count(seg, words) <= k,
    ensures
        kept(math, seg, words, k).contains(s) <==> (has_word(seg, words, s.doc_id) && s == scored(
            math,
            seg,
            query_terms_of(math, seg, words),
            s.doc_id,
        )),
{
    let terms = query_terms_of(math, seg, words);
    let top = kept(math, seg, words, k);
    law_number_of_results(math, seg, words, k);
    lemma_run_matches(math, seg, terms, k, 0, no_best());
    assert forall|i: int| 0 <= i < top.len() implies has_word(seg, words, (#[trigger] top[i]).doc_id)
        && top[i] == scored(math, seg, terms, top[i].doc_id) by {
        assert(matches_query(terms, top[i].doc_id));
        lemma_query_matches(math, seg, words, top[i].doc_id);
    }
    if has_word(seg, words, s.doc_id) && s == scored(math, seg, terms, s.doc_id) && !top.contains(
        s,
    ) {
        // There would be one document more that has a word.
        let docs = top.map_values(|d: ScoredDoc| d.doc_id).push(s.doc_id);
        let p = |doc: u32| has_word(seg, words, doc);
        assert forall|i: int| 0 <= i < docs.len() implies (#[trigger] docs[i]) < 0x1_0000_0000 && p(
            docs[i],
        ) by {
            if i < top.len() {
                assert(has_word(seg, words, top[i].doc_id));
            }
        }
        assert forall|i: int, j: int| 0 <= i < j < docs.len() implies docs[i] != docs[j] by {
            if j < top.len() {
                assert(top[i].doc_id < top[j].doc_id);
            } else {
                assert(top[i] == scored(math, seg, terms, top[i].doc_id));
                assert(top.contains(top[i]));
            }
        }
        lemma_at_most(p, 0x1_0000_0000, docs);
    }
}

/// No more documents have one of the words than the segment has.
pub proof fn law_matches_are_documents(seg: DiskSegment<'_>, words: Seq<Seq<u8>>)
    requires
        can_search(seg, words),
    ensures
        match_count(seg, words) <= seg.meta.num_docs,
{
    let p = |doc: u32| has_word(seg, words, doc);
    let n = if seg.meta.num_docs < 0x1_0000_0000 {
        seg.meta.num_docs as nat
    } else {
        0x1_0000_0000
    };
    let docs = Seq::new(n, |i: int| i as u32);
    assert forall|d: u32| d < 0x1_0000_0000 && #[trigger] p(d) implies docs.contains(d) by {
        lemma_word_in_segment(seg, words, d);
        assert(docs[d as int] == d);
    }
    lemma_at_least(p, 0x1_0000_0000, docs);
}

/// What a search may return are different documents, as many as it keeps.
pub proof fn law_results_are_different(
    math: Arithmetic,
    seg: DiskSegment<'_>,
    words: Seq<Seq<u8>>,
    k: nat,
    results: Seq<ScoredDoc>,
)
    requires
        words.len() <= usize::MAX,
        segment_results(math, seg, words, k, results),
    ensures
        results.len() == lesser(k, match_count(seg, words)),
        results.map_values(|d: ScoredDoc| d.doc_id).no_duplicates(),
        forall|d: ScoredDoc| #[trigger]
            results.contains(d) <==> kept(math, seg, words, k).contains(d),
{
    broadcast use vstd::seq_lib::group_to_multiset_ensures;

    let top = kept(math, seg, words, k);
    law_number_of_results(math, seg, words, k);
    assert(top.no_duplicates()) by {
        assert forall|i: int, j: int| 0 <= i < top.len() && 0 <= j < top.len() && i != j implies top[i]
            != top[j] by {
            if i < j {
                assert(top[i].doc_id < top[j].doc_id);
            } else {
                assert(top[j].doc_id < top[i].doc_id);
            }
        }
    }
    top.lemma_multiset_has_no_duplicates();
    results.lemma_multiset_has_no_duplicates_conv();
    vstd::seq_lib::to_multiset_len(results);
    vstd::seq_lib::to_multiset_len(top);
    assert forall|d: ScoredDoc| #[trigger] results.contains(d) <==> top.contains(d) by {
        vstd::seq_lib::to_multiset_contains(results, d);
        vstd::seq_lib::to_multiset_contains(top, d);
    }
    let docs = results.map_values(|d: ScoredDoc| d.doc_id);
    assert forall|i: int, j: int| 0 <= i < docs.len() && 0 <= j < docs.len() && i != j implies docs[i]
        != docs[j] by {
        assert(results.contains(results[i]) && results.contains(results[j]));
        let a = choose|a: int| 0 <= a < top.len() && top[a] == results[i];
        let b = choose|b: int| 0 <= b < top.len() && top[b] == results[j];
        assert(results[i] != results[j]);
        if a < b {
            assert(top[a].doc_id < top[b].doc_id);
        } else {
            assert(top[b].doc_id < top[a].doc_id);
        }
    }
}

/// The score of a document.
spec fn score_of(math: Arithmetic, seg: DiskSegment<'_>, words: Seq<Seq<u8>>, doc: u32) -> u32 {
    scored(math, seg, query_terms_of(math, seg, words), doc).score
}

/// Where a score stands among all: at position `i` of the results, `i` documents at most score
/// better, and `i + 1` at least score as well.
proof fn lemma_standing(
    math: Arithmetic,
    seg: DiskSegment<'_>,
    words: Seq<Seq<u8>>,
    k: nat,
    results: Seq<ScoredDoc>,
    i: int,
)
    requires
        k > 0,
        words.len() <= usize::MAX,
        adds_up(math),
        parts_bounded(math, seg, query_terms_of(math, seg, words)),
        segment_results(math, seg, words, k, results),
        0 <= i < results.len(),
    ensures
        has_word(seg, words, results[i].doc_id),
        results[i].score == score_of(math, seg, words, results[i].doc_id),
        not_negative(results[i].score),
        count_all(
            |d: u32|
                has_word(seg, words, d) && score_of(math, seg, words, d) > results[i].score,
        ) <= i,
        count_all(
            |d: u32|
                has_word(seg, words, d) && score_of(math, seg, words, d) >= results[i].score,
        ) >= i + 1,
{
    let terms = query_terms_of(math, seg, words);
    let top = kept(math, seg, words, k);
    let v = results[i].score;
    law_search_keeps_the_best(math, seg, words, k);
    law_results_are_different(math, seg, words, k, results);
    assert(terms.take(terms.len() as int) =~= terms);
    assert forall|j: int| 0 <= j < results.len() implies {
        let d = #[trigger] results[j];
        has_word(seg, words, d.doc_id) && d == scored(math, seg, terms, d.doc_id) && not_negative(
            d.score,
        )
    } by {
        assert(results.contains(results[j]));
        let a = choose|a: int| 0 <= a < top.len() && top[a] == results[j];
        assert(has_word(seg, words, top[a].doc_id));
        lemma_score_not_negative(math, seg, terms, terms.len() as int, top[a].doc_id);
    }
    let docs = results.map_values(|d: ScoredDoc| d.doc_id);
    let better = |d: u32| has_word(seg, words, d) && score_of(math, seg, words, d) > v;
    let as_good = |d: u32| has_word(seg, words, d) && score_of(math, seg, words, d) >= v;
    assert forall|d: u32| d < 0x1_0000_0000 && #[trigger] better(d) implies docs.take(i).contains(
        d,
    ) by {
        let e = scored(math, seg, terms, d);
        if !top.contains(e) {
            assert(results.contains(results[i]));
            let a = choose|a: int| 0 <= a < top.len() && top[a] == results[i];
            assert(e.score <= top[a].score);
        }
        assert(results.contains(e));
        let j = choose|j: int| 0 <= j < results.len() && results[j] == e;
        if j > i {
            assert(!above(results[j].score, results[i].score));
            assert(not_negative(results[j].score));
        }
        assert(j < i);
        assert(docs.take(i)[j] == d);
    }
    lemma_at_least(better, 0x1_0000_0000, docs.take(i));
    let front = docs.take(i + 1);
    assert forall|j: int| 0 <= j < front.len() implies (#[trigger] front[j]) < 0x1_0000_0000
        && as_good(front[j]) by {
        assert(front[j] == results[j].doc_id);
        if j < i {
            assert(!above(results[i].score, results[j].score));
        }
    }
    assert(front.no_duplicates()) by {
        assert forall|a: int, b: int| 0 <= a < front.len() && 0 <= b < front.len() && a
            != b implies front[a] != front[b] by {
            assert(docs[a] != docs[b]);
        }
    }
    lemma_at_most(as_good, 0x1_0000_0000, front);
}

proof fn lemma_not_better(
    math: Arithmetic,
    seg: DiskSegment<'_>,
    words: Seq<Seq<u8>>,
    a: nat,
    r: Seq<ScoredDoc>,
    b: nat,
    f: Seq<ScoredDoc>,
    i: int,
)
    requires
        a > 0,
        b > 0,
        words.len() <= usize::MAX,
        adds_up(math),
        parts_bounded(math, seg, query_terms_of(math, seg, words)),
        segment_results(math, seg, words, a, r),
        segment_results(math, seg, words, b, f),
        0 <= i < r.len(),
        i < f.len(),
    ensures
        r[i].score <= f[i].score,
{
    lemma_standing(math, seg, words, a, r, i);
    lemma_standing(math, seg, words, b, f, i);
    if r[i].score > f[i].score {
        lemma_count_implies(
            |d: u32| has_word(seg, words, d) && score_of(math, seg, words, d) >= r[i].score,
            |d: u32| has_word(seg, words, d) && score_of(math, seg, words, d) > f[i].score,
            0x1_0000_0000,
        );
    }
}

/// The results for `k` are the first of the results for a greater number: the scores are the same,
/// and where those are all different the documents are the same.
pub proof fn law_fewer_results_are_the_first(
    math: Arithmetic,
    seg: DiskSegment<'_>,
    words: Seq<Seq<u8>>,
    k: nat,
    results: Seq<ScoredDoc>,
    more: nat,
    full: Seq<ScoredDoc>,
)
    requires
        0 < k <= more,
        words.len() <= usize::MAX,
        adds_up(math),
        parts_bounded(math, seg, query_terms_of(math, seg, words)),
        segment_results(math, seg, words, k, results),
        segment_results(math, seg, words, more, full),
    ensures
        results.len() == lesser(k, full.len()),
        forall|i: int| 0 <= i < results.len() ==> (#[trigger] results[i]).score == full[i].score,
        (forall|i: int, j: int|
            0 <= i < j < full.len() ==> (#[trigger] full[i]).score != (#[trigger] full[j]).score)
            ==> forall|i: int| 0 <= i < results.len() ==> #[trigger] results[i] == full[i],
{
    let terms = query_terms_of(math, seg, words);
    law_results_are_different(math, seg, words, k, results);
    law_results_are_different(math, seg, words, more, full);
    assert forall|i: int| 0 <= i < results.len() implies (#[trigger] results[i]).score
        == full[i].score by {
        lemma_not_better(math, seg, words, k, results, more, full, i);
        lemma_not_better(math, seg, words, more, full, k, results, i);
    }
    if forall|i: int, j: int|
        0 <= i < j < full.len() ==> (#[trigger] full[i]).score != (#[trigger] full[j]).score {
        law_search_keeps_the_best(math, seg, words, k);
        law_search_keeps_the_best(math, seg, words, more);
        let all = kept(math, seg, words, more);
        assert forall|i: int| 0 <= i < results.len() implies #[trigger] results[i] == full[i] by {
            let e = results[i];
            lemma_standing(math, seg, words, k, results, i);
            assert(results.contains(e));
            let top = kept(math, seg, words, k);
            let a = choose|a: int| 0 <= a < top.len() && top[a] == e;
            assert(e == scored(math, seg, terms, e.doc_id));
            if !full.contains(e) {
                assert(!all.contains(e));
                assert(all.len() == more);
                assert(i < full.len() - 1) by {
                    law_number_of_results(math, seg, words, more);
                    assert(top.contains(e));
                }
                let last = full[full.len() - 1];
                assert(full.contains(last));
                let b = choose|b: int| 0 <= b < all.len() && all[b] == last;
                assert(e.score <= all[b].score);
                lemma_standing(math, seg, words, more, full, full.len() - 1);
                assert(!above(last.score, full[i].score));
                assert(full[i].score != last.score);
            }
            let j = choose|j: int| 0 <= j < full.len() && full[j] == e;
            assert(full[j].score == full[i].score);
            if i < j {
                assert(full[i].score != full[j].score);
            } else if j < i {
                assert(full[j].score != full[i].score);
            }
        }
    }
}

} // verus!
