//! What a score is made of, and what a scan keeps.
use vstd::prelude::*;
use crate::bm25::laws::{has_word, lemma_query_matches, lesser, match_count};
use crate::bm25::scan::{
    bound_keys, found, in_list, is_next, kept, matches_query, next_doc, no_best, numeric, offer,
    query_terms_of, reaches, run, score, scored, segment_results, term_of, tf_in, upper, worst,
    Best, Term,
};
use crate::bm25::score::{
    above, at_most, falling_key, is_number, not_negative, rank, rising_key, Arithmetic,
    Bm25Scorer, ScoredDoc,
};
use crate::count::law_count_is_size;
use crate::order::{law_some_order, lemma_sorts_onto, order_of, taken_before};
use crate::segment::disk::DiskSegment;
use crate::segment::files::greatest_tf;
use crate::terms::value_of;

verus! {

// ---------------------------------------------------------------------------------------------
// Numbers
// ---------------------------------------------------------------------------------------------

/// Bit patterns as numbers: the top bit is the sign, the others are the magnitude; a number that
/// is not negative is above a negative one, unless both are zero.
pub proof fn law_numbers(a: u32, b: u32)
    ensures
        is_number(a) <==> a as int % 0x8000_0000 <= 0x7F80_0000,
        not_negative(a) <==> is_number(a) && a < 0x8000_0000,
        above(a, b) <==> is_number(a) && is_number(b) && {
            let (x, y) = (a as int % 0x8000_0000, b as int % 0x8000_0000);
            if a < 0x8000_0000 {
                if b < 0x8000_0000 {
                    x > y
                } else {
                    x > 0 || y > 0
                }
            } else {
                b >= 0x8000_0000 && x < y
            }
        },
        at_most(a, b) <==> is_number(a) && is_number(b) && !above(a, b),
        is_number(a) && is_number(b) ==> (above(a, b) <==> rank(a) > rank(b)),
        rising_key(a) > rising_key(b) <==> rank(a) > rank(b),
        falling_key(a) < falling_key(b) <==> rank(a) > rank(b),
{
}

/// What the functions of a scorer compute is what they return.
pub proof fn law_arithmetic<W, B, P, A>(
    scorer: Bm25Scorer<W, B, P, A>,
    n: u64,
    df: u64,
    w: u32,
    tf: u8,
    dl: u32,
    avg: u64,
    a: u32,
    r: u32,
) where
    W: Fn(u64, u64) -> u32,
    B: Fn(u32, u8, u64) -> u32,
    P: Fn(u32, u8, u32, u64) -> u32,
    A: Fn(u32, u32) -> u32,

    requires
        scorer.wf(),
    ensures
        call_ensures(scorer.weigh, (n, df), r) ==> (scorer.arithmetic().weigh)(n, df) == r,
        call_ensures(scorer.bound, (w, tf, avg), r) ==> (scorer.arithmetic().bound)(w, tf, avg)
            == r,
        call_ensures(scorer.part, (w, tf, dl, avg), r) ==> (scorer.arithmetic().part)(
            w,
            tf,
            dl,
            avg,
        ) == r,
        call_ensures(scorer.plus, (a, w), r) ==> (scorer.arithmetic().plus)(a, w) == r,
{
}

/// Functions that take every argument, and return one result for it, make a scorer.
pub proof fn law_scorer<W, B, P, A>(scorer: Bm25Scorer<W, B, P, A>) where
    W: Fn(u64, u64) -> u32,
    B: Fn(u32, u8, u64) -> u32,
    P: Fn(u32, u8, u32, u64) -> u32,
    A: Fn(u32, u32) -> u32,

    requires
        forall|n: u64, df: u64| call_requires(scorer.weigh, (n, df)),
        forall|w: u32, tf: u8, avg: u64| call_requires(scorer.bound, (w, tf, avg)),
        forall|w: u32, tf: u8, dl: u32, avg: u64| call_requires(scorer.part, (w, tf, dl, avg)),
        forall|a: u32, b: u32| call_requires(scorer.plus, (a, b)),
        forall|n: u64, df: u64, r: u32, s: u32| #[trigger]
            call_ensures(scorer.weigh, (n, df), r) && #[trigger] call_ensures(
                scorer.weigh,
                (n, df),
                s,
            ) ==> r == s,
        forall|w: u32, tf: u8, avg: u64, r: u32, s: u32| #[trigger]
            call_ensures(scorer.bound, (w, tf, avg), r) && #[trigger] call_ensures(
                scorer.bound,
                (w, tf, avg),
                s,
            ) ==> r == s,
        forall|w: u32, tf: u8, dl: u32, avg: u64, r: u32, s: u32| #[trigger]
            call_ensures(scorer.part, (w, tf, dl, avg), r) && #[trigger] call_ensures(
                scorer.part,
                (w, tf, dl, avg),
                s,
            ) ==> r == s,
        forall|a: u32, b: u32, r: u32, s: u32| #[trigger]
            call_ensures(scorer.plus, (a, b), r) && #[trigger] call_ensures(
                scorer.plus,
                (a, b),
                s,
            ) ==> r == s,
    ensures
        scorer.wf(),
{
}

// ---------------------------------------------------------------------------------------------
// Words
// ---------------------------------------------------------------------------------------------

/// A list has a document where one of its postings is of it, and then that is its frequency.
pub proof fn law_in_list(list: Seq<(u32, u8)>, doc: u32)
    ensures
        in_list(list, doc) <==> exists|j: int| 0 <= j < list.len() && (#[trigger] list[j]).0 == doc,
        forall|j: int|
            0 <= j < list.len() && (#[trigger] list[j]).0 == doc && (forall|i: int|
                0 <= i < list.len() && i != j ==> (#[trigger] list[i]).0 != doc) ==> tf_in(list, doc)
                == list[j].1,
{
}

/// A document has one of the words where a posting of the word is of it; and as many documents
/// have one as the set of these has elements.
pub proof fn law_has_word(seg: DiskSegment<'_>, words: Seq<Seq<u8>>, doc: u32)
    ensures
        has_word(seg, words, doc) <==> exists|i: int, j: int|
            0 <= i < words.len() && 0 <= j < seg.postings_of(words[i]).len()
                && #[trigger] seg.postings_of(words[i])[j].0 == doc,
        match_count(seg, words) == Set::new(|d: u32| has_word(seg, words, d)).len(),
{
    law_count_is_size(|d: u32| has_word(seg, words, d));
    if exists|i: int, j: int|
        0 <= i < words.len() && 0 <= j < seg.postings_of(words[i]).len()
            && #[trigger] seg.postings_of(words[i])[j].0 == doc {
        let (i, j) = choose|i: int, j: int|
            0 <= i < words.len() && 0 <= j < seg.postings_of(words[i]).len()
                && #[trigger] seg.postings_of(words[i])[j].0 == doc;
        assert(in_list(seg.postings_of(words[i]), doc));
    }
    if has_word(seg, words, doc) {
        let i = choose|i: int|
            0 <= i < words.len() && in_list(seg.postings_of(#[trigger] words[i]), doc);
        let list = seg.postings_of(words[i]);
        let j = choose|j: int| 0 <= j < list.len() && (#[trigger] list[j]).0 == doc;
        assert(seg.postings_of(words[i])[j].0 == doc);
    }
}

/// The lesser of two numbers is the minimum.
pub proof fn law_lesser(a: nat, b: nat)
    ensures
        lesser(a, b) == vstd::math::min(a as int, b as int),
{
}

/// Where in the query the words stand that the segment has.
spec fn known(seg: DiskSegment<'_>, words: Seq<Seq<u8>>) -> Seq<int>
    decreases words.len(),
{
    if words.len() == 0 {
        Seq::empty()
    } else if value_of(seg.rows(), words.last()) is Some {
        known(seg, words.drop_last()).push(words.len() - 1)
    } else {
        known(seg, words.drop_last())
    }
}

proof fn lemma_known(math: Arithmetic, seg: DiskSegment<'_>, words: Seq<Seq<u8>>)
    ensures
        known(seg, words).len() == found(math, seg, words).len() <= words.len(),
        forall|i: int|
            0 <= i < known(seg, words).len() ==> {
                let p = #[trigger] known(seg, words)[i];
                &&& 0 <= p < words.len()
                &&& value_of(seg.rows(), words[p]) is Some
                &&& found(math, seg, words)[i] == term_of(
                    math,
                    seg.meta,
                    seg.postings_of(words[p]),
                )
            },
        forall|i: int, j: int|
            0 <= i < j < known(seg, words).len() ==> (#[trigger] known(seg, words)[i]) < (
            #[trigger] known(seg, words)[j]),
        forall|p: int|
            0 <= p < words.len() && value_of(seg.rows(), #[trigger] words[p]) is Some ==> known(
                seg,
                words,
            ).contains(p),
    decreases words.len(),
{
    if words.len() > 0 {
        let front = words.drop_last();
        lemma_known(math, seg, front);
        let a = known(seg, front);
        let all = known(seg, words);
        let last = words.len() - 1;
        assert(words[last] == words.last());
        assert forall|i: int| 0 <= i < all.len() implies {
            let p = #[trigger] all[i];
            &&& 0 <= p < words.len()
            &&& value_of(seg.rows(), words[p]) is Some
            &&& found(math, seg, words)[i] == term_of(math, seg.meta, seg.postings_of(words[p]))
        } by {
            if i < a.len() {
                assert(all[i] == a[i]);
                assert(front[a[i]] == words[a[i]]);
            }
        }
        assert forall|p: int|
            0 <= p < words.len() && value_of(seg.rows(), #[trigger] words[p]) is Some implies all.contains(
            p,
        ) by {
            if p < last {
                assert(front[p] == words[p]);
                let i = choose|i: int| 0 <= i < a.len() && a[i] == p;
                assert(all[i] == p);
            } else {
                assert(all[all.len() - 1] == p);
            }
        }
        assert forall|i: int, j: int| 0 <= i < j < all.len() implies (#[trigger] all[i]) < (
        #[trigger] all[j]) by {
            assert(all[i] == a[i]);
            if j < a.len() {
                assert(all[j] == a[j]);
            }
        }
    }
}

// ---------------------------------------------------------------------------------------------
// Scores
// ---------------------------------------------------------------------------------------------

/// What the score of a document is made of. `order` are the positions in the query of the words
/// that the segment has, each once, those first that can add least, and among such as they stand in
/// the query. The weight of a word comes from the number of documents of the segment and the number
/// of those that have the word; the most that it can add, from its weight, its greatest frequency
/// and the mean length. The score of a document is the sum over the words that it has, in this
/// order, of what each adds by its weight, its frequency in the document, the length of the document
/// and the mean length.
pub proof fn law_score_of_a_document(
    math: Arithmetic,
    seg: DiskSegment<'_>,
    words: Seq<Seq<u8>>,
    doc: u32,
) -> (order: Seq<int>)
    requires
        words.len() <= usize::MAX,
    ensures
        order.no_duplicates(),
        forall|p: int| #[trigger]
            order.contains(p) <==> 0 <= p < words.len() && value_of(seg.rows(), words[p]) is Some,
        query_terms_of(math, seg, words).len() == order.len(),
        forall|i: int|
            0 <= i < order.len() ==> {
                let list = seg.postings_of(words[#[trigger] order[i]]);
                let t = query_terms_of(math, seg, words)[i];
                &&& t.list == list
                &&& t.weight == (math.weigh)(seg.meta.num_docs, list.len() as u64)
                &&& t.bound == (math.bound)(t.weight, greatest_tf(list), seg.meta.avg_doc_len)
            },
        forall|i: int, j: int|
            0 <= i < j < order.len() ==> {
                let a = query_terms_of(math, seg, words)[i].bound;
                let b = query_terms_of(math, seg, words)[j].bound;
                rank(a) < rank(b) || (rank(a) == rank(b) && #[trigger] order[i] < #[trigger] order[j])
            },
        scored(math, seg, query_terms_of(math, seg, words), doc).doc_id == doc,
        scored(math, seg, query_terms_of(math, seg, words), doc).score == order.filter(
            |p: int| in_list(seg.postings_of(words[p]), doc),
        ).map_values(
            |p: int|
                {
                    let list = seg.postings_of(words[p]);
                    (math.part)(
                        (math.weigh)(seg.meta.num_docs, list.len() as u64),
                        tf_in(list, doc),
                        seg.len_of(doc as int),
                        seg.meta.avg_doc_len,
                    )
                },
        ).fold_left(0u32, math.plus),
{
    let some = found(math, seg, words);
    let keys = bound_keys(some);
    let at = known(seg, words);
    lemma_known(math, seg, words);
    law_some_order(keys);
    let sorted = order_of(keys);
    let terms = query_terms_of(math, seg, words);
    let order = sorted.map_values(|s: usize| at[s as int]);
    assert forall|i: int, j: int| 0 <= i < order.len() && 0 <= j < order.len() && i != j implies order[i]
        != order[j] by {
        if i < j {
            assert(taken_before(keys, sorted[i], sorted[j]));
        } else {
            assert(taken_before(keys, sorted[j], sorted[i]));
        }
        let (a, b) = (sorted[i] as int, sorted[j] as int);
        if a < b {
            assert(at[a] < at[b]);
        } else {
            assert(at[b] < at[a]);
        }
    }
    assert forall|p: int| #[trigger] order.contains(p) <==> 0 <= p < words.len() && value_of(
        seg.rows(),
        words[p],
    ) is Some by {
        if order.contains(p) {
            let i = choose|i: int| 0 <= i < order.len() && order[i] == p;
            assert(at[sorted[i] as int] == p);
        }
        if 0 <= p < words.len() && value_of(seg.rows(), words[p]) is Some {
            let s = choose|s: int| 0 <= s < at.len() && at[s] == p;
            let i = lemma_sorts_onto(keys, sorted, s as usize);
            assert(order[i] == p);
        }
    }
    assert forall|i: int, j: int| 0 <= i < j < order.len() implies {
        let a = terms[i].bound;
        let b = terms[j].bound;
        rank(a) < rank(b) || (rank(a) == rank(b) && #[trigger] order[i] < #[trigger] order[j])
    } by {
        assert(taken_before(keys, sorted[i], sorted[j]));
        let (a, b) = (sorted[i] as int, sorted[j] as int);
        assert(keys[a] == rising_key(terms[i].bound));
        assert(keys[b] == rising_key(terms[j].bound));
        if keys[a] == keys[b] {
            assert(at[a] < at[b]);
        }
    }
    let n = terms.len() as int;
    assert(terms.take(n) =~= terms);
    assert(order.take(n) =~= order);
    lemma_score_sum(math, seg, words, doc, terms, order, n);
    order
}

spec fn part_of(
    math: Arithmetic,
    seg: DiskSegment<'_>,
    words: Seq<Seq<u8>>,
    doc: u32,
) -> spec_fn(int) -> u32 {
    |p: int|
        {
            let list = seg.postings_of(words[p]);
            (math.part)(
                (math.weigh)(seg.meta.num_docs, list.len() as u64),
                tf_in(list, doc),
                seg.len_of(doc as int),
                seg.meta.avg_doc_len,
            )
        }
}

proof fn lemma_score_sum(
    math: Arithmetic,
    seg: DiskSegment<'_>,
    words: Seq<Seq<u8>>,
    doc: u32,
    terms: Seq<Term>,
    order: Seq<int>,
    n: int,
)
    requires
        terms.len() == order.len(),
        0 <= n <= terms.len(),
        forall|i: int|
            0 <= i < order.len() ==> terms[i] == term_of(
                math,
                seg.meta,
                seg.postings_of(words[#[trigger] order[i]]),
            ),
    ensures
        score(math, terms.take(n), doc, seg.len_of(doc as int), seg.meta.avg_doc_len)
            == order.take(n).filter(
            |p: int| in_list(seg.postings_of(words[p]), doc),
        ).map_values(part_of(math, seg, words, doc)).fold_left(0u32, math.plus),
    decreases n,
{
    reveal(Seq::filter);
    let has = |p: int| in_list(seg.postings_of(words[p]), doc);
    let part = part_of(math, seg, words, doc);
    if n > 0 {
        lemma_score_sum(math, seg, words, doc, terms, order, n - 1);
        assert(terms.take(n).drop_last() =~= terms.take(n - 1));
        assert(order.take(n).drop_last() =~= order.take(n - 1));
        let before = order.take(n - 1).filter(has);
        let p = order[n - 1];
        assert(terms.take(n).last() == terms[n - 1]);
        if has(p) {
            let grown = order.take(n).filter(has);
            assert(grown == before.push(p));
            assert(grown.map_values(part) =~= before.map_values(part).push(part(p)));
            assert(before.map_values(part).push(part(p)).drop_last() =~= before.map_values(part));
        }
    }
}

/// The most that the words can add which have a document from `from` on is the sum of the most that
/// each can add.
pub proof fn law_upper_bound(math: Arithmetic, terms: Seq<Term>, from: int)
    ensures
        upper(math, terms, from) == terms.filter(
            |t: Term| exists|j: int| 0 <= j < t.list.len() && (#[trigger] t.list[j]).0 >= from,
        ).map_values(|t: Term| t.bound).fold_left(0u32, math.plus),
    decreases terms.len(),
{
    reveal(Seq::filter);
    let far = |t: Term| exists|j: int| 0 <= j < t.list.len() && (#[trigger] t.list[j]).0 >= from;
    let bound = |t: Term| t.bound;
    if terms.len() > 0 {
        law_upper_bound(math, terms.drop_last(), from);
        let before = terms.drop_last().filter(far);
        let t = terms.last();
        assert(reaches(t.list, from) == far(t));
        if far(t) {
            assert(before.push(t).map_values(bound) =~= before.map_values(bound).push(t.bound));
            assert(before.map_values(bound).push(t.bound).drop_last() =~= before.map_values(bound));
        }
    }
}

// ---------------------------------------------------------------------------------------------
// Keeping the best
// ---------------------------------------------------------------------------------------------

/// What is given up first: of the least scores the lowest number.
pub proof fn law_worst(top: Seq<ScoredDoc>)
    requires
        top.len() > 0,
    ensures
        0 <= worst(top) < top.len(),
        forall|i: int|
            0 <= i < top.len() ==> {
                ||| top[worst(top)].score < (#[trigger] top[i]).score
                ||| top[worst(top)].score == top[i].score && top[worst(top)].doc_id <= top[i].doc_id
            },
    decreases top.len(),
{
    if top.len() > 1 {
        let front = top.drop_last();
        law_worst(front);
        assert forall|i: int| 0 <= i < top.len() implies {
            ||| top[worst(top)].score < (#[trigger] top[i]).score
            ||| top[worst(top)].score == top[i].score && top[worst(top)].doc_id <= top[i].doc_id
        } by {
            if i < front.len() {
                assert(front[i] == top[i]);
                assert(front[worst(front)] == top[worst(front)]);
            }
        }
    }
}

/// Meeting another document. As long as there is room it is kept. Where there is none, it is kept
/// only if it scores above the threshold, and what is then given up is of the least scores the
/// lowest number. Once `k` are kept the threshold is the least of their scores.
pub proof fn law_offer(best: Best, k: nat, doc: ScoredDoc)
    requires
        0 < k,
        best.top.len() <= k,
    ensures
        best.top.len() < k ==> offer(best, k, doc).top == best.top.push(doc),
        best.top.len() == k && !above(doc.score, best.threshold) ==> offer(best, k, doc) == best,
        best.top.len() == k && above(doc.score, best.threshold) ==> exists|w: int|
            #![trigger best.top.push(doc).remove(w)]
            {
                let grown = best.top.push(doc);
                &&& 0 <= w < grown.len()
                &&& offer(best, k, doc).top == grown.remove(w)
                &&& forall|i: int|
                    0 <= i < grown.len() ==> {
                        ||| grown[w].score < (#[trigger] grown[i]).score
                        ||| grown[w].score == grown[i].score && grown[w].doc_id <= grown[i].doc_id
                    }
            },
        best.top.len() + 1 < k ==> offer(best, k, doc).threshold == best.threshold,
        offer(best, k, doc) != best && offer(best, k, doc).top.len() == k ==> {
            let after = offer(best, k, doc);
            &&& forall|i: int|
                0 <= i < k ==> after.threshold <= (#[trigger] after.top[i]).score
            &&& exists|i: int| 0 <= i < k && after.threshold == (#[trigger] after.top[i]).score
        },
        no_best().top.len() == 0,
        no_best().threshold == 0,
{
    let grown = best.top.push(doc);
    law_worst(grown);
    let after = offer(best, k, doc);
    if best.top.len() == k && above(doc.score, best.threshold) {
        assert(after.top == grown.remove(worst(grown)));
    }
    if after != best && after.top.len() == k {
        law_worst(after.top);
        assert(after.threshold == after.top[worst(after.top)].score);
    }
}

/// There is a next document where there is one at all.
proof fn lemma_next_exists(terms: Seq<Term>, from: int, doc: u32)
    requires
        matches_query(terms, doc),
        from <= doc,
        0 <= from,
    ensures
        next_doc(terms, from) is Some,
    decreases doc - from,
{
    if forall|e: u32| #[trigger] matches_query(terms, e) && e >= from ==> doc <= e {
        assert(is_next(terms, from, doc));
    } else {
        let e = choose|e: u32| #[trigger] matches_query(terms, e) && e >= from && !(doc <= e);
        lemma_next_exists(terms, from, e);
    }
}

/// The documents from `from` on that a term of the query has, in ascending order.
spec fn docs_from(terms: Seq<Term>, from: int) -> Seq<u32>
    decreases 0x1_0000_0000 - from,
{
    match next_doc(terms, from) {
        None => Seq::empty(),
        Some(doc) => if doc < from {
            Seq::empty()
        } else {
            seq![doc] + docs_from(terms, doc + 1)
        },
    }
}

proof fn lemma_docs_from(terms: Seq<Term>, from: int)
    requires
        0 <= from,
    ensures
        forall|i: int, j: int|
            0 <= i < j < docs_from(terms, from).len() ==> (#[trigger] docs_from(terms, from)[i]) < (
            #[trigger] docs_from(terms, from)[j]),
        forall|d: u32| #[trigger]
            docs_from(terms, from).contains(d) <==> matches_query(terms, d) && from <= d,
    decreases 0x1_0000_0000 - from,
{
    let docs = docs_from(terms, from);
    match next_doc(terms, from) {
        None => {
            assert forall|d: u32| #[trigger] docs.contains(d) <==> matches_query(terms, d) && from
                <= d by {
                if matches_query(terms, d) && from <= d {
                    lemma_next_exists(terms, from, d);
                }
            }
        },
        Some(doc) => {
            assert(is_next(terms, from, doc));
            let rest = docs_from(terms, doc + 1);
            lemma_docs_from(terms, doc + 1);
            assert(docs == seq![doc] + rest);
            assert forall|i: int, j: int| 0 <= i < j < docs.len() implies (#[trigger] docs[i]) < (
            #[trigger] docs[j]) by {
                assert(docs[j] == rest[j - 1]);
                assert(rest.contains(rest[j - 1]));
                if i > 0 {
                    assert(docs[i] == rest[i - 1]);
                }
            }
            assert forall|d: u32| #[trigger] docs.contains(d) <==> matches_query(terms, d) && from
                <= d by {
                if docs.contains(d) {
                    let i = choose|i: int| 0 <= i < docs.len() && docs[i] == d;
                    if i > 0 {
                        assert(rest[i - 1] == d);
                        assert(rest.contains(d));
                    }
                }
                if matches_query(terms, d) && from <= d {
                    assert(doc <= d);
                    if d == doc {
                        assert(docs[0] == d);
                    } else {
                        assert(rest.contains(d));
                        let i = choose|i: int| 0 <= i < rest.len() && rest[i] == d;
                        assert(docs[i + 1] == d);
                    }
                }
            }
        },
    }
}

spec fn take_up(math: Arithmetic, seg: DiskSegment<'_>, terms: Seq<Term>, k: nat) -> spec_fn(
    Best,
    u32,
) -> Best {
    |best: Best, doc: u32| offer(best, k, scored(math, seg, terms, doc))
}

/// The scan is over: `k` documents are kept, and what is left cannot exceed the threshold.
spec fn over(math: Arithmetic, terms: Seq<Term>, k: nat, best: Best, doc: u32) -> bool {
    best.top.len() >= k && at_most(upper(math, terms, doc as int), best.threshold)
}

proof fn lemma_scan(
    math: Arithmetic,
    seg: DiskSegment<'_>,
    terms: Seq<Term>,
    k: nat,
    from: int,
    best: Best,
) -> (n: int)
    requires
        0 <= from,
    ensures
        0 <= n <= docs_from(terms, from).len(),
        run(math, seg, terms, k, from, best) == docs_from(terms, from).take(n).fold_left(
            best,
            take_up(math, seg, terms, k),
        ),
        forall|m: int|
            0 <= m < n ==> !over(
                math,
                terms,
                k,
                (#[trigger] docs_from(terms, from).take(m)).fold_left(
                    best,
                    take_up(math, seg, terms, k),
                ),
                docs_from(terms, from)[m],
            ),
        n < docs_from(terms, from).len() ==> over(
            math,
            terms,
            k,
            docs_from(terms, from).take(n).fold_left(best, take_up(math, seg, terms, k)),
            docs_from(terms, from)[n],
        ),
    decreases 0x1_0000_0000 - from,
{
    let docs = docs_from(terms, from);
    let f = take_up(math, seg, terms, k);
    assert(docs.take(0).fold_left(best, f) == best);
    match next_doc(terms, from) {
        None => 0,
        Some(doc) => {
            assert(is_next(terms, from, doc));
            let rest = docs_from(terms, doc + 1);
            assert(docs == seq![doc] + rest);
            assert(docs[0] == doc);
            if over(math, terms, k, best, doc) {
                0
            } else {
                let next = f(best, doc);
                let n = lemma_scan(math, seg, terms, k, doc + 1, next);
                assert forall|m: int| 1 <= m <= docs.len() implies (#[trigger] docs.take(
                    m,
                )).fold_left(best, f) == rest.take(m - 1).fold_left(next, f) by {
                    docs.take(m).lemma_fold_left_split(best, f, 1);
                    assert(docs.take(m).subrange(0, 1) =~= seq![doc]);
                    assert(docs.take(m).subrange(1, m) =~= rest.take(m - 1));
                    assert(seq![doc].drop_last() =~= Seq::<u32>::empty());
                    reveal_with_fuel(Seq::fold_left, 2);
                    assert(seq![doc].fold_left(best, f) == next);
                }
                assert forall|m: int| 0 <= m < n + 1 implies !over(
                    math,
                    terms,
                    k,
                    (#[trigger] docs.take(m)).fold_left(best, f),
                    docs[m],
                ) by {
                    if m > 0 {
                        assert(docs[m] == rest[m - 1]);
                        assert(!over(
                            math,
                            terms,
                            k,
                            rest.take(m - 1).fold_left(next, f),
                            rest[m - 1],
                        ));
                    }
                }
                if n + 1 < docs.len() {
                    assert(docs[n + 1] == rest[n]);
                }
                n + 1
            }
        },
    }
}

/// What a search keeps, whatever the arithmetic. `docs` are the documents that have one of the
/// words, in ascending order; the first `n` of them are met, each with its score, and the others are
/// not: the scan is over where `k` are kept and the most that the words can add which are left is no
/// more than the threshold, and not before.
pub proof fn law_scan(
    math: Arithmetic,
    seg: DiskSegment<'_>,
    words: Seq<Seq<u8>>,
    k: nat,
) -> (r: (Seq<u32>, int))
    requires
        k > 0,
        words.len() <= usize::MAX,
    ensures
        forall|i: int, j: int|
            0 <= i < j < r.0.len() ==> (#[trigger] r.0[i]) < (#[trigger] r.0[j]),
        forall|d: u32| #[trigger] r.0.contains(d) <==> has_word(seg, words, d),
        0 <= r.1 <= r.0.len(),
        ({
            let terms = query_terms_of(math, seg, words);
            let meet = |best: Best, d: u32| offer(best, k, scored(math, seg, terms, d));
            &&& kept(math, seg, words, k) == r.0.take(r.1).fold_left(no_best(), meet).top
            &&& forall|m: int|
                0 <= m < r.1 ==> {
                    let best = (#[trigger] r.0.take(m)).fold_left(no_best(), meet);
                    best.top.len() < k || !at_most(
                        upper(math, terms, r.0[m] as int),
                        best.threshold,
                    )
                }
            &&& r.1 < r.0.len() ==> {
                let best = r.0.take(r.1).fold_left(no_best(), meet);
                best.top.len() >= k && at_most(upper(math, terms, r.0[r.1] as int), best.threshold)
            }
        }),
{
    let terms = query_terms_of(math, seg, words);
    let docs = docs_from(terms, 0);
    let meet = |best: Best, d: u32| offer(best, k, scored(math, seg, terms, d));
    assert(meet =~= take_up(math, seg, terms, k));
    lemma_docs_from(terms, 0);
    let n = lemma_scan(math, seg, terms, k, 0, no_best());
    assert forall|d: u32| #[trigger] docs.contains(d) <==> has_word(seg, words, d) by {
        lemma_query_matches(math, seg, words, d);
    }
    assert forall|m: int| 0 <= m < n implies {
        let best = (#[trigger] docs.take(m)).fold_left(no_best(), meet);
        best.top.len() < k || !at_most(upper(math, terms, docs[m] as int), best.threshold)
    } by {
        assert(!over(math, terms, k, docs.take(m).fold_left(no_best(), meet), docs[m]));
    }
    (docs, n)
}

/// What a search may return: the documents that it keeps, none before one that scores above it.
pub proof fn law_segment_results(
    math: Arithmetic,
    seg: DiskSegment<'_>,
    words: Seq<Seq<u8>>,
    k: nat,
    part: Seq<ScoredDoc>,
)
    ensures
        segment_results(math, seg, words, k, part) <==> part.to_multiset() == kept(
            math,
            seg,
            words,
            k,
        ).to_multiset() && forall|i: int, j: int|
            0 <= i < j < part.len() ==> !above(
                (#[trigger] part[j]).score,
                (#[trigger] part[i]).score,
            ),
{
}

/// A search has only numbers to sort where the words can only add numbers, and the documents that
/// are kept have numbers for scores.
pub proof fn law_numeric(math: Arithmetic, seg: DiskSegment<'_>, words: Seq<Seq<u8>>, k: nat)
    requires
        forall|p: int|
            0 <= p < words.len() && value_of(seg.rows(), #[trigger] words[p]) is Some ==> {
                let list = seg.postings_of(words[p]);
                is_number(
                    (math.bound)(
                        (math.weigh)(seg.meta.num_docs, list.len() as u64),
                        greatest_tf(list),
                        seg.meta.avg_doc_len,
                    ),
                )
            },
        forall|i: int|
            0 <= i < kept(math, seg, words, k).len() ==> is_number(
                (#[trigger] kept(math, seg, words, k)[i]).score,
            ),
    ensures
        numeric(math, seg, words, k),
{
    lemma_known(math, seg, words);
    let terms = found(math, seg, words);
    assert forall|i: int| 0 <= i < terms.len() implies is_number((#[trigger] terms[i]).bound) by {
        let p = known(seg, words)[i];
        assert(value_of(seg.rows(), words[p]) is Some);
    }
}

} // verus!
