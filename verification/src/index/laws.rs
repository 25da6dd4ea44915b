//! What holds of an index of several segments.
use vstd::prelude::*;
use crate::index::reader::numeric_results;
use crate::bm25::score::{falling_key, is_number, rank};
use crate::bm25::laws::{
    adds_up, has_word, law_large_k_returns_all, law_number_of_results,
    law_results_are_different, law_results_have_a_word, law_scores_not_negative,
    law_search_keeps_the_best, lesser, match_count, parts_bounded,
};
use crate::bm25::scan::segment_results;
use crate::bm25::scan::{can_search, in_list, kept, query_terms_of, scored};
use crate::bm25::score::{above, Arithmetic, ScoredDoc};
use crate::count::{lemma_at_least, lemma_at_most};
use crate::index::reader::{
    all_results, best_results, doc_count, first_doc, lemma_count_monotone, lies_in, low_count,
    numbered_from, result_keys, searched,
};
use crate::order::{law_some_order, lemma_sorts_onto, order_of, taken_before};
use crate::segment::disk::{DiskSegment, SegmentBytes};
use crate::segment::files::{Corpus, SegmentFiles};
use crate::segment::mem::{token_bytes, MemSegment};
use crate::segment::readback::{law_added_document_is_indexed, law_flush_reads_back};
use crate::terms::{has_key, lemma_value_at, value_of};

verus! {

proof fn lemma_first_doc_monotone(segs: Seq<DiskSegment<'_>>, i: int, j: int)
    requires
        0 <= i < j,
    ensures
        first_doc(segs, i) + low_count(segs[i]) <= first_doc(segs, j),
    decreases j - i,
{
    if i < j - 1 {
        lemma_first_doc_monotone(segs, i, j - 1);
    }
}

/// A document of the index is one of one segment.
pub proof fn law_one_segment(segs: Seq<DiskSegment<'_>>, i: int, j: int, doc: int)
    requires
        lies_in(segs, i, doc),
        lies_in(segs, j, doc),
    ensures
        i == j,
{
    if i < j {
        lemma_first_doc_monotone(segs, i, j);
    } else if j < i {
        lemma_first_doc_monotone(segs, j, i);
    }
}

/// Where the segments are not too large for 32-bit numbers, each document of a segment is found
/// under its number in the index, and each number below the number of documents is that of one.
pub proof fn law_every_document_is_found(segs: Seq<DiskSegment<'_>>, doc: int)
    requires
        doc_count(segs) <= u32::MAX,
    ensures
        0 <= doc < doc_count(segs) <==> exists|i: int| lies_in(segs, i, doc),
{
    lemma_counts_agree(segs, segs.len() as int);
    assert(segs.take(segs.len() as int) =~= segs);
    if 0 <= doc < doc_count(segs) {
        let i = lemma_find(segs, doc, segs.len() as int);
        assert(lies_in(segs, i, doc));
    }
    if exists|i: int| lies_in(segs, i, doc) {
        let i = choose|i: int| lies_in(segs, i, doc);
        lemma_first_doc_monotone(segs, i, segs.len() as int);
        lemma_first_doc_not_negative(segs, i);
    }
}

proof fn lemma_first_doc_not_negative(segs: Seq<DiskSegment<'_>>, i: int)
    ensures
        0 <= first_doc(segs, i),
    decreases i,
{
    if i > 0 {
        lemma_first_doc_not_negative(segs, i - 1);
    }
}

proof fn lemma_counts_agree(segs: Seq<DiskSegment<'_>>, n: int)
    requires
        doc_count(segs) <= u32::MAX,
        0 <= n <= segs.len(),
    ensures
        first_doc(segs, n) == doc_count(segs.take(n)),
    decreases n,
{
    if n > 0 {
        lemma_counts_agree(segs, n - 1);
        assert(segs.take(n).drop_last() =~= segs.take(n - 1));
        lemma_count_monotone(segs, n);
    }
}

proof fn lemma_find(segs: Seq<DiskSegment<'_>>, doc: int, n: int) -> (i: int)
    requires
        0 <= n <= segs.len(),
        0 <= doc < first_doc(segs, n),
    ensures
        lies_in(segs, i, doc),
    decreases n,
{
    if doc < first_doc(segs, n - 1) {
        lemma_find(segs, doc, n - 1)
    } else {
        n - 1
    }
}

/// The results of a search over all segments: at most `k`, best first, each from one of the
/// segments, and none that was left out is better than one that is there.
pub proof fn law_best_results_first(results: Seq<ScoredDoc>, k: nat)
    requires
        results.len() <= usize::MAX,
    ensures
        best_results(results, k).len() == (if k < results.len() {
            k
        } else {
            results.len()
        }),
        forall|i: int, j: int|
            0 <= i < j < best_results(results, k).len() ==> !above(
                (#[trigger] best_results(results, k)[j]).score,
                (#[trigger] best_results(results, k)[i]).score,
            ),
        forall|i: int|
            0 <= i < best_results(results, k).len() ==> results.contains(
                #[trigger] best_results(results, k)[i],
            ),
        forall|p: int, i: int|
            0 <= p < results.len() && 0 <= i < best_results(results, k).len()
                && !best_results(results, k).contains(#[trigger] results[p]) ==> !above(
                results[p].score,
                (#[trigger] best_results(results, k)[i]).score,
            ),
{
    let keys = result_keys(results);
    law_some_order(keys);
    let order = order_of(keys);
    let best = best_results(results, k);
    assert forall|i: int, j: int| 0 <= i < j < best.len() implies !above(
        (#[trigger] best[j]).score,
        (#[trigger] best[i]).score,
    ) by {
        assert(taken_before(keys, order[i], order[j]));
    }
    assert forall|i: int| 0 <= i < best.len() implies results.contains(#[trigger] best[i]) by {
        assert(best[i] == results[order[i] as int]);
    }
    assert forall|p: int, i: int|
        0 <= p < results.len() && 0 <= i < best.len() && !best.contains(
            #[trigger] results[p],
        ) implies !above(results[p].score, (#[trigger] best[i]).score) by {
        let q = lemma_sorts_onto(keys, order, p as usize);
        if q < best.len() {
            assert(best[q] == results[p]);
        }
        assert(taken_before(keys, order[i], order[q]));
    }
}

/// Where a result comes from.
proof fn lemma_result_source(
    segs: Seq<DiskSegment<'_>>,
    parts: Seq<Seq<ScoredDoc>>,
    r: ScoredDoc,
) -> (at: (int, int))
    requires
        all_results(segs, parts).contains(r),
    ensures
        0 <= at.0 < parts.len(),
        0 <= at.1 < parts[at.0].len(),
        r == numbered_from(parts[at.0], first_doc(segs, at.0))[at.1],
    decreases parts.len(),
{
    let all = all_results(segs, parts);
    let p = choose|p: int| 0 <= p < all.len() && all[p] == r;
    let front = all_results(segs, parts.drop_last());
    if p < front.len() {
        assert(front[p] == r);
        let at = lemma_result_source(segs, parts.drop_last(), r);
        assert(parts.drop_last()[at.0] == parts[at.0]);
        at
    } else {
        (parts.len() - 1, p - front.len())
    }
}

/// Every result of a search is the number in the index of a document that has one of the words,
/// with the score that it has in its segment.
pub proof fn law_results_are_documents(
    math: Arithmetic,
    segs: Seq<DiskSegment<'_>>,
    words: Seq<Seq<u8>>,
    k: nat,
    parts: Seq<Seq<ScoredDoc>>,
    r: ScoredDoc,
) -> (i: int)
    requires
        forall|i: int| 0 <= i < segs.len() ==> can_search(#[trigger] segs[i], words),
        words.len() <= usize::MAX,
        doc_count(segs) <= u32::MAX,
        all_results(segs, parts).len() <= usize::MAX,
        searched(math, segs, words, k, parts),
        best_results(all_results(segs, parts), k).contains(r),
    ensures
        lies_in(segs, i, r.doc_id as int),
        has_word(segs[i], words, (r.doc_id - first_doc(segs, i)) as u32),
        r.score == scored(
            math,
            segs[i],
            query_terms_of(math, segs[i], words),
            (r.doc_id - first_doc(segs, i)) as u32,
        ).score,
{
    let all = all_results(segs, parts);
    law_best_results_first(all, k);
    let best = best_results(all, k);
    let b = choose|b: int| 0 <= b < best.len() && best[b] == r;
    assert(all.contains(best[b]));
    let at = lemma_result_source(segs, parts, r);
    let seg = segs[at.0];
    let part = parts[at.0];
    let d = part[at.1];
    assert(segment_results(math, seg, words, k, part));
    let top = kept(math, seg, words, k);
    vstd::seq_lib::to_multiset_contains(part, d);
    vstd::seq_lib::to_multiset_contains(top, d);
    assert(part.contains(d));
    law_results_have_a_word(math, seg, words, k, d);
    lemma_counts_agree(segs, at.0 + 1);
    lemma_counts_agree(segs, at.0);
    lemma_count_monotone(segs, at.0 + 1);
    lemma_first_doc_not_negative(segs, at.0);
    assert(segs.take(at.0 + 1).drop_last() =~= segs.take(at.0));
    at.0
}

/// A valid segment can be searched for any words.
pub proof fn law_valid_segment_is_searched(seg: DiskSegment<'_>, words: Seq<Seq<u8>>)
    requires
        seg.valid(),
    ensures
        can_search(seg, words),
{
    assert forall|i: int| 0 <= i < words.len() implies (value_of(
        seg.rows(),
        #[trigger] words[i],
    ) matches Some(offset) ==> seg.list_sound(offset)) by {
        let rows = seg.rows();
        if has_key(rows, words[i]) {
            let j = choose|j: int| 0 <= j < rows.len() && (#[trigger] rows[j]).0 == words[i];
            lemma_value_at(rows, j);
            assert(seg.list_sound(rows[j].1));
        }
    }
}

/// A document that was added, flushed and opened is found by a search for any of its tokens, with
/// its score, where `k` leaves room for every document that has one of the words.
pub proof fn law_added_document_is_found<S, M>(
    before: MemSegment,
    mem: MemSegment,
    url: Seq<char>,
    tokens: Seq<String>,
    crawl_ts: u64,
    content_hash: u64,
    seg_id: u64,
    files: SegmentFiles,
    max_score: S,
    mean: M,
    bytes: SegmentBytes<'_>,
    seg: DiskSegment<'_>,
    math: Arithmetic,
    words: Seq<Seq<u8>>,
    token: Seq<u8>,
    k: nat,
) where S: Fn(Corpus, u64, u8) -> u32, M: Fn(u64, u64) -> u64
    requires
        mem.wf(),
        before.added(mem, url, tokens, crawl_ts, content_hash),
        mem.flushed(seg_id, files, max_score, mean),
        bytes.holds(files),
        seg.opened(bytes),
        words.len() <= usize::MAX,
        words.contains(token),
        token_bytes(tokens).contains(token),
        k >= match_count(seg, words),
    ensures
        kept(math, seg, words, k).contains(
            scored(math, seg, query_terms_of(math, seg, words), before.next_doc_id),
        ),
{
    let doc = before.next_doc_id;
    law_added_document_is_indexed(before, mem, url, tokens, crawl_ts, content_hash, token);
    law_flush_reads_back(mem, seg_id, files, max_score, mean, bytes, seg);
    let list = seg.postings_of(token);
    assert(list == mem.postings_of(token));
    assert(list[list.len() - 1].0 == doc);
    assert(in_list(list, doc));
    let i = choose|i: int| 0 <= i < words.len() && words[i] == token;
    assert(in_list(seg.postings_of(words[i]), doc));
    assert(has_word(seg, words, doc));
    law_large_k_returns_all(
        math,
        seg,
        words,
        k,
        scored(math, seg, query_terms_of(math, seg, words), doc),
    );
}

// ---------------------------------------------------------------------------------------------
// The best of all segments
// ---------------------------------------------------------------------------------------------

/// Number of documents of the index that have one of the words.
pub open spec fn total_matches(segs: Seq<DiskSegment<'_>>, words: Seq<Seq<u8>>) -> nat
    decreases segs.len(),
{
    if segs.len() == 0 {
        0
    } else {
        total_matches(segs.drop_last(), words) + match_count(segs.last(), words)
    }
}

/// A document of segment `i`, under its number in the index and with its score.
pub open spec fn scored_in_index(
    math: Arithmetic,
    segs: Seq<DiskSegment<'_>>,
    words: Seq<Seq<u8>>,
    i: int,
    doc: u32,
) -> ScoredDoc {
    ScoredDoc {
        doc_id: (doc + first_doc(segs, i)) as u32,
        score: scored(math, segs[i], query_terms_of(math, segs[i], words), doc).score,
    }
}

/// The results of the first `n` segments are as many as match, or `k` at least.
proof fn lemma_all_results_len(
    math: Arithmetic,
    segs: Seq<DiskSegment<'_>>,
    words: Seq<Seq<u8>>,
    k: nat,
    parts: Seq<Seq<ScoredDoc>>,
    n: int,
)
    requires
        words.len() <= usize::MAX,
        searched(math, segs, words, k, parts),
        0 <= n <= segs.len(),
    ensures
        all_results(segs, parts.take(n)).len() == total_matches(segs.take(n), words) || (
        all_results(segs, parts.take(n)).len() >= k && total_matches(segs.take(n), words) >= k),
    decreases n,
{
    if n > 0 {
        lemma_all_results_len(math, segs, words, k, parts, n - 1);
        assert(parts.take(n).drop_last() =~= parts.take(n - 1));
        assert(segs.take(n).drop_last() =~= segs.take(n - 1));
        assert(segment_results(math, segs[n - 1], words, k, parts[n - 1]));
        law_results_are_different(math, segs[n - 1], words, k, parts[n - 1]);
    }
}

/// What a segment returns is among the results of all.
proof fn lemma_among_all(
    segs: Seq<DiskSegment<'_>>,
    parts: Seq<Seq<ScoredDoc>>,
    i: int,
    p: int,
)
    requires
        0 <= i < parts.len(),
        0 <= p < parts[i].len(),
    ensures
        all_results(segs, parts).contains(numbered_from(parts[i], first_doc(segs, i))[p]),
    decreases parts.len(),
{
    let front = all_results(segs, parts.drop_last());
    let all = all_results(segs, parts);
    let e = numbered_from(parts[i], first_doc(segs, i))[p];
    if i == parts.len() - 1 {
        assert(all[front.len() + p] == e);
    } else {
        assert(parts.drop_last()[i] == parts[i]);
        lemma_among_all(segs, parts.drop_last(), i, p);
        let q = choose|q: int| 0 <= q < front.len() && front[q] == e;
        assert(all[q] == e);
    }
}

/// Results of a segment are documents of it.
proof fn lemma_part_in_range(
    math: Arithmetic,
    segs: Seq<DiskSegment<'_>>,
    words: Seq<Seq<u8>>,
    k: nat,
    parts: Seq<Seq<ScoredDoc>>,
    i: int,
    p: int,
)
    requires
        forall|i: int| 0 <= i < segs.len() ==> can_search(#[trigger] segs[i], words),
        words.len() <= usize::MAX,
        doc_count(segs) <= u32::MAX,
        searched(math, segs, words, k, parts),
        0 <= i < segs.len(),
        0 <= p < parts[i].len(),
    ensures
        0 <= first_doc(segs, i),
        parts[i][p].doc_id < segs[i].meta.num_docs,
        first_doc(segs, i) + segs[i].meta.num_docs == first_doc(segs, i + 1) <= u32::MAX,
        kept(math, segs[i], words, k).contains(parts[i][p]),
        numbered_from(parts[i], first_doc(segs, i))[p] == scored_in_index(
            math,
            segs,
            words,
            i,
            parts[i][p].doc_id,
        ),
        has_word(segs[i], words, parts[i][p].doc_id),
{
    let d = parts[i][p];
    assert(segment_results(math, segs[i], words, k, parts[i]));
    law_results_are_different(math, segs[i], words, k, parts[i]);
    assert(parts[i].contains(d));
    law_results_have_a_word(math, segs[i], words, k, d);
    lemma_counts_agree(segs, i + 1);
    lemma_counts_agree(segs, i);
    lemma_count_monotone(segs, i + 1);
    lemma_first_doc_not_negative(segs, i);
    assert(segs.take(i + 1).drop_last() =~= segs.take(i));
}

/// The results of the first `n` segments are different documents of these.
proof fn lemma_all_different(
    math: Arithmetic,
    segs: Seq<DiskSegment<'_>>,
    words: Seq<Seq<u8>>,
    k: nat,
    parts: Seq<Seq<ScoredDoc>>,
    n: int,
)
    requires
        forall|i: int| 0 <= i < segs.len() ==> can_search(#[trigger] segs[i], words),
        words.len() <= usize::MAX,
        doc_count(segs) <= u32::MAX,
        searched(math, segs, words, k, parts),
        0 <= n <= segs.len(),
    ensures
        forall|p: int|
            0 <= p < all_results(segs, parts.take(n)).len() ==> (#[trigger] all_results(
                segs,
                parts.take(n),
            )[p]).doc_id < first_doc(segs, n),
        forall|p: int, q: int|
            0 <= p < q < all_results(segs, parts.take(n)).len() ==> (#[trigger] all_results(
                segs,
                parts.take(n),
            )[p]).doc_id != (#[trigger] all_results(segs, parts.take(n))[q]).doc_id,
    decreases n,
{
    if n > 0 {
        lemma_all_different(math, segs, words, k, parts, n - 1);
        assert(parts.take(n).drop_last() =~= parts.take(n - 1));
        let front = all_results(segs, parts.take(n - 1));
        let part = parts[n - 1];
        let own = numbered_from(part, first_doc(segs, n - 1));
        let all = all_results(segs, parts.take(n));
        assert(all == front + own);
        lemma_first_doc_monotone(segs, n - 1, n);
        assert(segment_results(math, segs[n - 1], words, k, part));
        law_results_are_different(math, segs[n - 1], words, k, part);
        let docs = part.map_values(|d: ScoredDoc| d.doc_id);
        assert forall|p: int| 0 <= p < all.len() implies (#[trigger] all[p]).doc_id < first_doc(
            segs,
            n,
        ) && (p >= front.len() ==> all[p].doc_id == docs[p - front.len()] + first_doc(
            segs,
            n - 1,
        )) by {
            if p >= front.len() {
                lemma_part_in_range(math, segs, words, k, parts, n - 1, p - front.len());
            } else {
                assert(front[p].doc_id < first_doc(segs, n - 1));
            }
        }
        assert forall|p: int, q: int| 0 <= p < q < all.len() implies (#[trigger] all[p]).doc_id != (
        #[trigger] all[q]).doc_id by {
            if q < front.len() {
                assert(front[p].doc_id != front[q].doc_id);
            } else if p < front.len() {
                assert(front[p].doc_id < first_doc(segs, n - 1));
            } else {
                assert(docs[p - front.len()] != docs[q - front.len()]);
            }
        }
    }
}

/// Whatever the arithmetic, a search over all segments returns `k` documents, or as many as have
/// one of the words if there are fewer; and they are different documents.
pub proof fn law_number_of_index_results(
    math: Arithmetic,
    segs: Seq<DiskSegment<'_>>,
    words: Seq<Seq<u8>>,
    k: nat,
    parts: Seq<Seq<ScoredDoc>>,
)
    requires
        forall|i: int| 0 <= i < segs.len() ==> can_search(#[trigger] segs[i], words),
        words.len() <= usize::MAX,
        doc_count(segs) <= u32::MAX,
        all_results(segs, parts).len() <= usize::MAX,
        searched(math, segs, words, k, parts),
    ensures
        best_results(all_results(segs, parts), k).len() == lesser(k, total_matches(segs, words)),
        best_results(all_results(segs, parts), k).map_values(
            |d: ScoredDoc| d.doc_id,
        ).no_duplicates(),
{
    let all = all_results(segs, parts);
    let best = best_results(all, k);
    let docs = best.map_values(|d: ScoredDoc| d.doc_id);
    assert(parts.take(segs.len() as int) =~= parts);
    assert(segs.take(segs.len() as int) =~= segs);
    law_best_results_first(all, k);
    lemma_all_results_len(math, segs, words, k, parts, segs.len() as int);
    lemma_all_different(math, segs, words, k, parts, segs.len() as int);
    let keys = result_keys(all);
    law_some_order(keys);
    let order = order_of(keys);
    assert forall|i: int, j: int| 0 <= i < docs.len() && 0 <= j < docs.len() && i != j implies docs[i]
        != docs[j] by {
        if i < j {
            assert(taken_before(keys, order[i], order[j]));
        } else {
            assert(taken_before(keys, order[j], order[i]));
        }
        let (p, q) = (order[i] as int, order[j] as int);
        assert(best[i] == all[p] && best[j] == all[q]);
        if p < q {
            assert(all[p].doc_id != all[q].doc_id);
        } else {
            assert(all[q].doc_id != all[p].doc_id);
        }
    }
}

/// A search over all segments returns the best documents of the index: one that has a word of the
/// query and is not returned scores no better than any that is.
///
/// The arithmetic is one for which the same holds of each segment.
pub proof fn law_index_search_finds_the_best(
    math: Arithmetic,
    segs: Seq<DiskSegment<'_>>,
    words: Seq<Seq<u8>>,
    k: nat,
    parts: Seq<Seq<ScoredDoc>>,
    i: int,
    doc: u32,
    j: int,
)
    requires
        k > 0,
        forall|i: int| 0 <= i < segs.len() ==> can_search(#[trigger] segs[i], words),
        words.len() <= usize::MAX,
        doc_count(segs) <= u32::MAX,
        all_results(segs, parts).len() <= usize::MAX,
        searched(math, segs, words, k, parts),
        adds_up(math),
        forall|i: int|
            0 <= i < segs.len() ==> parts_bounded(
                math,
                #[trigger] segs[i],
                query_terms_of(math, segs[i], words),
            ),
        0 <= i < segs.len(),
        has_word(segs[i], words, doc),
        !best_results(all_results(segs, parts), k).contains(
            scored_in_index(math, segs, words, i, doc),
        ),
        0 <= j < best_results(all_results(segs, parts), k).len(),
    ensures
        scored_in_index(math, segs, words, i, doc).score <= best_results(
            all_results(segs, parts),
            k,
        )[j].score,
{
    let all = all_results(segs, parts);
    let best = best_results(all, k);
    let e = scored_in_index(math, segs, words, i, doc);
    let local = scored(math, segs[i], query_terms_of(math, segs[i], words), doc);
    let part = parts[i];
    let own = numbered_from(part, first_doc(segs, i));
    law_best_results_first(all, k);
    law_number_of_index_results(math, segs, words, k, parts);
    assert(parts_bounded(math, segs[i], query_terms_of(math, segs[i], words)));
    law_scores_not_negative(math, segs[i], query_terms_of(math, segs[i], words), doc);
    // The score of what is returned is not negative either.
    assert(all.contains(best[j]));
    let at = lemma_result_source(segs, parts, best[j]);
    lemma_part_in_range(math, segs, words, k, parts, at.0, at.1);
    assert(parts_bounded(math, segs[at.0], query_terms_of(math, segs[at.0], words)));
    law_scores_not_negative(
        math,
        segs[at.0],
        query_terms_of(math, segs[at.0], words),
        parts[at.0][at.1].doc_id,
    );
    assert(segment_results(math, segs[i], words, k, part));
    law_results_are_different(math, segs[i], words, k, part);
    if part.contains(local) {
        let p = choose|p: int| 0 <= p < part.len() && part[p] == local;
        lemma_among_all(segs, parts, i, p);
        assert(own[p] == e);
        let q = choose|q: int| 0 <= q < all.len() && all[q] == e;
        assert(!above(all[q].score, best[j].score));
    } else if e.score > best[j].score {
        law_search_keeps_the_best(math, segs[i], words, k);
        law_number_of_results(math, segs[i], words, k);
        let top = kept(math, segs[i], words, k);
        let docs = best.map_values(|d: ScoredDoc| d.doc_id);
        let mine = own.map_values(|d: ScoredDoc| d.doc_id);
        let s = mine.push(best[j].doc_id);
        // Each of the `k` results of the segment is returned, and so is the one at `j`.
        assert forall|p: int| 0 <= p < own.len() implies best.contains(#[trigger] own[p])
            && own[p].score > best[j].score by {
            lemma_part_in_range(math, segs, words, k, parts, i, p);
            let a = choose|a: int| 0 <= a < top.len() && top[a] == part[p];
            assert(local.score <= top[a].score);
            law_scores_not_negative(
                math,
                segs[i],
                query_terms_of(math, segs[i], words),
                part[p].doc_id,
            );
            lemma_among_all(segs, parts, i, p);
            let q = choose|q: int| 0 <= q < all.len() && all[q] == own[p];
            if !best.contains(all[q]) {
                assert(!above(all[q].score, best[j].score));
            }
        }
        let returned = |d: u32| docs.contains(d);
        assert forall|p: int| 0 <= p < s.len() implies (#[trigger] s[p]) < 0x1_0000_0000 && returned(
            s[p],
        ) by {
            if p < own.len() {
                assert(best.contains(own[p]));
                let b = choose|b: int| 0 <= b < best.len() && best[b] == own[p];
                assert(docs[b] == s[p]);
            } else {
                assert(docs[j] == s[p]);
            }
        }
        assert(s.no_duplicates()) by {
            let locals = part.map_values(|d: ScoredDoc| d.doc_id);
            assert forall|p: int, q: int| 0 <= p < q < s.len() implies s[p] != s[q] by {
                lemma_part_in_range(math, segs, words, k, parts, i, p);
                if q < own.len() {
                    lemma_part_in_range(math, segs, words, k, parts, i, q);
                    assert(locals[p] != locals[q]);
                } else {
                    assert(best.contains(own[p]));
                    let b = choose|b: int| 0 <= b < best.len() && best[b] == own[p];
                    assert(b != j);
                    assert(docs[b] != docs[j]);
                }
            }
        }
        lemma_at_most(returned, 0x1_0000_0000, s);
        lemma_at_least(returned, 0x1_0000_0000, docs);
    }
}

proof fn lemma_nothing_found(
    math: Arithmetic,
    segs: Seq<DiskSegment<'_>>,
    k: nat,
    parts: Seq<Seq<ScoredDoc>>,
    n: int,
)
    requires
        searched(math, segs, Seq::empty(), k, parts),
        0 <= n <= segs.len(),
    ensures
        all_results(segs, parts.take(n)).len() == 0,
    decreases n,
{
    if n > 0 {
        lemma_nothing_found(math, segs, k, parts, n - 1);
        let seg = segs[n - 1];
        let none = Seq::<Seq<u8>>::empty();
        assert(parts.take(n).drop_last() =~= parts.take(n - 1));
        assert(segment_results(math, seg, none, k, parts[n - 1]));
        law_results_are_different(math, seg, none, k, parts[n - 1]);
        lemma_at_least(|doc: u32| has_word(seg, none, doc), 0x1_0000_0000, Seq::empty());
    }
}

/// A search without words finds nothing.
pub proof fn law_no_words_no_results(
    math: Arithmetic,
    segs: Seq<DiskSegment<'_>>,
    k: nat,
    parts: Seq<Seq<ScoredDoc>>,
)
    requires
        searched(math, segs, Seq::empty(), k, parts),
    ensures
        best_results(all_results(segs, parts), k) == Seq::<ScoredDoc>::empty(),
{
    assert(parts.take(segs.len() as int) =~= parts);
    lemma_nothing_found(math, segs, k, parts, segs.len() as int);
    law_best_results_first(all_results(segs, parts), k);
    assert(best_results(all_results(segs, parts), k) =~= Seq::empty());
}

// ---------------------------------------------------------------------------------------------
// Numbers of documents, and putting results together
// ---------------------------------------------------------------------------------------------

/// The number of documents of an index is the sum of those of its segments.
pub proof fn law_doc_count(segs: Seq<DiskSegment<'_>>)
    ensures
        doc_count(segs) == segs.fold_left(0, |n: int, s: DiskSegment<'_>| n + s.meta.num_docs),
    decreases segs.len(),
{
    if segs.len() > 0 {
        law_doc_count(segs.drop_last());
    }
}

/// The first document of a segment has for its number the sum of the documents of the segments
/// before it, and a document of the index lies in the segment whose numbers it is among.
pub proof fn law_first_doc(segs: Seq<DiskSegment<'_>>, i: int, doc: int)
    requires
        doc_count(segs) <= u32::MAX,
        0 <= i < segs.len(),
    ensures
        first_doc(segs, i) == segs.take(i).fold_left(
            0,
            |n: int, s: DiskSegment<'_>| n + s.meta.num_docs,
        ),
        first_doc(segs, i + 1) == first_doc(segs, i) + segs[i].meta.num_docs <= u32::MAX,
        lies_in(segs, i, doc) <==> first_doc(segs, i) <= doc < first_doc(segs, i)
            + segs[i].meta.num_docs,
{
    lemma_counts_agree(segs, i);
    lemma_counts_agree(segs, i + 1);
    lemma_count_monotone(segs, i + 1);
    lemma_first_doc_not_negative(segs, i);
    assert(segs.take(i + 1).drop_last() =~= segs.take(i));
    law_doc_count(segs.take(i));
}

/// What a document lies in is one of the segments.
pub proof fn law_lies_in(segs: Seq<DiskSegment<'_>>, i: int, doc: int)
    ensures
        lies_in(segs, i, doc) ==> 0 <= i < segs.len(),
{
}

/// The results of all segments: those of each, one segment after the other, under the numbers that
/// the documents have in the index and with the scores that they have in the segment.
pub proof fn law_all_results(segs: Seq<DiskSegment<'_>>, parts: Seq<Seq<ScoredDoc>>)
    ensures
        all_results(segs, parts) == Seq::new(
            parts.len(),
            |i: int|
                parts[i].map_values(
                    |r: ScoredDoc|
                        ScoredDoc {
                            doc_id: (r.doc_id + first_doc(segs, i)) as u32,
                            score: r.score,
                        },
                ),
        ).flatten(),
    decreases parts.len(),
{
    let moved = Seq::new(
        parts.len(),
        |i: int|
            parts[i].map_values(
                |r: ScoredDoc|
                    ScoredDoc { doc_id: (r.doc_id + first_doc(segs, i)) as u32, score: r.score },
            ),
    );
    moved.lemma_flatten_and_flatten_alt_are_equivalent();
    if parts.len() > 0 {
        let front = parts.drop_last();
        law_all_results(segs, front);
        let less = Seq::new(
            front.len(),
            |i: int|
                front[i].map_values(
                    |r: ScoredDoc|
                        ScoredDoc {
                            doc_id: (r.doc_id + first_doc(segs, i)) as u32,
                            score: r.score,
                        },
                ),
        );
        less.lemma_flatten_and_flatten_alt_are_equivalent();
        assert(moved.drop_last() =~= less);
        assert(moved.last() =~= numbered_from(parts.last(), first_doc(segs, parts.len() - 1)));
    }
}

/// The results that are returned: `order` takes all results by score, the highest first, and among
/// equal scores as they stood; the first `k` of these are returned.
pub proof fn law_best_results(results: Seq<ScoredDoc>, k: nat) -> (order: Seq<usize>)
    requires
        results.len() <= usize::MAX,
    ensures
        order.len() == results.len(),
        order.no_duplicates(),
        forall|i: int| 0 <= i < order.len() ==> (#[trigger] order[i]) < results.len(),
        forall|i: int, j: int|
            0 <= i < j < order.len() ==> {
                let (a, b) = (#[trigger] order[i], #[trigger] order[j]);
                ||| rank(results[a as int].score) > rank(results[b as int].score)
                ||| rank(results[a as int].score) == rank(results[b as int].score) && a < b
            },
        best_results(results, k).len() == vstd::math::min(k as int, results.len() as int),
        forall|i: int|
            0 <= i < best_results(results, k).len() ==> #[trigger] best_results(results, k)[i]
                == results[order[i] as int],
{
    let keys = result_keys(results);
    law_some_order(keys);
    let order = order_of(keys);
    assert forall|i: int, j: int| 0 <= i < j < order.len() implies {
        let (a, b) = (#[trigger] order[i], #[trigger] order[j]);
        ||| rank(results[a as int].score) > rank(results[b as int].score)
        ||| rank(results[a as int].score) == rank(results[b as int].score) && a < b
    } by {
        assert(taken_before(keys, order[i], order[j]));
        assert(keys[order[i] as int] == falling_key(results[order[i] as int].score));
        assert(keys[order[j] as int] == falling_key(results[order[j] as int].score));
    }
    assert forall|i: int, j: int| 0 <= i < order.len() && 0 <= j < order.len() && i != j implies order[i]
        != order[j] by {
        if i < j {
            assert(taken_before(keys, order[i], order[j]));
        } else {
            assert(taken_before(keys, order[j], order[i]));
        }
    }
    order
}

/// What the searches of the segments may return, each for itself.
pub proof fn law_searched(
    math: Arithmetic,
    segs: Seq<DiskSegment<'_>>,
    words: Seq<Seq<u8>>,
    k: nat,
    parts: Seq<Seq<ScoredDoc>>,
)
    ensures
        searched(math, segs, words, k, parts) <==> parts.len() == segs.len() && forall|i: int|
            0 <= i < segs.len() ==> segment_results(math, segs[i], words, k, #[trigger] parts[i]),
{
}

/// As many documents of the index have one of the words as documents of all its segments.
pub proof fn law_total_matches(segs: Seq<DiskSegment<'_>>, words: Seq<Seq<u8>>)
    ensures
        total_matches(segs, words) == segs.fold_left(
            0,
            |n: int, s: DiskSegment<'_>| n + match_count(s, words),
        ),
    decreases segs.len(),
{
    if segs.len() > 0 {
        law_total_matches(segs.drop_last(), words);
    }
}

/// A document of a segment has in the index the number that it has there, raised by the first of
/// the segment, and the score that it has there.
pub proof fn law_scored_in_index(
    math: Arithmetic,
    segs: Seq<DiskSegment<'_>>,
    words: Seq<Seq<u8>>,
    i: int,
    doc: u32,
)
    requires
        doc + first_doc(segs, i) <= u32::MAX,
        0 <= first_doc(segs, i),
    ensures
        scored_in_index(math, segs, words, i, doc).doc_id == doc + first_doc(segs, i),
        scored_in_index(math, segs, words, i, doc).score == scored(
            math,
            segs[i],
            query_terms_of(math, segs[i], words),
            doc,
        ).score,
{
}

/// Results that have numbers for scores can be put together.
pub proof fn law_numeric_results(
    math: Arithmetic,
    segs: Seq<DiskSegment<'_>>,
    words: Seq<Seq<u8>>,
    k: nat,
)
    requires
        forall|i: int, p: int|
            0 <= i < segs.len() && 0 <= p < kept(math, segs[i], words, k).len() ==> is_number(
                (#[trigger] kept(math, segs[i], words, k)[p]).score,
            ),
    ensures
        numeric_results(math, segs, words, k),
{
}

} // verus!
