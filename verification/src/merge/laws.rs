//! What merging keeps.
use vstd::prelude::*;
use crate::codec::ascending;
use crate::le::{law_le_u32s_at, lemma_le_u32s_uniform};
use crate::bm25::laws::has_word;
use crate::bm25::scan::in_list;
use crate::merge::kway::merged;
use crate::merge::parts::{
    by_doc, can_merge, doc_keys, docs_in, fits_at, gathered, lemma_counts, lens_in,
    merged_index, metas_in, moved, shifted, some_has, top_gen, urls_in,
};
use crate::order::lemma_sorted_already;
use crate::segment::disk::{DiskSegment, SegmentBytes};
use crate::segment::disk::{ids_below, ids_distinct};
use crate::segment::docmeta::{law_metas_at, lemma_metas_len};
use crate::segment::files::{ids_of, Corpus, SegmentFiles};
use crate::segment::readback::{law_index_read_back, postings_in, term_in};
use crate::terms::{has_key, lemma_value_at, value_of};

verus! {

/// Every segment is valid.
pub open spec fn all_valid(segs: Seq<&DiskSegment<'_>>) -> bool {
    forall|i: int| 0 <= i < segs.len() ==> (#[trigger] segs[i]).valid()
}

proof fn lemma_all_valid_front(segs: Seq<&DiskSegment<'_>>)
    requires
        all_valid(segs),
        segs.len() > 0,
    ensures
        all_valid(segs.drop_last()),
        segs.last().valid(),
{
    assert forall|i: int| 0 <= i < segs.drop_last().len() implies (
    #[trigger] segs.drop_last()[i]).valid() by {
        assert(segs.drop_last()[i] == segs[i]);
    }
    assert(segs.last() == segs[segs.len() - 1]);
}

/// The postings of a term in a valid segment: documents of the segment, each at most once.
pub proof fn lemma_valid_postings(seg: DiskSegment<'_>, term: Seq<u8>)
    requires
        seg.valid(),
    ensures
        ids_below(seg.postings_of(term), seg.meta.num_docs as int),
        ids_distinct(seg.postings_of(term)),
{
    if has_key(seg.rows(), term) {
        let i = choose|i: int|
            0 <= i < seg.rows().len() && (#[trigger] seg.rows()[i]).0 == term;
        lemma_value_at(seg.rows(), i);
        assert(seg.list_sound(seg.rows()[i].1));
    }
}

/// Documents that ascend below `limit` are at most `limit`.
proof fn lemma_distinct_len(list: Seq<(u32, u8)>, limit: int)
    requires
        ids_below(list, limit),
        ids_distinct(list),
        limit >= 0,
    ensures
        list.len() <= limit,
{
    if list.len() > 0 {
        lemma_spread(list, list.len() - 1);
        assert(list[list.len() - 1].0 < limit);
    }
}

proof fn lemma_spread(list: Seq<(u32, u8)>, i: int)
    requires
        ids_distinct(list),
        0 <= i < list.len(),
    ensures
        i <= list[i].0,
    decreases i,
{
    if i > 0 {
        lemma_spread(list, i - 1);
        assert(list[i - 1].0 < list[i].0);
    }
}

/// Valid segments, one after the other, keep the documents of a term in ascending order.
proof fn lemma_gathered_sound(segs: Seq<&DiskSegment<'_>>, term: Seq<u8>)
    requires
        all_valid(segs),
        docs_in(segs) <= u32::MAX,
    ensures
        ids_below(gathered(segs, term), docs_in(segs) as int),
        ids_distinct(gathered(segs, term)),
    decreases segs.len(),
{
    if segs.len() > 0 {
        let front = segs.drop_last();
        lemma_all_valid_front(segs);
        lemma_gathered_sound(front, term);
        let own = segs.last().postings_of(term);
        lemma_valid_postings(*segs.last(), term);
        let base = docs_in(front) as int;
        let a = gathered(front, term);
        let b = shifted(own, base);
        let all = gathered(segs, term);
        assert(all == a + b);
        assert forall|i: int| 0 <= i < all.len() implies (#[trigger] all[i]).0 < docs_in(
            segs,
        ) by {
            if i >= a.len() {
                assert(own[i - a.len()].0 < segs.last().meta.num_docs);
            } else {
                assert(a[i].0 < docs_in(front));
            }
        }
        assert forall|i: int, j: int| 0 <= i < j < all.len() implies (#[trigger] all[i]).0 < (
        #[trigger] all[j]).0 by {
            if j < a.len() {
                assert(a[i].0 < a[j].0);
            } else {
                assert(own[j - a.len()].0 < segs.last().meta.num_docs);
                if i >= a.len() {
                    assert(own[i - a.len()].0 < own[j - a.len()].0);
                } else {
                    assert(a[i].0 < docs_in(front));
                }
            }
        }
    }
}

/// The postings that valid segments have for a term need no sorting.
pub proof fn law_gathered_in_order(segs: Seq<&DiskSegment<'_>>, term: Seq<u8>)
    requires
        all_valid(segs),
        docs_in(segs) <= u32::MAX,
    ensures
        by_doc(gathered(segs, term)) == gathered(segs, term),
        gathered(segs, term).len() <= docs_in(segs),
{
    let list = gathered(segs, term);
    lemma_gathered_sound(segs, term);
    lemma_distinct_len(list, docs_in(segs) as int);
    let keys = doc_keys(list);
    assert forall|i: int, j: int| 0 <= i < j < keys.len() implies keys[i] <= keys[j] by {
        assert(list[i].0 < list[j].0);
    }
    lemma_sorted_already(list, keys);
}

/// Merging keeps every posting: what a segment has for a term is there, under the raised
/// document number.
pub proof fn law_postings_kept(segs: Seq<&DiskSegment<'_>>, term: Seq<u8>, i: int, k: int)
    requires
        0 <= i < segs.len(),
        0 <= k < segs[i].postings_of(term).len(),
    ensures
        gathered(segs, term).contains(
            shifted(segs[i].postings_of(term), docs_in(segs.take(i)) as int)[k],
        ),
    decreases segs.len(),
{
    let front = segs.drop_last();
    let a = gathered(front, term);
    let own = shifted(segs.last().postings_of(term), docs_in(front) as int);
    let all = gathered(segs, term);
    assert(all == a + own);
    if i == segs.len() - 1 {
        assert(segs.take(i) =~= front);
        assert(all[a.len() + k] == own[k]);
    } else {
        assert(front.take(i) =~= segs.take(i));
        assert(front[i] == segs[i]);
        law_postings_kept(front, term, i, k);
        let e = shifted(segs[i].postings_of(term), docs_in(segs.take(i)) as int)[k];
        let p = choose|p: int| 0 <= p < a.len() && a[p] == e;
        assert(all[p] == e);
    }
}

/// Merging adds no posting: each comes from one of the segments.
pub proof fn law_no_posting_added(segs: Seq<&DiskSegment<'_>>, term: Seq<u8>, p: int) -> (r: (
    int,
    int,
))
    requires
        0 <= p < gathered(segs, term).len(),
    ensures
        0 <= r.0 < segs.len(),
        0 <= r.1 < segs[r.0].postings_of(term).len(),
        gathered(segs, term)[p] == shifted(
            segs[r.0].postings_of(term),
            docs_in(segs.take(r.0)) as int,
        )[r.1],
    decreases segs.len(),
{
    let front = segs.drop_last();
    let a = gathered(front, term);
    if p < a.len() {
        let r = law_no_posting_added(front, term, p);
        assert(front.take(r.0) =~= segs.take(r.0));
        assert(front[r.0] == segs[r.0]);
        r
    } else {
        assert(segs.take(segs.len() - 1) =~= front);
        (segs.len() - 1, p - a.len())
    }
}

/// A term that no segment has, has no postings.
proof fn lemma_gathered_empty(segs: Seq<&DiskSegment<'_>>, term: Seq<u8>)
    requires
        !some_has(segs, term),
    ensures
        gathered(segs, term) == Seq::<(u32, u8)>::empty(),
    decreases segs.len(),
{
    if segs.len() > 0 {
        let front = segs.drop_last();
        assert(!some_has(front, term)) by {
            if some_has(front, term) {
                let i = choose|i: int|
                    0 <= i < front.len() && value_of((#[trigger] front[i]).rows(), term) is Some;
                assert(segs[i] == front[i]);
            }
        }
        lemma_gathered_empty(front, term);
        assert(segs[segs.len() - 1] == segs.last());
        assert(gathered(segs, term) =~= Seq::empty());
    }
}

/// Where the documents of segment `i` are found.
proof fn lemma_docs_at(segs: Seq<&DiskSegment<'_>>, i: int, d: int)
    requires
        0 <= i < segs.len(),
        0 <= d < segs[i].meta.num_docs,
    ensures
        lens_in(segs).len() == docs_in(segs),
        metas_in(segs).len() == docs_in(segs),
        docs_in(segs.take(i)) + d < docs_in(segs),
        lens_in(segs)[docs_in(segs.take(i)) + d] == segs[i].len_of(d),
        metas_in(segs)[docs_in(segs.take(i)) + d] == moved(
            segs[i].meta_of(d),
            urls_in(segs.take(i)).len() as int,
        ),
    decreases segs.len(),
{
    let front = segs.drop_last();
    lemma_counts(front);
    if i == segs.len() - 1 {
        assert(segs.take(i) =~= front);
    } else {
        assert(front.take(i) =~= segs.take(i));
        assert(front[i] == segs[i]);
        lemma_docs_at(front, i, d);
    }
}

/// Where the URLs of segment `i` are found.
proof fn lemma_urls_at(segs: Seq<&DiskSegment<'_>>, i: int)
    requires
        0 <= i < segs.len(),
    ensures
        urls_in(segs.take(i)).len() + segs[i].docurls@.len() <= urls_in(segs).len(),
        urls_in(segs).subrange(
            urls_in(segs.take(i)).len() as int,
            urls_in(segs.take(i)).len() + segs[i].docurls@.len() as int,
        ) == segs[i].docurls@,
    decreases segs.len(),
{
    let front = segs.drop_last();
    let from = urls_in(segs.take(i)).len() as int;
    let to = from + segs[i].docurls@.len();
    if i == segs.len() - 1 {
        assert(segs.take(i) =~= front);
        assert(urls_in(segs).subrange(from, to) =~= segs[i].docurls@);
    } else {
        assert(front.take(i) =~= segs.take(i));
        assert(front[i] == segs[i]);
        lemma_urls_at(front, i);
        assert(urls_in(segs).subrange(from, to) =~= urls_in(front).subrange(from, to));
    }
}

/// Every document number belongs to a document of one of the segments.
pub proof fn lemma_locate(segs: Seq<&DiskSegment<'_>>, doc: int) -> (r: (int, int))
    requires
        0 <= doc < docs_in(segs),
    ensures
        0 <= r.0 < segs.len(),
        0 <= r.1 < segs[r.0].meta.num_docs,
        doc == docs_in(segs.take(r.0)) + r.1,
    decreases segs.len(),
{
    let front = segs.drop_last();
    if doc < docs_in(front) {
        let r = lemma_locate(front, doc);
        assert(front.take(r.0) =~= segs.take(r.0));
        assert(front[r.0] == segs[r.0]);
        r
    } else {
        assert(segs.take(segs.len() - 1) =~= front);
        (segs.len() - 1, doc - docs_in(front))
    }
}

/// The merged segment is valid. It has the terms that some segment had and no other, and for each
/// the postings of all segments.
pub proof fn law_merge_keeps_postings<S, M>(
    segs: Seq<&DiskSegment<'_>>,
    seg_id: u64,
    files: SegmentFiles,
    max_score: S,
    mean: M,
    bytes: SegmentBytes<'_>,
    seg: DiskSegment<'_>,
) where S: Fn(Corpus, u64, u8) -> u32, M: Fn(u64, u64) -> u64
    requires
        can_merge(segs),
        all_valid(segs),
        merged(segs, seg_id, files, max_score, mean),
        bytes.holds(files),
        seg.opened(bytes),
    ensures
        seg.terms_valid(),
        seg.meta == files.meta,
        seg.index() == merged_index(segs),
        forall|t: Seq<u8>| #[trigger] value_of(seg.rows(), t) is Some <==> some_has(segs, t),
        forall|t: Seq<u8>| #[trigger] seg.postings_of(t) == gathered(segs, t),
{
    let index = merged_index(segs);
    assert forall|i: int| 0 <= i < index.len() implies ascending(ids_of((#[trigger] index[i]).1))
        && index[i].1.len() <= u32::MAX && index[i].1 == gathered(segs, index[i].0) && ids_distinct(
        index[i].1,
    ) && ids_below(index[i].1, docs_in(segs) as int) by {
        law_gathered_in_order(segs, index[i].0);
        lemma_gathered_sound(segs, index[i].0);
        let list = index[i].1;
        let ids = ids_of(list);
        assert forall|a: int, b: int| 0 <= a <= b < ids.len() implies ids[a] <= ids[b] by {
            if a < b {
                assert(list[a].0 < list[b].0);
            }
        }
    }
    law_index_read_back(index, seg);
    assert forall|i: int| #![trigger seg.rows()[i]] 0 <= i < seg.rows().len() implies seg.list_sound(
        seg.rows()[i].1,
    ) by {
        assert(seg.list_at(seg.rows()[i].1) == index[i].1);
    }
    assert forall|t: Seq<u8>| #[trigger] value_of(seg.rows(), t) is Some <==> some_has(segs, t) by {
        assert(term_in(index, t) <==> some_has(segs, t));
    }
    assert forall|t: Seq<u8>| #[trigger] seg.postings_of(t) == gathered(segs, t) by {
        assert(seg.postings_of(t) == postings_in(index, t));
        assert(term_in(index, t) <==> some_has(segs, t));
        if !term_in(index, t) {
            lemma_gathered_empty(segs, t);
        }
    }
}

/// The merged segment has every document under its raised number, with its length, its record and
/// its URL.
pub proof fn law_merge_keeps_documents<S, M>(
    segs: Seq<&DiskSegment<'_>>,
    seg_id: u64,
    files: SegmentFiles,
    max_score: S,
    mean: M,
    bytes: SegmentBytes<'_>,
    seg: DiskSegment<'_>,
    i: int,
    d: int,
) where S: Fn(Corpus, u64, u8) -> u32, M: Fn(u64, u64) -> u64
    requires
        can_merge(segs),
        all_valid(segs),
        merged(segs, seg_id, files, max_score, mean),
        bytes.holds(files),
        seg.opened(bytes),
        0 <= i < segs.len(),
        0 <= d < segs[i].meta.num_docs,
    ensures
        docs_in(segs.take(i)) + d < seg.meta.num_docs,
        seg.len_of(docs_in(segs.take(i)) + d) == segs[i].len_of(d),
        seg.meta_of(docs_in(segs.take(i)) + d) == moved(
            segs[i].meta_of(d),
            urls_in(segs.take(i)).len() as int,
        ),
        seg.has_url(seg.meta_of(docs_in(segs.take(i)) + d)),
        seg.url_of(seg.meta_of(docs_in(segs.take(i)) + d)) == segs[i].url_of(segs[i].meta_of(d)),
{
    let at = docs_in(segs.take(i)) + d;
    lemma_docs_at(segs, i, d);
    lemma_urls_at(segs, i);
    law_le_u32s_at(lens_in(segs), at);
    law_metas_at(metas_in(segs), at);
    let m = segs[i].meta_of(d);
    let by = urls_in(segs.take(i)).len() as int;
    assert(segs[i].valid());
    assert(segs[i].has_url(m));
    let own = urls_in(segs).subrange(by, by + segs[i].docurls@.len());
    assert(seg.url_of(moved(m, by)) =~= own.subrange(
        m.url_offset as int,
        m.url_offset + m.url_len,
    ));
}

/// Merging valid segments makes a valid segment.
pub proof fn law_merge_valid<S, M>(
    segs: Seq<&DiskSegment<'_>>,
    seg_id: u64,
    files: SegmentFiles,
    max_score: S,
    mean: M,
    bytes: SegmentBytes<'_>,
    seg: DiskSegment<'_>,
) where S: Fn(Corpus, u64, u8) -> u32, M: Fn(u64, u64) -> u64
    requires
        can_merge(segs),
        all_valid(segs),
        merged(segs, seg_id, files, max_score, mean),
        bytes.holds(files),
        seg.opened(bytes),
    ensures
        seg.valid(),
{
    law_merge_keeps_postings(segs, seg_id, files, max_score, mean, bytes, seg);
    lemma_counts(segs);
    lemma_le_u32s_uniform(lens_in(segs));
    lemma_metas_len(metas_in(segs));
    assert forall|doc: int| 0 <= doc < seg.meta.num_docs implies seg.has_url(
        #[trigger] seg.meta_of(doc),
    ) by {
        let r = lemma_locate(segs, doc);
        law_merge_keeps_documents(
            segs,
            seg_id,
            files,
            max_score,
            mean,
            bytes,
            seg,
            r.0,
            r.1,
        );
    }
}

/// Valid segments can be merged unless there are too many documents, URLs or merges to count.
pub proof fn law_valid_segments_merge(segs: Seq<&DiskSegment<'_>>)
    requires
        all_valid(segs),
        docs_in(segs) <= u32::MAX,
        urls_in(segs).len() <= u64::MAX,
        top_gen(segs) < u32::MAX,
    ensures
        can_merge(segs),
{
    assert forall|i: int| 0 <= i < segs.len() implies #[trigger] fits_at(segs, i) by {
        reveal(fits_at);
        let seg = segs[i];
        assert(seg.valid());
        lemma_urls_at(segs, i);
        lemma_docs_before(segs, i);
        assert forall|j: int| #![trigger seg.rows()[j]] 0 <= j < seg.rows().len() implies seg.has_list(
            seg.rows()[j].1,
        ) && seg.list_below(seg.rows()[j].1, 0x1_0000_0000 - docs_in(segs.take(i))) by {
            assert(seg.list_sound(seg.rows()[j].1));
        }
        assert forall|d: int| 0 <= d < seg.meta.num_docs implies (#[trigger] seg.meta_of(
            d,
        )).url_offset + urls_in(segs.take(i)).len() <= u64::MAX by {
            assert(seg.has_url(seg.meta_of(d)));
        }
    }
}

/// The documents of a segment are among all.
pub proof fn lemma_docs_before(segs: Seq<&DiskSegment<'_>>, i: int)
    requires
        0 <= i < segs.len(),
    ensures
        docs_in(segs.take(i)) + segs[i].meta.num_docs <= docs_in(segs),
    decreases segs.len(),
{
    let front = segs.drop_last();
    if i == segs.len() - 1 {
        assert(segs.take(i) =~= front);
    } else {
        assert(front.take(i) =~= segs.take(i));
        assert(front[i] == segs[i]);
        lemma_docs_before(front, i);
    }
}

/// A document has a term among all segments where it has it in its own.
proof fn lemma_in_gathered(segs: Seq<&DiskSegment<'_>>, term: Seq<u8>, i: int, d: u32)
    requires
        all_valid(segs),
        docs_in(segs) <= u32::MAX,
        0 <= i < segs.len(),
        d < segs[i].meta.num_docs,
    ensures
        in_list(gathered(segs, term), (docs_in(segs.take(i)) + d) as u32) <==> in_list(
            segs[i].postings_of(term),
            d,
        ),
{
    let doc = (docs_in(segs.take(i)) + d) as u32;
    let own = segs[i].postings_of(term);
    let all = gathered(segs, term);
    lemma_docs_before(segs, i);
    if in_list(own, d) {
        let k = choose|k: int| 0 <= k < own.len() && (#[trigger] own[k]).0 == d;
        law_postings_kept(segs, term, i, k);
        let e = shifted(own, docs_in(segs.take(i)) as int)[k];
        let p = choose|p: int| 0 <= p < all.len() && all[p] == e;
        assert(all[p].0 == doc);
    }
    if in_list(all, doc) {
        let p = choose|p: int| 0 <= p < all.len() && (#[trigger] all[p]).0 == doc;
        let r = law_no_posting_added(segs, term, p);
        let other = segs[r.0].postings_of(term);
        assert(segs[r.0].valid());
        lemma_valid_postings(*segs[r.0], term);
        assert(other[r.1].0 < segs[r.0].meta.num_docs);
        lemma_docs_before(segs, r.0);
        lemma_one_place(segs, i, r.0);
        assert(other[r.1].0 == d);
    }
}

/// After merging, a document has the words that it had before.
pub proof fn law_merge_keeps_words<S, M>(
    segs: Seq<&DiskSegment<'_>>,
    seg_id: u64,
    files: SegmentFiles,
    max_score: S,
    mean: M,
    bytes: SegmentBytes<'_>,
    seg: DiskSegment<'_>,
    words: Seq<Seq<u8>>,
    i: int,
    d: u32,
) where S: Fn(Corpus, u64, u8) -> u32, M: Fn(u64, u64) -> u64
    requires
        can_merge(segs),
        all_valid(segs),
        merged(segs, seg_id, files, max_score, mean),
        bytes.holds(files),
        seg.opened(bytes),
        0 <= i < segs.len(),
        d < segs[i].meta.num_docs,
    ensures
        has_word(seg, words, (docs_in(segs.take(i)) + d) as u32) <==> has_word(
            *segs[i],
            words,
            d,
        ),
{
    let doc = (docs_in(segs.take(i)) + d) as u32;
    law_merge_keeps_postings(segs, seg_id, files, max_score, mean, bytes, seg);
    assert forall|w: int| 0 <= w < words.len() implies in_list(
        seg.postings_of(#[trigger] words[w]),
        doc,
    ) == in_list(segs[i].postings_of(words[w]), d) by {
        lemma_in_gathered(segs, words[w], i, d);
    }
    if has_word(*segs[i], words, d) {
        let w = choose|w: int|
            0 <= w < words.len() && in_list(segs[i].postings_of(#[trigger] words[w]), d);
        assert(in_list(seg.postings_of(words[w]), doc));
    }
}

/// The documents of a segment come before those of the segments behind it.
proof fn lemma_one_place(segs: Seq<&DiskSegment<'_>>, i: int, j: int)
    requires
        0 <= i < segs.len(),
        0 <= j < segs.len(),
    ensures
        i < j ==> docs_in(segs.take(i)) + segs[i].meta.num_docs <= docs_in(segs.take(j)),
        j < i ==> docs_in(segs.take(j)) + segs[j].meta.num_docs <= docs_in(segs.take(i)),
{
    if i < j {
        assert(segs.take(j).take(i) =~= segs.take(i));
        lemma_docs_before(segs.take(j), i);
    }
    if j < i {
        assert(segs.take(i).take(j) =~= segs.take(j));
        lemma_docs_before(segs.take(i), j);
    }
}

} // verus!
