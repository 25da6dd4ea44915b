//! What a merged segment holds, told from the segments that it was made of.
use vstd::prelude::*;
use crate::merge::parts::{metas_in, metas_of};
use crate::terms::fst_content;
use crate::segment::laws::{law_table_of_numbers, law_table_of_records};
use crate::segment::files::{postings_file, term_rows};
use crate::segment::docmeta::meta_bytes;
use crate::le::le_bytes;
use crate::le::le_value;
use crate::merge::kway::{merge_scored, merged};
use crate::merge::laws::{
    all_valid, law_merge_keeps_documents, law_merge_keeps_postings, law_no_posting_added,
    law_postings_kept, lemma_docs_before, lemma_valid_postings,
};
use crate::merge::parts::{
    by_doc, can_merge, doc_keys, docs_in, gathered, lemma_counts, lens_in, merged_index, merges,
    moved, shifted, some_has, top_gen, urls_in,
};
use crate::order::law_sorted_items;
use crate::segment::disk::{DiskSegment, SegmentBytes};
use crate::segment::docmeta::DocMeta;
use crate::segment::files::{
    greatest_tf, least_len, lemma_total_len_bound, Corpus, Index, SegmentFiles,
};
use crate::segment::flush::u32_at;
use crate::segment::laws::{law_corpus, law_total_len};
use crate::segment::readback::{lemma_term_unique, term_in};
use crate::terms::{bytes_lt, value_of};

verus! {

// ---------------------------------------------------------------------------------------------
// The segments together
// ---------------------------------------------------------------------------------------------

/// The documents of segments add up.
pub proof fn law_docs_in(segs: Seq<&DiskSegment<'_>>)
    ensures
        docs_in(segs) == segs.fold_left(0, |n: int, s: &DiskSegment<'_>| n + s.meta.num_docs),
    decreases segs.len(),
{
    if segs.len() > 0 {
        law_docs_in(segs.drop_last());
    }
}

/// The lengths of all documents: those of each segment, one segment after the other.
pub proof fn law_lens_in(segs: Seq<&DiskSegment<'_>>)
    ensures
        lens_in(segs) == segs.map_values(
            |s: &DiskSegment<'_>| Seq::new(s.meta.num_docs as nat, |d: int| s.len_of(d)),
        ).flatten(),
    decreases segs.len(),
{
    let lens = |s: &DiskSegment<'_>| Seq::new(s.meta.num_docs as nat, |d: int| s.len_of(d));
    segs.map_values(lens).lemma_flatten_and_flatten_alt_are_equivalent();
    if segs.len() > 0 {
        let front = segs.drop_last();
        law_lens_in(front);
        front.map_values(lens).lemma_flatten_and_flatten_alt_are_equivalent();
        assert(segs.map_values(lens).drop_last() =~= front.map_values(lens));
    }
}

/// The URLs of all documents: those of each segment, one segment after the other.
pub proof fn law_urls_in(segs: Seq<&DiskSegment<'_>>)
    ensures
        urls_in(segs) == segs.map_values(|s: &DiskSegment<'_>| s.docurls@).flatten(),
    decreases segs.len(),
{
    let urls = |s: &DiskSegment<'_>| s.docurls@;
    segs.map_values(urls).lemma_flatten_and_flatten_alt_are_equivalent();
    if segs.len() > 0 {
        let front = segs.drop_last();
        law_urls_in(front);
        front.map_values(urls).lemma_flatten_and_flatten_alt_are_equivalent();
        assert(segs.map_values(urls).drop_last() =~= front.map_values(urls));
    }
}

/// The greatest number of merges is that of one of the segments, and none has been through more.
pub proof fn law_top_gen(segs: Seq<&DiskSegment<'_>>)
    ensures
        segs.len() == 0 ==> top_gen(segs) == 0,
        forall|i: int| 0 <= i < segs.len() ==> (#[trigger] segs[i]).meta.merge_gen <= top_gen(segs),
        segs.len() > 0 ==> exists|i: int|
            0 <= i < segs.len() && (#[trigger] segs[i]).meta.merge_gen == top_gen(segs),
    decreases segs.len(),
{
    if segs.len() > 0 {
        let front = segs.drop_last();
        let last = segs.len() - 1;
        law_top_gen(front);
        assert(segs[last] == segs.last());
        assert forall|i: int| 0 <= i < segs.len() implies (#[trigger] segs[i]).meta.merge_gen
            <= top_gen(segs) by {
            if i < last {
                assert(front[i] == segs[i]);
            }
        }
        if front.len() > 0 {
            let i = choose|i: int|
                0 <= i < front.len() && (#[trigger] front[i]).meta.merge_gen == top_gen(front);
            assert(segs[i] == front[i]);
        }
    }
}

/// Raising the documents of a list leaves the frequencies as they are.
pub proof fn law_shifted(list: Seq<(u32, u8)>, by: int, k: int)
    requires
        0 <= k < list.len(),
        0 <= list[k].0 + by <= u32::MAX,
    ensures
        shifted(list, by).len() == list.len(),
        shifted(list, by)[k].0 == list[k].0 + by,
        shifted(list, by)[k].1 == list[k].1,
{
}

/// A record that is moved points so much further, and is the same otherwise.
pub proof fn law_moved(m: DocMeta, by: int)
    requires
        0 <= m.url_offset + by <= u64::MAX,
    ensures
        moved(m, by).url_offset == m.url_offset + by,
        moved(m, by).url_len == m.url_len,
        moved(m, by).crawl_ts == m.crawl_ts,
        moved(m, by).content_hash == m.content_hash,
        moved(m, by).lang_id == m.lang_id,
{
}

/// The postings of a term in all segments: those of each, one segment after the other, each document
/// raised by the documents of the segments before, with its frequency.
pub proof fn law_gathered(segs: Seq<&DiskSegment<'_>>, term: Seq<u8>)
    ensures
        gathered(segs, term) == Seq::new(
            segs.len(),
            |i: int|
                segs[i].postings_of(term).map_values(
                    |e: (u32, u8)| ((e.0 + docs_in(segs.take(i))) as u32, e.1),
                ),
        ).flatten(),
    decreases segs.len(),
{
    let lists = Seq::new(
        segs.len(),
        |i: int|
            segs[i].postings_of(term).map_values(
                |e: (u32, u8)| ((e.0 + docs_in(segs.take(i))) as u32, e.1),
            ),
    );
    lists.lemma_flatten_and_flatten_alt_are_equivalent();
    if segs.len() > 0 {
        let front = segs.drop_last();
        law_gathered(front, term);
        let less = Seq::new(
            front.len(),
            |i: int|
                front[i].postings_of(term).map_values(
                    |e: (u32, u8)| ((e.0 + docs_in(front.take(i))) as u32, e.1),
                ),
        );
        less.lemma_flatten_and_flatten_alt_are_equivalent();
        assert forall|i: int| 0 <= i < front.len() implies lists[i] == less[i] by {
            assert(front.take(i) =~= segs.take(i));
            assert(lists[i] =~= less[i]);
        }
        assert(lists.drop_last() =~= less);
        assert(segs.take(segs.len() - 1) =~= front);
        assert(lists.last() =~= shifted(segs.last().postings_of(term), docs_in(front) as int));
    }
}

/// A list in the order of its documents has the same postings.
pub proof fn law_by_doc(list: Seq<(u32, u8)>)
    requires
        list.len() <= usize::MAX,
    ensures
        by_doc(list).to_multiset() == list.to_multiset(),
        by_doc(list).len() == list.len(),
        forall|i: int, j: int|
            0 <= i < j < list.len() ==> (#[trigger] by_doc(list)[i]).0 <= (#[trigger] by_doc(
                list,
            )[j]).0,
{
    let keys = doc_keys(list);
    let order = law_sorted_items(list, keys);
    assert forall|i: int, j: int| 0 <= i < j < list.len() implies (#[trigger] by_doc(list)[i]).0 <= (
    #[trigger] by_doc(list)[j]).0 by {
        assert(crate::order::taken_before(keys, order[i], order[j]));
        assert(by_doc(list)[i] == list[order[i] as int]);
        assert(by_doc(list)[j] == list[order[j] as int]);
    }
}

/// What merging makes of the terms: they ascend, they are those that a segment has, and each has the
/// postings of all segments, in the order of their documents.
pub proof fn law_merges(index: Index, segs: Seq<&DiskSegment<'_>>)
    ensures
        merges(index, segs) <==> {
            &&& forall|i: int, j: int|
                0 <= i < j < index.len() ==> bytes_lt(
                    #[trigger] index[i].0,
                    #[trigger] index[j].0,
                )
            &&& forall|t: Seq<u8>| #[trigger]
                term_in(index, t) <==> exists|i: int|
                    0 <= i < segs.len() && value_of((#[trigger] segs[i]).rows(), t) is Some
            &&& forall|i: int|
                0 <= i < index.len() ==> (#[trigger] index[i]).1 == by_doc(
                    gathered(segs, index[i].0),
                )
        },
{
    assert forall|t: Seq<u8>| #[trigger] some_has(segs, t) <==> exists|i: int|
        0 <= i < segs.len() && value_of((#[trigger] segs[i]).rows(), t) is Some by {}
}

/// An index has a term where the term stands in it.
pub proof fn law_term_in(index: Index, term: Seq<u8>)
    ensures
        term_in(index, term) <==> exists|i: int|
            0 <= i < index.len() && (#[trigger] index[i]).0 == term,
{
}

// ---------------------------------------------------------------------------------------------
// The merged segment
// ---------------------------------------------------------------------------------------------

/// Merging keeps every posting: where document `d` of segment `i` has a term with some frequency,
/// the merged segment has the term, with the very same frequency, for the document whose number is
/// `d` and the documents of the segments before.
pub proof fn law_merged_has_the_posting<S, M>(
    segs: Seq<&DiskSegment<'_>>,
    seg_id: u64,
    files: SegmentFiles,
    max_score: S,
    mean: M,
    bytes: SegmentBytes<'_>,
    seg: DiskSegment<'_>,
    term: Seq<u8>,
    i: int,
    k: int,
) where S: Fn(Corpus, u64, u8) -> u32, M: Fn(u64, u64) -> u64
    requires
        can_merge(segs),
        all_valid(segs),
        merged(segs, seg_id, files, max_score, mean),
        bytes.holds(files),
        seg.opened(bytes),
        0 <= i < segs.len(),
        0 <= k < segs[i].postings_of(term).len(),
    ensures
        ({
            let before = segs.take(i).fold_left(
                0,
                |n: int, s: &DiskSegment<'_>| n + s.meta.num_docs,
            );
            let e = segs[i].postings_of(term)[k];
            &&& 0 <= before
            &&& before + e.0 < seg.meta.num_docs
            &&& seg.postings_of(term).contains(((before + e.0) as u32, e.1))
        }),
{
    law_docs_in(segs.take(i));
    law_postings_kept(segs, term, i, k);
    law_merge_keeps_postings(segs, seg_id, files, max_score, mean, bytes, seg);
    let own = segs[i].postings_of(term);
    assert(segs[i].valid());
    lemma_valid_postings(*segs[i], term);
    assert(own[k].0 < segs[i].meta.num_docs);
    lemma_docs_before(segs, i);
    law_shifted(own, docs_in(segs.take(i)) as int, k);
    assert(shifted(own, docs_in(segs.take(i)) as int)[k] == (
        (docs_in(segs.take(i)) + own[k].0) as u32,
        own[k].1,
    ));
    assert(seg.postings_of(term) == gathered(segs, term));
}

/// Merging adds no posting: each of the merged segment is one of a segment, with the very same
/// frequency, its document raised by the documents of the segments before.
pub proof fn law_merged_posting_comes_from<S, M>(
    segs: Seq<&DiskSegment<'_>>,
    seg_id: u64,
    files: SegmentFiles,
    max_score: S,
    mean: M,
    bytes: SegmentBytes<'_>,
    seg: DiskSegment<'_>,
    term: Seq<u8>,
    p: int,
) -> (r: (int, int)) where S: Fn(Corpus, u64, u8) -> u32, M: Fn(u64, u64) -> u64
    requires
        can_merge(segs),
        all_valid(segs),
        merged(segs, seg_id, files, max_score, mean),
        bytes.holds(files),
        seg.opened(bytes),
        0 <= p < seg.postings_of(term).len(),
    ensures
        0 <= r.0 < segs.len(),
        0 <= r.1 < segs[r.0].postings_of(term).len(),
        ({
            let before = segs.take(r.0).fold_left(
                0,
                |n: int, s: &DiskSegment<'_>| n + s.meta.num_docs,
            );
            let e = segs[r.0].postings_of(term)[r.1];
            &&& seg.postings_of(term)[p].0 == before + e.0
            &&& seg.postings_of(term)[p].1 == e.1
        }),
{
    law_merge_keeps_postings(segs, seg_id, files, max_score, mean, bytes, seg);
    assert(seg.postings_of(term) == gathered(segs, term));
    let r = law_no_posting_added(segs, term, p);
    law_docs_in(segs.take(r.0));
    let own = segs[r.0].postings_of(term);
    assert(segs[r.0].valid());
    lemma_valid_postings(*segs[r.0], term);
    assert(own[r.1].0 < segs[r.0].meta.num_docs);
    lemma_docs_before(segs, r.0);
    law_shifted(own, docs_in(segs.take(r.0)) as int, r.1);
    r
}

/// The merged segment has as many postings of a term as the segments have together.
pub proof fn law_merged_number_of_postings<S, M>(
    segs: Seq<&DiskSegment<'_>>,
    seg_id: u64,
    files: SegmentFiles,
    max_score: S,
    mean: M,
    bytes: SegmentBytes<'_>,
    seg: DiskSegment<'_>,
    term: Seq<u8>,
) where S: Fn(Corpus, u64, u8) -> u32, M: Fn(u64, u64) -> u64
    requires
        can_merge(segs),
        all_valid(segs),
        merged(segs, seg_id, files, max_score, mean),
        bytes.holds(files),
        seg.opened(bytes),
    ensures
        seg.postings_of(term).len() == segs.fold_left(
            0,
            |n: int, s: &DiskSegment<'_>| n + s.postings_of(term).len(),
        ),
        value_of(seg.rows(), term) is Some <==> exists|i: int|
            0 <= i < segs.len() && value_of((#[trigger] segs[i]).rows(), term) is Some,
{
    law_merge_keeps_postings(segs, seg_id, files, max_score, mean, bytes, seg);
    assert(seg.postings_of(term) == gathered(segs, term));
    assert(value_of(seg.rows(), term) is Some <==> some_has(segs, term));
    lemma_gathered_len(segs, term);
}

proof fn lemma_gathered_len(segs: Seq<&DiskSegment<'_>>, term: Seq<u8>)
    ensures
        gathered(segs, term).len() == segs.fold_left(
            0,
            |n: int, s: &DiskSegment<'_>| n + s.postings_of(term).len(),
        ),
    decreases segs.len(),
{
    if segs.len() > 0 {
        lemma_gathered_len(segs.drop_last(), term);
    }
}

/// The merged segment has every document: under its number raised by the documents of the segments
/// before, with its length, its time, its hash, its language and its URL.
pub proof fn law_merged_has_the_document<S, M>(
    segs: Seq<&DiskSegment<'_>>,
    seg_id: u64,
    files: SegmentFiles,
    max_score: S,
    mean: M,
    bytes: SegmentBytes<'_>,
    seg: DiskSegment<'_>,
    i: int,
    d: int,
) where S: Fn(Corpus, u64, u8) -> u32, M: Fn(u64, u64) -> u64
    requires
        can_merge(segs),
        all_valid(segs),
        merged(segs, seg_id, files, max_score, mean),
        bytes.holds(files),
        seg.opened(bytes),
        0 <= i < segs.len(),
        0 <= d < segs[i].meta.num_docs,
    ensures
        ({
            let before = segs.take(i).fold_left(
                0,
                |n: int, s: &DiskSegment<'_>| n + s.meta.num_docs,
            );
            let old_meta = segs[i].meta_of(d);
            let new_meta = seg.meta_of(before + d);
            &&& 0 <= before + d < seg.meta.num_docs
            &&& seg.len_of(before + d) == segs[i].len_of(d)
            &&& new_meta.url_len == old_meta.url_len
            &&& new_meta.crawl_ts == old_meta.crawl_ts
            &&& new_meta.content_hash == old_meta.content_hash
            &&& new_meta.lang_id == old_meta.lang_id
            &&& new_meta.url_offset + new_meta.url_len <= seg.docurls@.len()
            &&& seg.docurls@.skip(new_meta.url_offset as int).take(new_meta.url_len as int)
                == segs[i].docurls@.skip(old_meta.url_offset as int).take(old_meta.url_len as int)
        }),
{
    law_docs_in(segs.take(i));
    law_merge_keeps_documents(segs, seg_id, files, max_score, mean, bytes, seg, i, d);
    let at = docs_in(segs.take(i)) + d;
    let old_meta = segs[i].meta_of(d);
    let new_meta = seg.meta_of(at);
    assert(segs[i].valid());
    assert(segs[i].has_url(old_meta));
    assert(seg.docurls@.skip(new_meta.url_offset as int).take(new_meta.url_len as int)
        =~= seg.url_of(new_meta));
    assert(segs[i].docurls@.skip(old_meta.url_offset as int).take(old_meta.url_len as int)
        =~= segs[i].url_of(old_meta));
}

/// The statistics of a merged segment: the documents of all segments, the terms that one of them
/// has, one merge more than the segment that has been through most; and what the mean and the scores
/// are computed from, which are the number and the lengths of all documents, and for each term the
/// number of documents that have it and its greatest frequency.
pub proof fn law_merged_statistics<S, M>(
    segs: Seq<&DiskSegment<'_>>,
    seg_id: u64,
    files: SegmentFiles,
    max_score: S,
    mean: M,
) where S: Fn(Corpus, u64, u8) -> u32, M: Fn(u64, u64) -> u64
    requires
        docs_in(segs) <= u32::MAX,
        merged(segs, seg_id, files, max_score, mean),
    ensures
        files.meta.seg_id == seg_id,
        files.meta.num_docs == segs.fold_left(
            0,
            |n: int, s: &DiskSegment<'_>| n + s.meta.num_docs,
        ),
        files.meta.merge_gen == top_gen(segs) + 1,
        files.meta.num_terms == merged_index(segs).len(),
        files.meta.total_postings == merged_index(segs).len(),
        files.terminfo is None,
        files.maxscores@.len() == 4 * merged_index(segs).len(),
        ({
            let sum = lens_in(segs).fold_left(0, |sum: int, n: u32| sum + n);
            let corpus = Corpus {
                num_docs: files.meta.num_docs,
                total_len: sum as u64,
                min_len: least_len(lens_in(segs)),
            };
            &&& 0 <= sum <= u64::MAX
            &&& call_ensures(mean, (sum as u64, files.meta.num_docs), files.meta.avg_doc_len)
            &&& forall|i: int|
                0 <= i < merged_index(segs).len() ==> {
                    let list = (#[trigger] merged_index(segs)[i]).1;
                    call_ensures(
                        max_score,
                        (corpus, list.len() as u64, greatest_tf(list)),
                        le_value(files.maxscores@.subrange(4 * i, 4 * i + 4)) as u32,
                    )
                }
        }),
{
    law_docs_in(segs);
    let lens = lens_in(segs);
    lemma_counts(segs);
    law_corpus(lens);
    law_total_len(lens);
    lemma_total_len_bound(lens);
    assert(lens.len() * u32::MAX <= u32::MAX * u32::MAX) by (nonlinear_arith)
        requires
            lens.len() <= u32::MAX,
    ;
    let index = merged_index(segs);
    assert forall|i: int| 0 <= i < index.len() implies merge_scored(
        lens,
        (#[trigger] index[i]).1,
        u32_at(files.maxscores@, i),
        max_score,
    ) by {}
}

/// As many terms are written as there are terms that a segment has.
pub proof fn law_merged_number_of_terms(segs: Seq<&DiskSegment<'_>>)
    requires
        merges(merged_index(segs), segs),
    ensures
        merged_index(segs).len() == Set::new(
            |t: Seq<u8>|
                exists|i: int|
                    0 <= i < segs.len() && value_of((#[trigger] segs[i]).rows(), t) is Some,
        ).len(),
{
    let index = merged_index(segs);
    let terms = index.map_values(|e: (Seq<u8>, Seq<(u32, u8)>)| e.0);
    let all = Set::new(
        |t: Seq<u8>|
            exists|i: int| 0 <= i < segs.len() && value_of((#[trigger] segs[i]).rows(), t) is Some,
    );
    assert forall|i: int, j: int| 0 <= i < terms.len() && 0 <= j < terms.len() && i != j implies terms[i]
        != terms[j] by {
        if terms[i] == terms[j] {
            lemma_term_unique(index, i, j);
        }
    }
    terms.unique_seq_to_set();
    assert forall|t: Seq<u8>| terms.to_set().contains(t) <==> all.contains(t) by {
        assert(term_in(index, t) <==> some_has(segs, t));
        if terms.contains(t) {
            let i = choose|i: int| 0 <= i < terms.len() && terms[i] == t;
            assert(index[i].0 == t);
        }
        if all.contains(t) {
            assert(some_has(segs, t));
            let i = choose|i: int| 0 <= i < index.len() && (#[trigger] index[i]).0 == t;
            assert(terms[i] == t);
        }
    }
    assert(terms.to_set() =~= all);
}

/// The records of all documents: those of each segment, one segment after the other, moved by the
/// URLs of the segments before.
pub proof fn law_metas_in(segs: Seq<&DiskSegment<'_>>)
    ensures
        metas_in(segs) == Seq::new(
            segs.len(),
            |i: int|
                Seq::new(
                    segs[i].meta.num_docs as nat,
                    |d: int| moved(segs[i].meta_of(d), urls_in(segs.take(i)).len() as int),
                ),
        ).flatten(),
    decreases segs.len(),
{
    let metas = Seq::new(
        segs.len(),
        |i: int|
            Seq::new(
                segs[i].meta.num_docs as nat,
                |d: int| moved(segs[i].meta_of(d), urls_in(segs.take(i)).len() as int),
            ),
    );
    metas.lemma_flatten_and_flatten_alt_are_equivalent();
    if segs.len() > 0 {
        let front = segs.drop_last();
        law_metas_in(front);
        let less = Seq::new(
            front.len(),
            |i: int|
                Seq::new(
                    front[i].meta.num_docs as nat,
                    |d: int| moved(front[i].meta_of(d), urls_in(front.take(i)).len() as int),
                ),
        );
        less.lemma_flatten_and_flatten_alt_are_equivalent();
        assert forall|i: int| 0 <= i < front.len() implies metas[i] == less[i] by {
            assert(front.take(i) =~= segs.take(i));
            assert(metas[i] =~= less[i]);
        }
        assert(metas.drop_last() =~= less);
        assert(segs.take(segs.len() - 1) =~= front);
        assert(metas.last() =~= metas_of(
            *segs.last(),
            urls_in(front).len() as int,
        ));
    }
}

/// What a merge writes: the terms of the segments with their postings, and the tables of all their
/// documents.
pub proof fn law_merged_files<S, M>(
    segs: Seq<&DiskSegment<'_>>,
    seg_id: u64,
    files: SegmentFiles,
    max_score: S,
    mean: M,
) where S: Fn(Corpus, u64, u8) -> u32, M: Fn(u64, u64) -> u64
    requires
        merged(segs, seg_id, files, max_score, mean),
    ensures
        merges(merged_index(segs), segs),
        files.postings@ == postings_file(merged_index(segs)),
        fst_content(files.terms@) == Some(term_rows(merged_index(segs))),
        files.doclens@ == lens_in(segs).map_values(|n: u32| le_bytes(n as nat, 4)).flatten(),
        files.docmeta@ == metas_in(segs).map_values(|m: DocMeta| meta_bytes(m)).flatten(),
        files.docurls@ == urls_in(segs),
{
    law_table_of_numbers(lens_in(segs));
    law_table_of_records(metas_in(segs));
}

/// All segments are valid where each is.
pub proof fn law_all_valid(segs: Seq<&DiskSegment<'_>>)
    ensures
        all_valid(segs) <==> forall|i: int| 0 <= i < segs.len() ==> (#[trigger] segs[i]).valid(),
{
}

} // verus!
