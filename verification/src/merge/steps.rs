//! Merging in several steps.
use vstd::prelude::*;
use crate::le::law_le_u32s_at;
use crate::merge::kway::{merge_scored, merged};
use crate::merge::laws::{
    all_valid, law_merge_keeps_postings, law_merge_valid, law_valid_segments_merge,
};
use crate::merge::laws::lemma_valid_postings;
use crate::merge::parts::{
    by_doc, docs_in, gathered, law_one_merge, lemma_counts, lens_in, lens_of, merged_index,
    merges, metas_in, metas_of, moved, shifted, some_has, urls_in,
};
use crate::segment::disk::{DiskSegment, SegmentBytes};
use crate::segment::docmeta::{law_metas_at, DocMeta};
use crate::segment::files::{Corpus, SegmentFiles};
use crate::segment::flush::u32_at;
use crate::segment::readback::term_in;
use crate::terms::{fst_content, value_of};

verus! {

proof fn lemma_docs_concat<'a, 'b>(a: Seq<&'b DiskSegment<'a>>, b: Seq<&'b DiskSegment<'a>>)
    ensures
        docs_in(a + b) == docs_in(a) + docs_in(b),
        lens_in(a + b) == lens_in(a) + lens_in(b),
        urls_in(a + b) == urls_in(a) + urls_in(b),
    decreases b.len(),
{
    if b.len() == 0 {
        assert(a + b =~= a);
        assert(lens_in(a) + lens_in(b) =~= lens_in(a));
        assert(urls_in(a) + urls_in(b) =~= urls_in(a));
    } else {
        let front = b.drop_last();
        assert((a + b).drop_last() =~= a + front);
        assert((a + b).last() == b.last());
        lemma_docs_concat(a, front);
        assert(lens_in(a + b) =~= lens_in(a) + lens_in(b));
        assert(urls_in(a + b) =~= urls_in(a) + urls_in(b));
    }
}

proof fn lemma_valid_concat<'a, 'b>(a: Seq<&'b DiskSegment<'a>>, b: Seq<&'b DiskSegment<'a>>)
    requires
        all_valid(a + b),
    ensures
        all_valid(a),
        all_valid(b),
{
    assert forall|i: int| 0 <= i < a.len() implies (#[trigger] a[i]).valid() by {
        assert((a + b)[i] == a[i]);
    }
    assert forall|i: int| 0 <= i < b.len() implies (#[trigger] b[i]).valid() by {
        assert((a + b)[a.len() + i] == b[i]);
    }
}

/// The records with `by` more bytes of URLs in front of theirs.
spec fn all_moved(metas: Seq<DocMeta>, by: int) -> Seq<DocMeta> {
    metas.map_values(|m: DocMeta| moved(m, by))
}

proof fn lemma_metas_concat<'a, 'b>(a: Seq<&'b DiskSegment<'a>>, b: Seq<&'b DiskSegment<'a>>)
    requires
        all_valid(b),
        urls_in(b).len() <= u64::MAX,
    ensures
        metas_in(a + b) == metas_in(a) + all_moved(metas_in(b), urls_in(a).len() as int),
    decreases b.len(),
{
    let by = urls_in(a).len() as int;
    if b.len() == 0 {
        assert(a + b =~= a);
        assert(metas_in(a) + all_moved(metas_in(b), by) =~= metas_in(a));
    } else {
        let front = b.drop_last();
        let last = *b.last();
        let between = urls_in(front).len() as int;
        assert((a + b).drop_last() =~= a + front);
        assert((a + b).last() == b.last());
        assert(front + seq![b.last()] =~= b);
        lemma_valid_concat(front, seq![b.last()]);
        lemma_metas_concat(a, front);
        lemma_docs_concat(a, front);
        assert(b[b.len() - 1].valid());
        assert(metas_of(last, by + between) =~= all_moved(metas_of(last, between), by)) by {
            assert forall|d: int| 0 <= d < last.meta.num_docs implies metas_of(last, by + between)[d]
                == all_moved(metas_of(last, between), by)[d] by {
                assert(last.has_url(last.meta_of(d)));
            }
        }
        assert(all_moved(metas_in(b), by) =~= all_moved(metas_in(front), by) + all_moved(
            metas_of(last, between),
            by,
        ));
        assert(metas_in(a + b) =~= metas_in(a) + all_moved(metas_in(b), by));
    }
}

proof fn lemma_gathered_concat<'a, 'b>(
    a: Seq<&'b DiskSegment<'a>>,
    b: Seq<&'b DiskSegment<'a>>,
    term: Seq<u8>,
)
    requires
        all_valid(b),
        docs_in(b) <= u32::MAX,
    ensures
        gathered(a + b, term) == gathered(a, term) + shifted(gathered(b, term), docs_in(a) as int),
    decreases b.len(),
{
    let by = docs_in(a) as int;
    if b.len() == 0 {
        assert(a + b =~= a);
        assert(gathered(a, term) + shifted(gathered(b, term), by) =~= gathered(a, term));
    } else {
        let front = b.drop_last();
        let own = b.last().postings_of(term);
        let between = docs_in(front) as int;
        assert((a + b).drop_last() =~= a + front);
        assert((a + b).last() == b.last());
        assert(front + seq![b.last()] =~= b);
        lemma_valid_concat(front, seq![b.last()]);
        lemma_gathered_concat(a, front, term);
        lemma_docs_concat(a, front);
        assert(b[b.len() - 1].valid());
        lemma_valid_postings(*b.last(), term);
        assert(shifted(own, by + between) =~= shifted(shifted(own, between), by)) by {
            assert forall|k: int| 0 <= k < own.len() implies shifted(own, by + between)[k]
                == shifted(shifted(own, between), by)[k] by {
                assert(own[k].0 < b.last().meta.num_docs);
            }
        }
        assert(shifted(gathered(b, term), by) =~= shifted(gathered(front, term), by) + shifted(
            shifted(own, between),
            by,
        ));
        assert(gathered(a + b, term) =~= gathered(a, term) + shifted(gathered(b, term), by));
    }
}

proof fn lemma_has_concat<'a, 'b>(
    a: Seq<&'b DiskSegment<'a>>,
    b: Seq<&'b DiskSegment<'a>>,
    term: Seq<u8>,
)
    ensures
        some_has(a + b, term) <==> some_has(a, term) || some_has(b, term),
{
    let all = a + b;
    if some_has(a, term) {
        let i = choose|i: int|
            0 <= i < a.len() && value_of((#[trigger] a[i]).rows(), term) is Some;
        assert(all[i] == a[i]);
    }
    if some_has(b, term) {
        let i = choose|i: int|
            0 <= i < b.len() && value_of((#[trigger] b[i]).rows(), term) is Some;
        assert(all[a.len() + i] == b[i]);
    }
    if some_has(all, term) {
        let i = choose|i: int|
            0 <= i < all.len() && value_of((#[trigger] all[i]).rows(), term) is Some;
        if i < a.len() {
            assert(a[i] == all[i]);
        } else {
            assert(b[i - a.len()] == all[i]);
        }
    }
}

/// Two lists of segments hold the same: the same documents, and for each term the same postings.
pub open spec fn hold_the_same(a: Seq<&DiskSegment<'_>>, b: Seq<&DiskSegment<'_>>) -> bool {
    &&& docs_in(a) == docs_in(b)
    &&& lens_in(a) == lens_in(b)
    &&& metas_in(a) == metas_in(b)
    &&& urls_in(a) == urls_in(b)
    &&& forall|t: Seq<u8>| #[trigger] gathered(a, t) == gathered(b, t)
    &&& forall|t: Seq<u8>| #[trigger] some_has(a, t) <==> some_has(b, t)
}

/// What was merged holds what the segments held that it was made from.
pub proof fn law_merged_holds_the_same<'a, 'b, S, M>(
    segs: Seq<&'b DiskSegment<'a>>,
    seg_id: u64,
    files: SegmentFiles,
    max_score: S,
    mean: M,
    bytes: SegmentBytes<'a>,
    seg: &'b DiskSegment<'a>,
) where S: Fn(Corpus, u64, u8) -> u32, M: Fn(u64, u64) -> u64
    requires
        all_valid(segs),
        docs_in(segs) <= u32::MAX,
        urls_in(segs).len() <= u64::MAX,
        merged(segs, seg_id, files, max_score, mean),
        bytes.holds(files),
        seg.opened(bytes),
    ensures
        hold_the_same(seq![seg], segs),
{
    let one = seq![seg];
    law_valid_segments_merge(segs);
    law_merge_keeps_postings(segs, seg_id, files, max_score, mean, bytes, *seg);
    lemma_counts(segs);
    assert(one.drop_last() =~= Seq::<&DiskSegment<'_>>::empty());
    assert(one.last() == seg);
    reveal_with_fuel(docs_in, 2);
    reveal_with_fuel(lens_in, 2);
    reveal_with_fuel(metas_in, 2);
    reveal_with_fuel(urls_in, 2);
    reveal_with_fuel(gathered, 2);
    assert(lens_in(one) =~= lens_in(segs)) by {
        assert forall|d: int| 0 <= d < docs_in(segs) implies lens_of(*seg)[d] == lens_in(segs)[d] by {
            law_le_u32s_at(lens_in(segs), d);
        }
    }
    assert(metas_in(one) =~= metas_in(segs)) by {
        assert forall|d: int| 0 <= d < docs_in(segs) implies metas_of(*seg, 0)[d] == metas_in(
            segs,
        )[d] by {
            law_metas_at(metas_in(segs), d);
        }
    }
    assert(urls_in(one) =~= urls_in(segs));
    assert forall|t: Seq<u8>| #[trigger] gathered(one, t) == gathered(segs, t) by {
        assert(seg.postings_of(t) == gathered(segs, t));
        assert(gathered(one, t) =~= seg.postings_of(t));
    }
    assert forall|t: Seq<u8>| #[trigger] some_has(one, t) <==> some_has(segs, t) by {
        assert(value_of(seg.rows(), t) is Some <==> some_has(segs, t));
        if some_has(segs, t) {
            assert(value_of(one[0].rows(), t) is Some);
        }
    }
}

proof fn lemma_same_in_place<'a, 'b>(
    before: Seq<&'b DiskSegment<'a>>,
    a: Seq<&'b DiskSegment<'a>>,
    b: Seq<&'b DiskSegment<'a>>,
    after: Seq<&'b DiskSegment<'a>>,
)
    requires
        hold_the_same(a, b),
        all_valid(a),
        all_valid(before + b + after),
        docs_in(before + b + after) <= u32::MAX,
        urls_in(before + b + after).len() <= u64::MAX,
    ensures
        hold_the_same(before + a + after, before + b + after),
{
    lemma_valid_concat(before + b, after);
    lemma_valid_concat(before, b);
    lemma_docs_concat(before + a, after);
    lemma_docs_concat(before, a);
    lemma_docs_concat(before + b, after);
    lemma_docs_concat(before, b);
    lemma_metas_concat(before + a, after);
    lemma_metas_concat(before, a);
    lemma_metas_concat(before + b, after);
    lemma_metas_concat(before, b);
    let x = before + a + after;
    let y = before + b + after;
    assert forall|t: Seq<u8>| #[trigger] gathered(x, t) == gathered(y, t) by {
        lemma_gathered_concat(before + a, after, t);
        lemma_gathered_concat(before, a, t);
        lemma_gathered_concat(before + b, after, t);
        lemma_gathered_concat(before, b, t);
        assert(gathered(a, t) == gathered(b, t));
    }
    assert forall|t: Seq<u8>| #[trigger] some_has(x, t) <==> some_has(y, t) by {
        lemma_has_concat(before + a, after, t);
        lemma_has_concat(before, a, t);
        lemma_has_concat(before + b, after, t);
        lemma_has_concat(before, b, t);
        assert(some_has(a, t) <==> some_has(b, t));
    }
}

/// Segments that hold the same merge into the same terms with the same postings.
proof fn lemma_same_index(a: Seq<&DiskSegment<'_>>, b: Seq<&DiskSegment<'_>>)
    requires
        hold_the_same(a, b),
        merges(merged_index(a), a),
        merges(merged_index(b), b),
    ensures
        merged_index(a) == merged_index(b),
{
    let index = merged_index(a);
    assert forall|t: Seq<u8>| #[trigger] term_in(index, t) <==> some_has(b, t) by {
        assert(some_has(a, t) <==> some_has(b, t));
    }
    assert forall|i: int| 0 <= i < index.len() implies (#[trigger] index[i]).1
        == by_doc(gathered(b, index[i].0)) by {
        assert(gathered(a, index[i].0) == gathered(b, index[i].0));
    }
    law_one_merge(b, index, merged_index(b));
}

/// `mean` gives one result for given arguments.
pub open spec fn one_mean<M>(mean: M) -> bool where M: Fn(u64, u64) -> u64 {
    forall|total: u64, num_docs: u64, r: u64, s: u64|
        #[trigger] call_ensures(mean, (total, num_docs), r)
            && #[trigger] call_ensures(mean, (total, num_docs), s) ==> r == s
}

/// `max_score` gives one result for given arguments.
pub open spec fn one_score<S>(max_score: S) -> bool where S: Fn(Corpus, u64, u8) -> u32 {
    forall|corpus: Corpus, doc_freq: u64, top: u8, r: u32, s: u32|
        #[trigger] call_ensures(max_score, (corpus, doc_freq, top), r)
            && #[trigger] call_ensures(max_score, (corpus, doc_freq, top), s) ==> r == s
}

/// Merging in two steps makes what merging at once makes. `segs` are `before`, the segments that
/// went into `part`, and `after`; `part` is the segment that the first step made, and takes the
/// place of these in the second.
///
/// The number of merges that the result has been through is not the same: each step counts.
pub proof fn law_merge_in_steps<'a, 'b, S, M>(
    before: Seq<&'b DiskSegment<'a>>,
    middle: Seq<&'b DiskSegment<'a>>,
    after: Seq<&'b DiskSegment<'a>>,
    part_id: u64,
    part_files: SegmentFiles,
    bytes: SegmentBytes<'a>,
    part: &'b DiskSegment<'a>,
    seg_id: u64,
    in_steps: SegmentFiles,
    at_once: SegmentFiles,
    max_score: S,
    mean: M,
) where S: Fn(Corpus, u64, u8) -> u32, M: Fn(u64, u64) -> u64
    requires
        all_valid(before + middle + after),
        docs_in(before + middle + after) <= u32::MAX,
        urls_in(before + middle + after).len() <= u64::MAX,
        merged(middle, part_id, part_files, max_score, mean),
        bytes.holds(part_files),
        part.opened(bytes),
        merged(before + seq![part] + after, seg_id, in_steps, max_score, mean),
        merged(before + middle + after, seg_id, at_once, max_score, mean),
    ensures
        in_steps.postings@ == at_once.postings@,
        fst_content(in_steps.terms@) == fst_content(at_once.terms@),
        in_steps.doclens@ == at_once.doclens@,
        in_steps.docmeta@ == at_once.docmeta@,
        in_steps.docurls@ == at_once.docurls@,
        in_steps.maxscores@.len() == at_once.maxscores@.len(),
        one_score(max_score) ==> forall|i: int|
            0 <= i < in_steps.meta.num_terms ==> u32_at(in_steps.maxscores@, i) == u32_at(
                at_once.maxscores@,
                i,
            ),
        in_steps.meta.num_docs == at_once.meta.num_docs,
        in_steps.meta.num_terms == at_once.meta.num_terms,
        in_steps.meta.total_postings == at_once.meta.total_postings,
        one_mean(mean) ==> in_steps.meta.avg_doc_len == at_once.meta.avg_doc_len,
{
    let x = before + seq![part] + after;
    let y = before + middle + after;
    lemma_valid_concat(before + middle, after);
    lemma_valid_concat(before, middle);
    lemma_docs_concat(before + middle, after);
    lemma_docs_concat(before, middle);
    law_merged_holds_the_same(middle, part_id, part_files, max_score, mean, bytes, part);
    law_valid_segments_merge(middle);
    law_merge_valid(middle, part_id, part_files, max_score, mean, bytes, *part);
    lemma_same_in_place(before, seq![part], middle, after);
    lemma_same_index(x, y);
    let index = merged_index(y);
    assert forall|i: int| 0 <= i < index.len() && one_score(max_score) implies u32_at(
        in_steps.maxscores@,
        i,
    ) == u32_at(at_once.maxscores@, i) by {
        assert(merge_scored(
            lens_in(y),
            index[i].1,
            u32_at(in_steps.maxscores@, i),
            max_score,
        ));
        assert(merge_scored(lens_in(y), index[i].1, u32_at(at_once.maxscores@, i), max_score));
    }
}

} // verus!
