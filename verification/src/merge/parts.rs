//! What several segments hold together. The documents of each segment follow those of the segment
//! before it.
use vstd::prelude::*;
use crate::order::sorted_by;
use crate::segment::disk::DiskSegment;
use crate::segment::docmeta::{DOC_META_SIZE, DocMeta};
use crate::segment::files::{terms_ascending, Index};
use crate::segment::readback::{lemma_term_unique, term_in};
use crate::terms::{bytes_lt, keys_ascending, lemma_lt_irreflexive, lemma_lt_transitive, value_of};

verus! {

/// Number of documents.
pub open spec fn docs_in(segs: Seq<&DiskSegment<'_>>) -> nat
    decreases segs.len(),
{
    if segs.len() == 0 {
        0
    } else {
        docs_in(segs.drop_last()) + segs.last().meta.num_docs as nat
    }
}

/// The lengths of the documents of a segment.
pub open spec fn lens_of(seg: DiskSegment<'_>) -> Seq<u32> {
    Seq::new(seg.meta.num_docs as nat, |d: int| seg.len_of(d))
}

/// The lengths of all documents.
pub open spec fn lens_in(segs: Seq<&DiskSegment<'_>>) -> Seq<u32>
    decreases segs.len(),
{
    if segs.len() == 0 {
        Seq::empty()
    } else {
        lens_in(segs.drop_last()) + lens_of(*segs.last())
    }
}

/// The URLs of all documents.
pub open spec fn urls_in(segs: Seq<&DiskSegment<'_>>) -> Seq<u8>
    decreases segs.len(),
{
    if segs.len() == 0 {
        Seq::empty()
    } else {
        urls_in(segs.drop_last()) + segs.last().docurls@
    }
}

/// A record whose URL lies `by` bytes further to the back.
pub open spec fn moved(m: DocMeta, by: int) -> DocMeta {
    DocMeta {
        url_offset: (m.url_offset + by) as u64,
        url_len: m.url_len,
        crawl_ts: m.crawl_ts,
        content_hash: m.content_hash,
        lang_id: m.lang_id,
    }
}

/// The records of the documents of a segment, with `by` bytes of URLs in front of theirs.
pub open spec fn metas_of(seg: DiskSegment<'_>, by: int) -> Seq<DocMeta> {
    Seq::new(seg.meta.num_docs as nat, |d: int| moved(seg.meta_of(d), by))
}

/// The records of all documents.
pub open spec fn metas_in(segs: Seq<&DiskSegment<'_>>) -> Seq<DocMeta>
    decreases segs.len(),
{
    if segs.len() == 0 {
        Seq::empty()
    } else {
        metas_in(segs.drop_last()) + metas_of(
            *segs.last(),
            urls_in(segs.drop_last()).len() as int,
        )
    }
}

/// Each document has one length and one record.
pub proof fn lemma_counts(segs: Seq<&DiskSegment<'_>>)
    ensures
        lens_in(segs).len() == docs_in(segs),
        metas_in(segs).len() == docs_in(segs),
    decreases segs.len(),
{
    if segs.len() > 0 {
        lemma_counts(segs.drop_last());
    }
}

/// The greatest number of merges that one of the segments has been through.
pub open spec fn top_gen(segs: Seq<&DiskSegment<'_>>) -> u32
    decreases segs.len(),
{
    if segs.len() == 0 {
        0
    } else if top_gen(segs.drop_last()) < segs.last().meta.merge_gen {
        segs.last().meta.merge_gen
    } else {
        top_gen(segs.drop_last())
    }
}

/// The list with each document number raised by `by`.
pub open spec fn shifted(list: Seq<(u32, u8)>, by: int) -> Seq<(u32, u8)> {
    list.map_values(|e: (u32, u8)| ((e.0 + by) as u32, e.1))
}

/// The postings that the segments have for a term, one segment after the other.
pub open spec fn gathered(segs: Seq<&DiskSegment<'_>>, term: Seq<u8>) -> Seq<(u32, u8)>
    decreases segs.len(),
{
    if segs.len() == 0 {
        Seq::empty()
    } else {
        gathered(segs.drop_last(), term) + shifted(
            segs.last().postings_of(term),
            docs_in(segs.drop_last()) as int,
        )
    }
}

/// The documents of a list, as keys to sort it by.
pub open spec fn doc_keys(list: Seq<(u32, u8)>) -> Seq<u64> {
    list.map_values(|e: (u32, u8)| e.0 as u64)
}

/// The list in the order of its documents.
pub open spec fn by_doc(list: Seq<(u32, u8)>) -> Seq<(u32, u8)> {
    sorted_by(list, doc_keys(list))
}

/// Some segment has the term.
pub open spec fn some_has(segs: Seq<&DiskSegment<'_>>, term: Seq<u8>) -> bool {
    exists|i: int|
        0 <= i < segs.len() && value_of((#[trigger] segs[i]).rows(), term) is Some
}

/// `index` has the terms that some segment has, each with the postings of all segments.
pub open spec fn merges(index: Index, segs: Seq<&DiskSegment<'_>>) -> bool {
    &&& terms_ascending(index)
    &&& forall|t: Seq<u8>| #[trigger] term_in(index, t) <==> some_has(segs, t)
    &&& forall|i: int|
        0 <= i < index.len() ==> (#[trigger] index[i]).1 == by_doc(gathered(segs, index[i].0))
}

/// The terms of the segments, with the postings of all of them.
pub open spec fn merged_index(segs: Seq<&DiskSegment<'_>>) -> Index {
    choose|index: Index| merges(index, segs)
}

/// What merging makes of the segments is determined by them.
pub proof fn law_one_merge(segs: Seq<&DiskSegment<'_>>, a: Index, b: Index)
    requires
        merges(a, segs),
        merges(b, segs),
    ensures
        a == b,
{
    let n = if a.len() < b.len() {
        a.len() as int
    } else {
        b.len() as int
    };
    lemma_merges_agree(segs, a, b, n);
    if n < a.len() {
        assert(term_in(a, a[n].0));
        lemma_no_more(a, b, n);
    }
    if n < b.len() {
        assert(term_in(b, b[n].0));
        lemma_no_more(b, a, n);
    }
    assert(a =~= b);
}

/// Behind the terms that two indexes share there is no term that both have.
proof fn lemma_no_more(a: Index, b: Index, n: int)
    requires
        terms_ascending(a),
        n == b.len(),
        n < a.len(),
        forall|i: int| 0 <= i < n ==> a[i] == b[i],
    ensures
        !term_in(b, a[n].0),
{
    if term_in(b, a[n].0) {
        let k = choose|k: int| 0 <= k < b.len() && (#[trigger] b[k]).0 == a[n].0;
        assert(a[k] == b[k]);
        lemma_term_unique(a, k, n);
    }
}

proof fn lemma_merges_agree(segs: Seq<&DiskSegment<'_>>, a: Index, b: Index, n: int)
    requires
        merges(a, segs),
        merges(b, segs),
        0 <= n <= a.len(),
        n <= b.len(),
    ensures
        forall|i: int| 0 <= i < n ==> a[i] == b[i],
    decreases n,
{
    if n > 0 {
        lemma_merges_agree(segs, a, b, n - 1);
        let i = n - 1;
        let s = a[i].0;
        let t = b[i].0;
        assert(term_in(a, s) && term_in(b, t));
        assert(term_in(b, s) && term_in(a, t));
        let j = choose|j: int| 0 <= j < b.len() && (#[trigger] b[j]).0 == s;
        let k = choose|k: int| 0 <= k < a.len() && (#[trigger] a[k]).0 == t;
        if j < i {
            assert(a[j] == b[j]);
            lemma_term_unique(a, j, i);
        }
        if k < i {
            assert(a[k] == b[k]);
            lemma_term_unique(b, k, i);
        }
        if j > i && k > i {
            assert(bytes_lt(b[i].0, b[j].0));
            assert(bytes_lt(a[i].0, a[k].0));
            lemma_lt_transitive(s, t, s);
            lemma_lt_irreflexive(s);
        }
        assert(s == t);
        assert(a[i].1 == by_doc(gathered(segs, s)));
        assert(b[i].1 == by_doc(gathered(segs, t)));
    }
}

/// One of the segments to merge, with `docs` documents and `urls` bytes of URLs before its own:
/// its lists and its tables can be read, and its numbers can be raised by these.
pub open spec fn part_ok(seg: DiskSegment<'_>, docs: int, urls: int) -> bool {
    &&& seg.has_terms()
    &&& keys_ascending(seg.rows())
    &&& forall|j: int|
        #![trigger seg.rows()[j]]
        0 <= j < seg.rows().len() ==> seg.has_list(seg.rows()[j].1) && seg.list_below(
            seg.rows()[j].1,
            0x1_0000_0000 - docs,
        )
    &&& 4 * seg.meta.num_docs <= seg.doclens@.len()
    &&& DOC_META_SIZE * seg.meta.num_docs <= seg.docmeta@.len()
    &&& forall|d: int|
        0 <= d < seg.meta.num_docs ==> (#[trigger] seg.meta_of(d)).url_offset + urls <= u64::MAX
}

/// Segment `i` can be merged behind those before it.
#[verifier::opaque]
pub open spec fn fits_at(segs: Seq<&DiskSegment<'_>>, i: int) -> bool {
    part_ok(*segs[i], docs_in(segs.take(i)) as int, urls_in(segs.take(i)).len() as int)
}

/// The segments can be merged.
pub open spec fn can_merge(segs: Seq<&DiskSegment<'_>>) -> bool {
    &&& forall|i: int| 0 <= i < segs.len() ==> #[trigger] fits_at(segs, i)
    &&& docs_in(segs) <= u32::MAX
    &&& urls_in(segs).len() <= u64::MAX
    &&& top_gen(segs) < u32::MAX
}

} // verus!
