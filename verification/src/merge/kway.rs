//! Making one segment out of several.
use vstd::prelude::*;
use vstd::slice::slice_to_vec;
use crate::codec::ascending;
use crate::le::{put_bytes, put_le_u32s};
use crate::le::{law_le_u32s_at, le_u32s, lemma_le_u32s_uniform};
use crate::merge::parts::{
    by_doc, can_merge, doc_keys, docs_in, fits_at, gathered, law_one_merge, lemma_counts,
    lens_in, lens_of, merged_index, merges, metas_in, metas_of, part_ok, shifted, some_has,
    top_gen, urls_in,
};
use crate::order::sort_order;
use crate::order::{lemma_sorted_by, pick, sorts, taken_before};
use crate::segment::disk::DiskSegment;
use crate::segment::docmeta::{put_metas, DOC_META_SIZE, DocMeta};
use crate::segment::docmeta::metas_bytes;
use crate::segment::files::{max_tf, survey, Corpus, SegmentFiles, SegmentMeta, TermWriter};
use crate::segment::files::{
    corpus_of, greatest_tf, ids_of, postings_file, term_rows, terms_ascending, total_len, Index,
};
use crate::segment::flush::u32_at;
use crate::segment::readback::term_in;
use crate::terms::{map_stream, relate, stream_next, Relation, TermStream};
use crate::terms::{
    bytes_lt, fst_content, fst_fits, fst_framed, has_key, keys_ascending, stream_rest, value_of,
};
use crate::terms::{lemma_lt_irreflexive, lemma_lt_total, lemma_lt_transitive, lemma_value_at};

verus! {

// ---------------------------------------------------------------------------------------------
// Documents
// ---------------------------------------------------------------------------------------------

proof fn lemma_docs_monotone(segs: Seq<&DiskSegment<'_>>, i: int)
    requires
        0 <= i <= segs.len(),
    ensures
        docs_in(segs.take(i)) <= docs_in(segs),
        urls_in(segs.take(i)).len() <= urls_in(segs).len(),
        top_gen(segs.take(i)) <= top_gen(segs),
    decreases segs.len() - i,
{
    if i == segs.len() {
        assert(segs.take(i) =~= segs);
    } else {
        lemma_docs_monotone(segs, i + 1);
        assert(segs.take(i + 1).drop_last() =~= segs.take(i));
    }
}

/// The lengths of all documents.
fn merge_lens(segments: &[&DiskSegment<'_>]) -> (lens: Vec<u32>)
    requires
        can_merge(segments@),
    ensures
        lens@ == lens_in(segments@),
{
    let mut lens: Vec<u32> = Vec::new();
    let mut i: usize = 0;
    assert(segments@.take(0) =~= Seq::empty());
    while i < segments.len()
        invariant
            i <= segments@.len(),
            can_merge(segments@),
            lens@ == lens_in(segments@.take(i as int)),
        decreases segments.len() - i,
    {
        let seg: &DiskSegment<'_> = segments[i];
        let ghost before = lens@;
        let mut d: u32 = 0;
        proof {
            lemma_part(segments@, i as int);
        }
        while (d as u64) < seg.meta.num_docs
            invariant
                d <= seg.meta.num_docs <= u32::MAX,
                4 * seg.meta.num_docs <= seg.doclens@.len(),
                lens@ == before + lens_of(*seg).take(d as int),
            decreases seg.meta.num_docs - d,
        {
            lens.push(seg.doc_len(d));
            assert(lens@ =~= before + lens_of(*seg).take(d + 1));
            d += 1;
        }
        assert(lens_of(*seg).take(d as int) =~= lens_of(*seg));
        i += 1;
    }
    assert(segments@.take(i as int) =~= segments@);
    lens
}

/// The records and the URLs of all documents.
fn merge_metas(segments: &[&DiskSegment<'_>]) -> (r: (Vec<DocMeta>, Vec<u8>))
    requires
        can_merge(segments@),
    ensures
        r.0@ == metas_in(segments@),
        r.1@ == urls_in(segments@),
{
    let mut metas: Vec<DocMeta> = Vec::new();
    let mut urls: Vec<u8> = Vec::new();
    let mut i: usize = 0;
    assert(segments@.take(0) =~= Seq::empty());
    while i < segments.len()
        invariant
            i <= segments@.len(),
            can_merge(segments@),
            metas@ == metas_in(segments@.take(i as int)),
            urls@ == urls_in(segments@.take(i as int)),
        decreases segments.len() - i,
    {
        let seg: &DiskSegment<'_> = segments[i];
        let ghost before = metas@;
        let base: u64 = urls.len() as u64;
        let mut d: u32 = 0;
        proof {
            lemma_part(segments@, i as int);
        }
        while (d as u64) < seg.meta.num_docs
            invariant
                d <= seg.meta.num_docs <= u32::MAX,
                DOC_META_SIZE * seg.meta.num_docs <= seg.docmeta@.len(),
                forall|k: int|
                    0 <= k < seg.meta.num_docs ==> (#[trigger] seg.meta_of(k)).url_offset + base
                        <= u64::MAX,
                metas@ == before + metas_of(*seg, base as int).take(d as int),
            decreases seg.meta.num_docs - d,
        {
            let m = seg.doc_meta(d);
            metas.push(
                DocMeta {
                    url_offset: m.url_offset + base,
                    url_len: m.url_len,
                    crawl_ts: m.crawl_ts,
                    content_hash: m.content_hash,
                    lang_id: m.lang_id,
                },
            );
            assert(metas@ =~= before + metas_of(*seg, base as int).take(d + 1));
            d += 1;
        }
        assert(metas_of(*seg, base as int).take(d as int) =~= metas_of(*seg, base as int));
        put_bytes(seg.docurls, &mut urls);
        i += 1;
    }
    assert(segments@.take(i as int) =~= segments@);
    (metas, urls)
}

/// The greatest number of merges that one of the segments has been through.
fn latest_gen(segments: &[&DiskSegment<'_>]) -> (top: u32)
    ensures
        top == top_gen(segments@),
{
    let mut top: u32 = 0;
    let mut i: usize = 0;
    assert(segments@.take(0) =~= Seq::empty());
    while i < segments.len()
        invariant
            i <= segments@.len(),
            top == top_gen(segments@.take(i as int)),
        decreases segments.len() - i,
    {
        assert(segments@.take(i + 1).drop_last() =~= segments@.take(i as int));
        if segments[i].meta.merge_gen > top {
            top = segments[i].meta.merge_gen;
        }
        i += 1;
    }
    assert(segments@.take(i as int) =~= segments@);
    top
}

// ---------------------------------------------------------------------------------------------
// Terms
// ---------------------------------------------------------------------------------------------

/// A walk through the terms of a segment that can be looked into.
struct Cursor<'m> {
    head: Option<(Vec<u8>, u64)>,
    stream: TermStream<'m>,
}

impl<'m> Cursor<'m> {
    /// The terms that are left, with where their lists start.
    spec fn rest(self) -> Seq<(Seq<u8>, u64)> {
        match self.head {
            Some((term, offset)) => seq![(term@, offset)] + stream_rest(self.stream),
            None => Seq::empty(),
        }
    }

    /// The walk ends where the stream does.
    spec fn wf(self) -> bool {
        self.head is None ==> stream_rest(self.stream).len() == 0
    }

    /// The terms that are left are the last ones of the segment.
    spec fn walks(self, seg: DiskSegment<'_>) -> bool {
        &&& self.wf()
        &&& self.rest().len() <= seg.rows().len()
        &&& self.rest() == seg.rows().skip(passed(self, seg))
    }

    fn open(seg: &'m DiskSegment<'_>) -> (c: Self)
        requires
            seg.has_terms(),
        ensures
            c.walks(*seg),
            c.rest() == seg.rows(),
    {
        let mut stream = map_stream(&seg.fst);
        let head = stream_next(&mut stream);
        let c = Cursor { head, stream };
        proof {
            assert(c.rest() =~= seg.rows());
            assert(seg.rows().skip(0) =~= seg.rows());
        }
        c
    }

    /// Goes to the next term.
    fn advance(&mut self)
        requires
            old(self).wf(),
            old(self).rest().len() > 0,
        ensures
            final(self).wf(),
            final(self).rest() == old(self).rest().skip(1),
    {
        let ghost left = stream_rest(self.stream);
        assert(self.rest().skip(1) =~= left);
        self.head = stream_next(&mut self.stream);
        assert(self.rest() =~= left);
    }
}

/// Number of terms that a walk has passed.
spec fn passed(c: Cursor<'_>, seg: DiskSegment<'_>) -> int {
    seg.rows().len() - c.rest().len()
}

/// Each walk goes through its segment.
spec fn all_walk(cursors: Seq<Cursor<'_>>, segs: Seq<&DiskSegment<'_>>) -> bool {
    &&& cursors.len() == segs.len()
    &&& forall|i: int| 0 <= i < segs.len() ==> (#[trigger] cursors[i]).walks(*segs[i])
}

/// Number of terms that are left.
spec fn left(cursors: Seq<Cursor<'_>>) -> nat
    decreases cursors.len(),
{
    if cursors.len() == 0 {
        0
    } else {
        left(cursors.drop_last()) + cursors.last().rest().len()
    }
}

/// Starts a walk through each segment.
fn open_all<'m>(segments: &'m [&DiskSegment<'_>]) -> (cursors: Vec<Cursor<'m>>)
    requires
        forall|i: int| 0 <= i < segments@.len() ==> (#[trigger] segments@[i]).has_terms(),
    ensures
        all_walk(cursors@, segments@),
        forall|i: int|
            0 <= i < segments@.len() ==> (#[trigger] cursors@[i]).rest() == segments@[i].rows(),
{
    let mut cursors: Vec<Cursor<'m>> = Vec::new();
    let mut i: usize = 0;
    while i < segments.len()
        invariant
            i <= segments@.len(),
            cursors@.len() == i,
            forall|k: int| 0 <= k < segments@.len() ==> (#[trigger] segments@[k]).has_terms(),
            forall|k: int|
                0 <= k < i ==> (#[trigger] cursors@[k]).walks(*segments@[k]) && cursors@[k].rest()
                    == segments@[k].rows(),
        decreases segments.len() - i,
    {
        cursors.push(Cursor::open(segments[i]));
        i += 1;
    }
    cursors
}

/// The walk whose next term comes before all others.
fn least(cursors: &Vec<Cursor<'_>>) -> (r: Option<usize>)
    ensures
        r is None <==> forall|i: int| 0 <= i < cursors@.len() ==> (#[trigger] cursors@[i]).rest().len() == 0,
        r matches Some(m) ==> {
            &&& m < cursors@.len()
            &&& cursors@[m as int].head is Some
            &&& forall|i: int|
                0 <= i < cursors@.len() && (#[trigger] cursors@[i]).rest().len() > 0 ==> !bytes_lt(
                    cursors@[i].rest()[0].0,
                    cursors@[m as int].rest()[0].0,
                )
        },
{
    let mut best: Option<usize> = None;
    let mut i: usize = 0;
    while i < cursors.len()
        invariant
            i <= cursors@.len(),
            best is None ==> forall|k: int| 0 <= k < i ==> (#[trigger] cursors@[k]).rest().len() == 0,
            best matches Some(m) ==> {
                &&& m < i
                &&& cursors@[m as int].head is Some
                &&& forall|k: int|
                    0 <= k < i && (#[trigger] cursors@[k]).rest().len() > 0 ==> !bytes_lt(
                        cursors@[k].rest()[0].0,
                        cursors@[m as int].rest()[0].0,
                    )
            },
        decreases cursors.len() - i,
    {
        match &cursors[i].head {
            None => {},
            Some((term, _)) => {
                assert(term@ == cursors@[i as int].rest()[0].0);
                match best {
                    None => {
                        proof {
                            lemma_lt_irreflexive(term@);
                        }
                        best = Some(i);
                    },
                    Some(m) => {
                        match &cursors[m].head {
                            None => {},
                            Some((other, _)) => {
                                assert(other@ == cursors@[m as int].rest()[0].0);
                                match relate(term.as_slice(), other.as_slice()) {
                                    Relation::Before => {
                                        proof {
                                            lemma_lt_irreflexive(term@);
                                            assert forall|k: int|
                                                0 <= k <= i && (#[trigger] cursors@[k]).rest().len()
                                                    > 0 implies !bytes_lt(
                                                cursors@[k].rest()[0].0,
                                                term@,
                                            ) by {
                                                if k < i && bytes_lt(
                                                    cursors@[k].rest()[0].0,
                                                    term@,
                                                ) {
                                                    lemma_lt_transitive(
                                                        cursors@[k].rest()[0].0,
                                                        term@,
                                                        other@,
                                                    );
                                                }
                                            }
                                        }
                                        best = Some(i);
                                    },
                                    Relation::Same => {
                                        proof {
                                            lemma_lt_irreflexive(term@);
                                        }
                                    },
                                    Relation::After => {
                                        proof {
                                            if bytes_lt(term@, other@) {
                                                lemma_lt_transitive(term@, other@, term@);
                                                lemma_lt_irreflexive(term@);
                                            }
                                        }
                                    },
                                }
                            },
                        }
                    },
                }
            },
        }
        i += 1;
    }
    best
}

/// A walk that stands at `term` has gone to the next term; another stands where it stood.
spec fn stepped(before: Seq<(Seq<u8>, u64)>, after: Seq<(Seq<u8>, u64)>, term: Seq<u8>) -> bool {
    after == (if before.len() > 0 && before[0].0 == term {
        before.skip(1)
    } else {
        before
    })
}

/// No walk has passed `term`, and each has passed what comes before it.
spec fn none_before(cursors: Seq<Cursor<'_>>, segs: Seq<&DiskSegment<'_>>, term: Seq<u8>) -> bool {
    &&& forall|i: int|
        0 <= i < cursors.len() && (#[trigger] cursors[i]).rest().len() > 0 ==> !bytes_lt(
            cursors[i].rest()[0].0,
            term,
        )
    &&& forall|i: int, j: int|
        0 <= i < cursors.len() && 0 <= j < passed(#[trigger] cursors[i], *segs[i]) ==> bytes_lt(
            (#[trigger] segs[i].rows()[j]).0,
            term,
        )
}

/// The segment at position `i` can be merged behind those before it.
proof fn lemma_part(segs: Seq<&DiskSegment<'_>>, i: int)
    requires
        can_merge(segs),
        0 <= i < segs.len(),
    ensures
        part_ok(*segs[i], docs_in(segs.take(i)) as int, urls_in(segs.take(i)).len() as int),
        part_ok(*segs[i], docs_in(segs.take(i)) as int, 0),
        segs[i].has_terms(),
        keys_ascending(segs[i].rows()),
        4 * segs[i].meta.num_docs <= segs[i].doclens@.len(),
        DOC_META_SIZE * segs[i].meta.num_docs <= segs[i].docmeta@.len(),
        segs.take(i + 1).drop_last() == segs.take(i),
        segs.take(i + 1).last() == segs[i],
        docs_in(segs.take(i + 1)) <= u32::MAX,
{
    assert(fits_at(segs, i));
    reveal(fits_at);
    assert(segs.take(i + 1).drop_last() =~= segs.take(i));
    lemma_docs_monotone(segs, i + 1);
}

/// What a segment has for the least term that is left: the list where its walk stands, or none.
proof fn lemma_at_least_term(c: Cursor<'_>, seg: DiskSegment<'_>, term: Seq<u8>)
    requires
        c.walks(seg),
        keys_ascending(seg.rows()),
        c.rest().len() > 0 ==> !bytes_lt(c.rest()[0].0, term),
        forall|j: int|
            0 <= j < passed(c, seg) ==> bytes_lt((#[trigger] seg.rows()[j]).0, term),
    ensures
        c.rest().len() > 0 ==> c.rest()[0] == seg.rows()[passed(c, seg)],
        value_of(seg.rows(), term) == (if c.rest().len() > 0 && c.rest()[0].0 == term {
            Some(c.rest()[0].1)
        } else {
            None
        }),
{
    let rows = seg.rows();
    let p = passed(c, seg);
    if c.rest().len() > 0 && c.rest()[0].0 == term {
        assert(rows[p].0 == term);
        lemma_value_at(rows, p);
    } else if has_key(rows, term) {
        let j = choose|j: int| 0 <= j < rows.len() && (#[trigger] rows[j]).0 == term;
        lemma_lt_irreflexive(term);
        if j >= p {
            assert(c.rest()[0] == rows[p]);
            if j > p {
                assert(bytes_lt(rows[p].0, rows[j].0));
            }
        }
    }
}

/// Appends the postings of a segment, with `base` documents before its own.
fn append_shifted(
    ids: &Vec<u32>,
    tfs: &Vec<u8>,
    base: u32,
    list: &mut Vec<(u32, u8)>,
    Ghost(own): Ghost<Seq<(u32, u8)>>,
)
    requires
        ids@ == ids_of(own),
        tfs@.len() == own.len(),
        forall|k: int| 0 <= k < own.len() ==> tfs@[k] == (#[trigger] own[k]).1,
        forall|k: int| 0 <= k < own.len() ==> (#[trigger] own[k]).0 + base <= u32::MAX,
    ensures
        final(list)@ == old(list)@ + shifted(own, base as int),
{
    let ghost before = list@;
    let mut k: usize = 0;
    while k < ids.len()
        invariant
            k <= ids@.len(),
            ids@ == ids_of(own),
            tfs@.len() == own.len(),
            forall|k: int| 0 <= k < own.len() ==> tfs@[k] == (#[trigger] own[k]).1,
            forall|k: int| 0 <= k < own.len() ==> (#[trigger] own[k]).0 + base <= u32::MAX,
            list@ == before + shifted(own, base as int).take(k as int),
        decreases ids.len() - k,
    {
        assert(ids@[k as int] == own[k as int].0);
        list.push((ids[k] + base, tfs[k]));
        assert(list@ =~= before + shifted(own, base as int).take(k + 1));
        k += 1;
    }
    assert(shifted(own, base as int).take(k as int) =~= shifted(own, base as int));
}

/// Takes the postings of the least term that is left from one segment, with `base` documents
/// before its own, and goes past the term.
fn take_from(
    seg: &DiskSegment<'_>,
    cursor: &mut Cursor<'_>,
    base: u32,
    term: &[u8],
    list: &mut Vec<(u32, u8)>,
)
    requires
        part_ok(*seg, base as int, 0),
        old(cursor).walks(*seg),
        old(cursor).rest().len() > 0 ==> !bytes_lt(old(cursor).rest()[0].0, term@),
        forall|j: int|
            0 <= j < passed(*old(cursor), *seg) ==> bytes_lt((#[trigger] seg.rows()[j]).0, term@),
    ensures
        final(cursor).walks(*seg),
        stepped(old(cursor).rest(), final(cursor).rest(), term@),
        final(list)@ == old(list)@ + shifted(seg.postings_of(term@), base as int),
{
    let ghost c = *cursor;
    proof {
        lemma_at_least_term(c, *seg, term@);
    }
    let hit: Option<u64> = match &cursor.head {
        None => None,
        Some((other, offset)) => {
            assert(other@ == c.rest()[0].0);
            match relate(other.as_slice(), term) {
                Relation::Same => Some(*offset),
                _ => None,
            }
        },
    };
    match hit {
        Some(offset) => {
            let ghost own = seg.list_at(offset);
            proof {
                assert(c.rest()[0] == (term@, offset));
                assert(seg.rows()[passed(c, *seg)].1 == offset);
                assert(own == seg.postings_of(term@));
            }
            let (ids, tfs) = seg.read_postings(offset);
            append_shifted(&ids, &tfs, base, list, Ghost(own));
            cursor.advance();
            proof {
                let rows = seg.rows();
                let p = passed(c, *seg);
                assert(rows.skip(p).skip(1) =~= rows.skip(p + 1));
            }
        },
        None => {
            assert(list@ + shifted(seg.postings_of(term@), base as int) =~= list@);
        },
    }
}

/// Gathers the postings of the least term that is left, and goes past it.
fn gather(segments: &[&DiskSegment<'_>], cursors: &mut Vec<Cursor<'_>>, term: &[u8]) -> (list: Vec<
    (u32, u8),
>)
    requires
        can_merge(segments@),
        all_walk(old(cursors)@, segments@),
        none_before(old(cursors)@, segments@, term@),
    ensures
        list@ == gathered(segments@, term@),
        all_walk(final(cursors)@, segments@),
        forall|i: int|
            #![trigger final(cursors)@[i]]
            0 <= i < segments@.len() ==> stepped(
                old(cursors)@[i].rest(),
                final(cursors)@[i].rest(),
                term@,
            ),
{
    let ghost start = cursors@;
    let ghost segs = segments@;
    let mut list: Vec<(u32, u8)> = Vec::new();
    let mut base: u32 = 0;
    let mut i: usize = 0;
    assert(segs.take(0) =~= Seq::empty());
    while i < segments.len()
        invariant
            i <= segs.len(),
            segs == segments@,
            can_merge(segs),
            all_walk(start, segs),
            none_before(start, segs, term@),
            cursors@.len() == segs.len(),
            forall|k: int|
                0 <= k < i ==> (#[trigger] cursors@[k]).walks(*segs[k]) && stepped(
                    start[k].rest(),
                    cursors@[k].rest(),
                    term@,
                ),
            forall|k: int| i <= k < segs.len() ==> #[trigger] cursors@[k] == start[k],
            base == docs_in(segs.take(i as int)),
            list@ == gathered(segs.take(i as int), term@),
        decreases segments.len() - i,
    {
        let seg: &DiskSegment<'_> = segments[i];
        proof {
            assert(cursors@[i as int] == start[i as int]);
            assert(start[i as int].walks(*seg));
            lemma_part(segs, i as int);
        }
        take_from(seg, &mut cursors[i], base, term, &mut list);
        base = base + seg.meta.num_docs as u32;
        i += 1;
    }
    assert(segs.take(i as int) =~= segs);
    list
}

/// Puts a list into the order of its documents.
fn sort_by_doc(list: &Vec<(u32, u8)>) -> (sorted: Vec<(u32, u8)>)
    ensures
        sorted@ == by_doc(list@),
        ascending(ids_of(sorted@)),
{
    let mut keys: Vec<u64> = Vec::new();
    let mut i: usize = 0;
    while i < list.len()
        invariant
            i <= list@.len(),
            keys@ == doc_keys(list@.take(i as int)),
        decreases list.len() - i,
    {
        keys.push(list[i].0 as u64);
        i += 1;
        assert(keys@ =~= doc_keys(list@.take(i as int)));
    }
    assert(list@.take(i as int) =~= list@);
    let order = sort_order(keys.as_slice());
    let mut sorted: Vec<(u32, u8)> = Vec::new();
    let mut j: usize = 0;
    while j < order.len()
        invariant
            j <= order@.len(),
            sorts(keys@, order@),
            keys@ == doc_keys(list@),
            sorted@ == pick(list@, order@.take(j as int)),
        decreases order.len() - j,
    {
        sorted.push(list[order[j]]);
        j += 1;
        assert(sorted@ =~= pick(list@, order@.take(j as int)));
    }
    proof {
        assert(order@.take(j as int) =~= order@);
        lemma_sorted_by(list@, keys@, order@);
        let ids = ids_of(sorted@);
        assert forall|a: int, b: int| 0 <= a <= b < ids.len() implies ids[a] <= ids[b] by {
            if a < b {
                assert(taken_before(keys@, order@[a], order@[b]));
            }
        }
    }
    sorted
}

/// `done` has the terms that the walks have passed, each with the postings of all segments, and
/// they come before the terms that are left.
spec fn covers(done: Index, cursors: Seq<Cursor<'_>>, segs: Seq<&DiskSegment<'_>>) -> bool {
    &&& forall|i: int, j: int|
        0 <= i < segs.len() && 0 <= j < passed(#[trigger] cursors[i], *segs[i]) ==> term_in(
            done,
            (#[trigger] segs[i].rows()[j]).0,
        )
    &&& forall|i: int|
        done.len() > 0 && 0 <= i < segs.len() && (#[trigger] cursors[i]).rest().len() > 0
            ==> bytes_lt(done.last().0, cursors[i].rest()[0].0)
    &&& forall|k: int|
        0 <= k < done.len() ==> some_has(segs, (#[trigger] done[k]).0) && done[k].1 == by_doc(
            gathered(segs, done[k].0),
        )
}

/// The next term of walk `m` comes before the next terms of all others.
spec fn is_least(cursors: Seq<Cursor<'_>>, m: int) -> bool {
    &&& 0 <= m < cursors.len()
    &&& cursors[m].rest().len() > 0
    &&& forall|i: int|
        0 <= i < cursors.len() && (#[trigger] cursors[i]).rest().len() > 0 ==> !bytes_lt(
            cursors[i].rest()[0].0,
            cursors[m].rest()[0].0,
        )
}

proof fn lemma_none_before(
    done: Index,
    cursors: Seq<Cursor<'_>>,
    segs: Seq<&DiskSegment<'_>>,
    m: int,
)
    requires
        terms_ascending(done),
        all_walk(cursors, segs),
        covers(done, cursors, segs),
        is_least(cursors, m),
    ensures
        none_before(cursors, segs, cursors[m].rest()[0].0),
        done.len() > 0 ==> bytes_lt(done.last().0, cursors[m].rest()[0].0),
{
    let term = cursors[m].rest()[0].0;
    assert forall|i: int, j: int|
        0 <= i < cursors.len() && 0 <= j < passed(#[trigger] cursors[i], *segs[i]) implies bytes_lt(
        (#[trigger] segs[i].rows()[j]).0,
        term,
    ) by {
        let key = segs[i].rows()[j].0;
        assert(term_in(done, key));
        let k = choose|k: int| 0 <= k < done.len() && (#[trigger] done[k]).0 == key;
        assert(bytes_lt(done.last().0, term));
        if k < done.len() - 1 {
            assert(bytes_lt(done[k].0, done[done.len() - 1].0));
            lemma_lt_transitive(key, done.last().0, term);
        }
    }
}

proof fn lemma_left_drops(before: Seq<Cursor<'_>>, after: Seq<Cursor<'_>>, m: int)
    requires
        before.len() == after.len(),
        0 <= m < before.len(),
        forall|i: int|
            #![trigger after[i]]
            0 <= i < before.len() ==> after[i].rest().len() <= before[i].rest().len(),
        after[m].rest().len() < before[m].rest().len(),
    ensures
        left(after) < left(before),
    decreases before.len(),
{
    let n = before.len() - 1;
    let b = before.drop_last();
    let a = after.drop_last();
    assert forall|i: int| #![trigger a[i]] 0 <= i < b.len() implies a[i].rest().len()
        <= b[i].rest().len() by {
        assert(a[i] == after[i]);
    }
    assert(after[n].rest().len() <= before[n].rest().len());
    if m == n {
        lemma_left_bounded(b, a);
    } else {
        assert(a[m] == after[m] && b[m] == before[m]);
        lemma_left_drops(b, a, m);
    }
}

proof fn lemma_left_bounded(before: Seq<Cursor<'_>>, after: Seq<Cursor<'_>>)
    requires
        before.len() == after.len(),
        forall|i: int|
            #![trigger after[i]]
            0 <= i < before.len() ==> after[i].rest().len() <= before[i].rest().len(),
    ensures
        left(after) <= left(before),
    decreases before.len(),
{
    if before.len() > 0 {
        let n = before.len() - 1;
        let b = before.drop_last();
        let a = after.drop_last();
        assert forall|i: int| #![trigger a[i]] 0 <= i < b.len() implies a[i].rest().len()
            <= b[i].rest().len() by {
            assert(a[i] == after[i]);
        }
        assert(after[n].rest().len() <= before[n].rest().len());
        lemma_left_bounded(b, a);
    }
}

/// Writing the least term that is left takes the merge one term further.
proof fn lemma_covers_more(
    done: Index,
    before: Seq<Cursor<'_>>,
    after: Seq<Cursor<'_>>,
    segs: Seq<&DiskSegment<'_>>,
    m: int,
)
    requires
        can_merge(segs),
        terms_ascending(done),
        all_walk(before, segs),
        all_walk(after, segs),
        covers(done, before, segs),
        is_least(before, m),
        forall|i: int|
            #![trigger after[i]]
            0 <= i < segs.len() ==> stepped(before[i].rest(), after[i].rest(), before[m].rest()[0].0),
    ensures
        covers(
            done.push(
                (before[m].rest()[0].0, by_doc(gathered(segs, before[m].rest()[0].0))),
            ),
            after,
            segs,
        ),
        left(after) < left(before),
{
    let term = before[m].rest()[0].0;
    let list = by_doc(gathered(segs, term));
    let more = done.push((term, list));
    lemma_none_before(done, before, segs, m);
    assert forall|t: Seq<u8>| term_in(done, t) || t == term implies #[trigger] term_in(more, t) by {
        if term_in(done, t) {
            let k = choose|k: int| 0 <= k < done.len() && (#[trigger] done[k]).0 == t;
            assert(more[k].0 == t);
        } else {
            assert(more[done.len() as int].0 == t);
        }
    }
    assert forall|i: int| 0 <= i < segs.len() implies keys_ascending(
        (#[trigger] segs[i]).rows(),
    ) by {
        lemma_part(segs, i);
    }
    assert forall|i: int, j: int|
        0 <= i < segs.len() && 0 <= j < passed(#[trigger] after[i], *segs[i]) implies term_in(
        more,
        (#[trigger] segs[i].rows()[j]).0,
    ) by {
        assert(before[i].walks(*segs[i]));
        if j < passed(before[i], *segs[i]) {
            assert(term_in(done, segs[i].rows()[j].0));
        } else {
            assert(before[i].rest()[0] == segs[i].rows()[j]);
        }
    }
    assert forall|i: int|
        0 <= i < segs.len() && (#[trigger] after[i]).rest().len() > 0 implies bytes_lt(
        more.last().0,
        after[i].rest()[0].0,
    ) by {
        let rows = segs[i].rows();
        let p = passed(before[i], *segs[i]);
        assert(before[i].walks(*segs[i]));
        assert(before[i].rest()[0] == rows[p]);
        if before[i].rest()[0].0 == term {
            assert(after[i].rest()[0] == rows[p + 1]);
            assert(bytes_lt(rows[p].0, rows[p + 1].0));
        } else {
            lemma_lt_total(before[i].rest()[0].0, term);
        }
    }
    assert(some_has(segs, term)) by {
        let rows = segs[m].rows();
        let p = passed(before[m], *segs[m]);
        assert(before[m].walks(*segs[m]));
        assert(before[m].rest()[0] == rows[p]);
        assert(keys_ascending(segs[m].rows()));
        lemma_value_at(rows, p);
    }
    assert forall|k: int| 0 <= k < more.len() implies some_has(segs, (#[trigger] more[k]).0)
        && more[k].1 == by_doc(gathered(segs, more[k].0)) by {
        if k < done.len() {
            assert(more[k] == done[k]);
        }
    }
    assert(stepped(before[m].rest(), after[m].rest(), term));
    lemma_left_drops(before, after, m);
}

/// When no term is left, the merge is done.
proof fn lemma_covers_all(done: Index, cursors: Seq<Cursor<'_>>, segs: Seq<&DiskSegment<'_>>)
    requires
        terms_ascending(done),
        all_walk(cursors, segs),
        covers(done, cursors, segs),
        forall|i: int| 0 <= i < cursors.len() ==> (#[trigger] cursors[i]).rest().len() == 0,
    ensures
        merges(done, segs),
{
    assert forall|t: Seq<u8>| #[trigger] term_in(done, t) <==> some_has(segs, t) by {
        if term_in(done, t) {
            let k = choose|k: int| 0 <= k < done.len() && (#[trigger] done[k]).0 == t;
            assert(some_has(segs, done[k].0));
        }
        if some_has(segs, t) {
            let i = choose|i: int|
                0 <= i < segs.len() && value_of((#[trigger] segs[i]).rows(), t) is Some;
            let rows = segs[i].rows();
            assert(has_key(rows, t));
            let j = choose|j: int| 0 <= j < rows.len() && (#[trigger] rows[j]).0 == t;
            assert(cursors[i].rest().len() == 0);
            assert(passed(cursors[i], *segs[i]) == rows.len());
            assert(term_in(done, segs[i].rows()[j].0));
        }
    }
}

/// `bits` is what `max_score` gives for a term of the merged segment, from its documents, the
/// number of those that have the term, and the greatest frequency of the term.
pub open spec fn merge_scored<S>(
    lens: Seq<u32>,
    list: Seq<(u32, u8)>,
    bits: u32,
    max_score: S,
) -> bool where S: Fn(Corpus, u64, u8) -> u32 {
    call_ensures(max_score, (corpus_of(lens), list.len() as u64, greatest_tf(list)), bits)
}

/// Writes the terms of all segments with their postings. Returns the postings file, the term file
/// and the highest score that each term can give.
fn merge_terms<S>(
    segments: &[&DiskSegment<'_>],
    corpus: Corpus,
    max_score: S,
    Ghost(lens): Ghost<Seq<u32>>,
) -> (r: (Vec<u8>, Vec<u8>, Vec<u32>, Ghost<Index>)) where S: Fn(Corpus, u64, u8) -> u32
    requires
        can_merge(segments@),
        corpus == corpus_of(lens),
        forall|corpus: Corpus, doc_freq: u64, top: u8|
            call_requires(max_score, (corpus, doc_freq, top)),
    ensures
        merges(r.3@, segments@),
        r.0@ == postings_file(r.3@),
        fst_content(r.1@) == Some(term_rows(r.3@)),
        fst_framed(r.1@),
        fst_fits(r.1@),
        r.2@.len() == r.3@.len(),
        forall|i: int|
            0 <= i < r.3@.len() ==> merge_scored(
                lens,
                (#[trigger] r.3@[i]).1,
                r.2@[i],
                max_score,
            ),
{
    let ghost segs = segments@;
    proof {
        assert forall|i: int| 0 <= i < segs.len() implies (#[trigger] segs[i]).has_terms() by {
            lemma_part(segs, i);
        }
    }
    let mut cursors = open_all(segments);
    let mut writer = TermWriter::new();
    let mut scores: Vec<u32> = Vec::new();
    loop
        invariant_except_break
            segs == segments@,
            can_merge(segs),
            corpus == corpus_of(lens),
            forall|corpus: Corpus, doc_freq: u64, top: u8|
                call_requires(max_score, (corpus, doc_freq, top)),
            all_walk(cursors@, segs),
            covers(writer.index(), cursors@, segs),
        invariant
            writer.wf(),
            scores@.len() == writer.index().len(),
            forall|i: int|
                0 <= i < scores@.len() ==> merge_scored(
                    lens,
                    (#[trigger] writer.index()[i]).1,
                    scores@[i],
                    max_score,
                ),
        ensures
            merges(writer.index(), segs),
        decreases left(cursors@),
    {
        let ghost done = writer.index();
        let ghost before = cursors@;
        proof {
            writer.lemma_ascending();
        }
        let m: usize = match least(&cursors) {
            Some(m) => m,
            None => {
                proof {
                    lemma_covers_all(done, cursors@, segs);
                }
                break;
            },
        };
        let term: Vec<u8> = match &cursors[m].head {
            Some((term, _)) => slice_to_vec(term.as_slice()),
            None => Vec::new(),
        };
        proof {
            assert(term@ == before[m as int].rest()[0].0);
            lemma_none_before(done, before, segs, m as int);
        }
        let gathered_list = gather(segments, &mut cursors, term.as_slice());
        let list = sort_by_doc(&gathered_list);
        proof {
            lemma_covers_more(done, before, cursors@, segs, m as int);
        }
        let bits: u32 = max_score(corpus, list.len() as u64, max_tf(list.as_slice()));
        scores.push(bits);
        writer.push(term.as_slice(), list.as_slice());
    }
    let ghost index = writer.index();
    let (postings, terms) = writer.finish();
    (postings, terms, scores, Ghost(index))
}

// ---------------------------------------------------------------------------------------------
// The merged segment
// ---------------------------------------------------------------------------------------------

/// The files hold what the segments hold together. `max_score` and `mean` are what computed the
/// scores and the mean document length.
pub open spec fn merged<S, M>(
    segs: Seq<&DiskSegment<'_>>,
    seg_id: u64,
    files: SegmentFiles,
    max_score: S,
    mean: M,
) -> bool where S: Fn(Corpus, u64, u8) -> u32, M: Fn(u64, u64) -> u64 {
    let index = merged_index(segs);
    &&& merges(index, segs)
    &&& files.postings@ == postings_file(index)
    &&& fst_content(files.terms@) == Some(term_rows(index))
    &&& fst_framed(files.terms@) && fst_fits(files.terms@)
    &&& files.terminfo is None
    &&& files.maxscores@.len() == 4 * index.len()
    &&& forall|i: int|
        0 <= i < index.len() ==> merge_scored(
            lens_in(segs),
            (#[trigger] index[i]).1,
            u32_at(files.maxscores@, i),
            max_score,
        )
    &&& files.doclens@ == le_u32s(lens_in(segs))
    &&& files.docmeta@ == metas_bytes(metas_in(segs))
    &&& files.docurls@ == urls_in(segs)
    &&& files.meta.seg_id == seg_id
    &&& files.meta.num_docs == docs_in(segs)
    &&& files.meta.num_terms == index.len()
    &&& files.meta.total_postings == index.len()
    &&& files.meta.merge_gen == top_gen(segs) + 1
    &&& call_ensures(
        mean,
        (total_len(lens_in(segs)) as u64, docs_in(segs) as u64),
        files.meta.avg_doc_len,
    )
}

/// Merges segments: makes the files of a segment with the number `seg_id` that holds what they
/// hold together. Document numbers of a segment are raised by the number of documents in the
/// segments before it.
///
/// `max_score` and `mean` are as in [`MemSegment::flush`](crate::segment::MemSegment::flush).
pub fn k_way_merge<S, M>(
    segments: &[&DiskSegment<'_>],
    seg_id: u64,
    max_score: S,
    mean: M,
) -> (files: SegmentFiles) where S: Fn(Corpus, u64, u8) -> u32, M: Fn(u64, u64) -> u64
    requires
        can_merge(segments@),
        forall|corpus: Corpus, doc_freq: u64, top: u8|
            call_requires(max_score, (corpus, doc_freq, top)),
        forall|total: u64, num_docs: u64| call_requires(mean, (total, num_docs)),
    ensures
        merged(segments@, seg_id, files, max_score, mean),
{
    let lens = merge_lens(segments);
    proof {
        lemma_counts(segments@);
    }
    let corpus = survey(lens.as_slice());
    let (postings, terms, scores, index) = merge_terms(segments, corpus, max_score, Ghost(lens@));
    let (metas, docurls) = merge_metas(segments);
    let top: u32 = latest_gen(segments);
    let avg_doc_len: u64 = mean(corpus.total_len, corpus.num_docs);
    let mut maxscores: Vec<u8> = Vec::new();
    put_le_u32s(scores.as_slice(), &mut maxscores);
    let mut doclens: Vec<u8> = Vec::new();
    put_le_u32s(lens.as_slice(), &mut doclens);
    let mut docmeta: Vec<u8> = Vec::new();
    put_metas(metas.as_slice(), &mut docmeta);
    proof {
        law_one_merge(segments@, index@, merged_index(segments@));
        assert(maxscores@ =~= le_u32s(scores@));
        assert(doclens@ =~= le_u32s(lens@));
        assert(docmeta@ =~= metas_bytes(metas@));
        lemma_le_u32s_uniform(scores@);
        assert forall|i: int| 0 <= i < index@.len() implies merge_scored(
            lens@,
            (#[trigger] index@[i]).1,
            u32_at(maxscores@, i),
            max_score,
        ) by {
            law_le_u32s_at(scores@, i);
        }
    }
    SegmentFiles {
        meta: SegmentMeta {
            seg_id,
            num_docs: corpus.num_docs,
            num_terms: scores.len() as u64,
            avg_doc_len,
            total_postings: scores.len() as u64,
            merge_gen: top + 1,
        },
        postings,
        terms,
        terminfo: None,
        maxscores,
        doclens,
        docmeta,
        docurls,
    }
}

/// Whether one of the segments to merge can be read, and its numbers can be raised by these.
fn part_is_ok(seg: &DiskSegment<'_>, docs: u32, urls: u64) -> (r: bool)
    requires
        seg.has_terms(),
        keys_ascending(seg.rows()),
    ensures
        r <==> part_ok(*seg, docs as int, urls as int) && docs + seg.meta.num_docs <= u32::MAX,
{
    if seg.meta.num_docs > (u32::MAX - docs) as u64 {
        return false;
    }
    if seg.doclens.len() as u64 / 4 < seg.meta.num_docs {
        return false;
    }
    if seg.docmeta.len() as u64 / 28 < seg.meta.num_docs {
        return false;
    }
    let mut d: u32 = 0;
    while (d as u64) < seg.meta.num_docs
        invariant
            d <= seg.meta.num_docs <= u32::MAX,
            DOC_META_SIZE * seg.meta.num_docs <= seg.docmeta@.len(),
            forall|k: int|
                0 <= k < d ==> (#[trigger] seg.meta_of(k)).url_offset + urls <= u64::MAX,
        decreases seg.meta.num_docs - d,
    {
        if seg.doc_meta(d).url_offset > u64::MAX - urls {
            assert(seg.meta_of(d as int).url_offset + urls > u64::MAX);
            return false;
        }
        d += 1;
    }
    let limit: u64 = 0x1_0000_0000 - docs as u64;
    let mut stream = map_stream(&seg.fst);
    let ghost mut seen: int = 0;
    assert(seg.rows().skip(0) =~= seg.rows());
    loop
        invariant
            0 <= seen <= seg.rows().len(),
            stream_rest(stream) == seg.rows().skip(seen),
            limit == 0x1_0000_0000 - docs,
            seg.has_terms(),
            keys_ascending(seg.rows()),
            docs + seg.meta.num_docs <= u32::MAX,
            4 * seg.meta.num_docs <= seg.doclens@.len(),
            DOC_META_SIZE * seg.meta.num_docs <= seg.docmeta@.len(),
            forall|k: int|
                0 <= k < seg.meta.num_docs ==> (#[trigger] seg.meta_of(k)).url_offset + urls
                    <= u64::MAX,
            forall|j: int|
                #![trigger seg.rows()[j]]
                0 <= j < seen ==> seg.has_list(seg.rows()[j].1) && seg.list_below(
                    seg.rows()[j].1,
                    limit as int,
                ),
        decreases seg.rows().len() - seen,
    {
        match stream_next(&mut stream) {
            Some((_, offset)) => {
                assert(seg.rows().skip(seen)[0] == seg.rows()[seen]);
                if !seg.readable_below(offset, limit) {
                    return false;
                }
                proof {
                    assert(seg.rows().skip(seen).skip(1) =~= seg.rows().skip(seen + 1));
                    seen = seen + 1;
                }
            },
            None => {
                return true;
            },
        }
    }
}

/// Whether segments can be merged.
pub fn is_mergeable(segments: &[&DiskSegment<'_>]) -> (r: bool)
    requires
        forall|i: int|
            0 <= i < segments@.len() ==> (#[trigger] segments@[i]).has_terms() && keys_ascending(
                segments@[i].rows(),
            ),
    ensures
        r <==> can_merge(segments@),
{
    let ghost segs = segments@;
    if latest_gen(segments) == u32::MAX {
        return false;
    }
    let mut docs: u32 = 0;
    let mut urls: u64 = 0;
    let mut i: usize = 0;
    assert(segs.take(0) =~= Seq::empty());
    while i < segments.len()
        invariant
            i <= segs.len(),
            segs == segments@,
            top_gen(segs) < u32::MAX,
            forall|k: int|
                0 <= k < segs.len() ==> (#[trigger] segs[k]).has_terms() && keys_ascending(
                    segs[k].rows(),
                ),
            docs == docs_in(segs.take(i as int)),
            urls == urls_in(segs.take(i as int)).len(),
            forall|k: int| 0 <= k < i ==> #[trigger] fits_at(segs, k),
        decreases segments.len() - i,
    {
        let seg: &DiskSegment<'_> = segments[i];
        proof {
            lemma_docs_monotone(segs, i + 1);
            assert(segs.take(i + 1).drop_last() =~= segs.take(i as int));
        }
        if !part_is_ok(seg, docs, urls) {
            assert(!can_merge(segs)) by {
                if can_merge(segs) {
                    lemma_part(segs, i as int);
                }
            }
            return false;
        }
        if seg.docurls.len() as u64 > u64::MAX - urls {
            return false;
        }
        assert(fits_at(segs, i as int)) by {
            reveal(fits_at);
        }
        docs = docs + seg.meta.num_docs as u32;
        urls = urls + seg.docurls.len() as u64;
        i += 1;
    }
    assert(segs.take(i as int) =~= segs);
    true
}

} // verus!
