//! Searching a segment.
use vstd::prelude::*;
use crate::bm25::scan::{
    can_search, in_list, is_next, kept, matches_query, next_doc, no_best, numeric, offer,
    query_terms_of, reaches, run, score, term_of, tf_in, upper, worst, Best, Term,
};
use crate::bm25::scan::{bound_keys, found};
use crate::bm25::score::{
    has_number, is_above, is_at_most, is_number, rank_of, Bm25Scorer, ScoredDoc, ZERO,
};
use crate::bm25::score::{above, falling_key};
use crate::order::sort_order;
use crate::order::{law_sorted_same_items, order_of, pick, sorts, taken_before};
use crate::segment::disk::DiskSegment;
use crate::segment::disk::{ids_below, ids_distinct};
use crate::segment::files::max_tf;
use crate::segment::files::{ids_of, tfs_of};
use crate::segment::mem::token_bytes;
use crate::terms::value_of;

verus! {

/// A term of the query on the way through its postings.
struct TermState {
    list: Vec<(u32, u8)>,
    ptr: usize,
    weight: u32,
    bound: u32,
}

impl TermState {
    spec fn term(self) -> Term {
        Term { list: self.list@, weight: self.weight, bound: self.bound }
    }

    /// The documents before `from` have been passed.
    spec fn at(self, from: int) -> bool {
        &&& self.ptr <= self.list@.len()
        &&& ids_distinct(self.list@)
        &&& forall|j: int| 0 <= j < self.ptr ==> (#[trigger] self.list@[j]).0 < from
        &&& forall|j: int| self.ptr <= j < self.list@.len() ==> (#[trigger] self.list@[j]).0 >= from
    }
}

spec fn terms_of(states: Seq<TermState>) -> Seq<Term> {
    states.map_values(|s: TermState| s.term())
}

spec fn all_at(states: Seq<TermState>, from: int) -> bool {
    forall|i: int| 0 <= i < states.len() ==> (#[trigger] states[i]).at(from)
}

/// Puts documents and frequencies side by side.
fn zip(ids: &Vec<u32>, tfs: &Vec<u8>, Ghost(own): Ghost<Seq<(u32, u8)>>) -> (list: Vec<(u32, u8)>)
    requires
        ids@ == ids_of(own),
        tfs@ == tfs_of(own),
    ensures
        list@ == own,
{
    let mut list: Vec<(u32, u8)> = Vec::new();
    let mut i: usize = 0;
    while i < ids.len()
        invariant
            i <= ids@.len(),
            ids@ == ids_of(own),
            tfs@ == tfs_of(own),
            list@ == own.take(i as int),
        decreases ids.len() - i,
    {
        assert(ids@[i as int] == own[i as int].0);
        assert(tfs@[i as int] == own[i as int].1);
        list.push((ids[i], tfs[i]));
        i += 1;
        assert(list@ =~= own.take(i as int));
    }
    assert(own.take(i as int) =~= own);
    list
}

/// Whether a segment can be searched for these terms.
pub fn is_searchable(seg: &DiskSegment<'_>, query_terms: &[String]) -> (r: bool)
    requires
        seg.has_terms(),
    ensures
        r <==> can_search(*seg, token_bytes(query_terms@)),
{
    if seg.doclens.len() as u64 / 4 < seg.meta.num_docs {
        return false;
    }
    let ghost words = token_bytes(query_terms@);
    let mut i: usize = 0;
    while i < query_terms.len()
        invariant
            i <= query_terms@.len(),
            words == token_bytes(query_terms@),
            seg.has_terms(),
            forall|k: int|
                0 <= k < i ==> (value_of(seg.rows(), #[trigger] words[k]) matches Some(offset)
                    ==> seg.list_sound(offset)),
        decreases query_terms.len() - i,
    {
        match seg.term_offset(query_terms[i].as_str()) {
            Some(offset) => {
                assert(value_of(seg.rows(), words[i as int]) == Some(offset));
                if !seg.sound_at(offset) {
                    return false;
                }
            },
            None => {},
        }
        i += 1;
    }
    true
}

/// Puts terms into the order of their bounds.
fn by_bound(states: Vec<TermState>) -> (sorted: Vec<TermState>)
    ensures
        sorts(bound_keys(terms_of(states@)), order_of(bound_keys(terms_of(states@)))),
        sorted@ == pick(states@, order_of(bound_keys(terms_of(states@)))),
{
    let ghost start = states@;
    let mut states = states;
    let mut keys: Vec<u64> = Vec::new();
    let mut i: usize = 0;
    while i < states.len()
        invariant
            i <= states@.len(),
            states@ == start,
            keys@ == bound_keys(terms_of(start)).take(i as int),
        decreases states.len() - i,
    {
        keys.push((0x8000_0000 + rank_of(states[i].bound)) as u64);
        i += 1;
        assert(keys@ =~= bound_keys(terms_of(start)).take(i as int));
    }
    assert(keys@ =~= bound_keys(terms_of(start)));
    let order = sort_order(keys.as_slice());
    let mut sorted: Vec<TermState> = Vec::new();
    let mut j: usize = 0;
    while j < order.len()
        invariant
            j <= order@.len(),
            sorts(keys@, order@),
            keys@.len() == start.len(),
            states@.len() == start.len(),
            sorted@ == pick(start, order@.take(j as int)),
            forall|k: int|
                j <= k < order@.len() ==> states@[(#[trigger] order@[k]) as int]
                    == start[order@[k] as int],
        decreases order.len() - j,
    {
        let p: usize = order[j];
        let mut state = TermState { list: Vec::new(), ptr: 0, weight: 0, bound: 0 };
        assert(states@[order@[j as int] as int] == start[p as int]);
        std::mem::swap(&mut state, &mut states[p]);
        sorted.push(state);
        proof {
            assert forall|k: int| j < k < order@.len() implies states@[(#[trigger] order@[k]) as int]
                == start[order@[k] as int] by {
                assert(taken_before(keys@, order@[j as int], order@[k]));
            }
        }
        j += 1;
        assert(sorted@ =~= pick(start, order@.take(j as int)));
    }
    proof {
        assert(order@.take(j as int) =~= order@);
    }
    sorted
}

/// Between `from` and the next document no term has one.
proof fn lemma_at_next(states: Seq<TermState>, from: int, doc: u32)
    requires
        all_at(states, from),
        is_next(terms_of(states), from, doc),
    ensures
        all_at(states, doc as int),
{
    let terms = terms_of(states);
    assert forall|i: int| 0 <= i < states.len() implies (#[trigger] states[i]).at(doc as int) by {
        let list = states[i].list@;
        assert(states[i].at(from));
        assert forall|j: int| states[i].ptr <= j < list.len() implies (#[trigger] list[j]).0
            >= doc by {
            assert(in_list(terms[i].list, list[j].0));
            assert(matches_query(terms, list[j].0));
        }
    }
}

/// The next document that one of the terms has.
fn next_of(states: &Vec<TermState>, Ghost(from): Ghost<int>) -> (r: Option<u32>)
    requires
        all_at(states@, from),
    ensures
        r == next_doc(terms_of(states@), from),
        r matches Some(doc) ==> is_next(terms_of(states@), from, doc),
{
    let ghost terms = terms_of(states@);
    let mut best: Option<u32> = None;
    let mut i: usize = 0;
    while i < states.len()
        invariant
            i <= states@.len(),
            all_at(states@, from),
            terms == terms_of(states@),
            best is None ==> forall|k: int|
                0 <= k < i ==> (#[trigger] states@[k]).ptr == states@[k].list@.len(),
            best matches Some(doc) ==> {
                &&& matches_query(terms, doc)
                &&& doc >= from
                &&& forall|k: int|
                    0 <= k < i && (#[trigger] states@[k]).ptr < states@[k].list@.len() ==> doc
                        <= states@[k].list@[states@[k].ptr as int].0
            },
        decreases states.len() - i,
    {
        assert(states@[i as int].at(from));
        if states[i].ptr < states[i].list.len() {
            let doc: u32 = states[i].list[states[i].ptr].0;
            assert(matches_query(terms, doc)) by {
                assert(terms[i as int].list[states@[i as int].ptr as int].0 == doc);
                assert(in_list(terms[i as int].list, doc));
            }
            match best {
                Some(least) => {
                    if doc < least {
                        best = Some(doc);
                    }
                },
                None => {
                    best = Some(doc);
                },
            }
        }
        i += 1;
    }
    proof {
        assert forall|e: u32| #[trigger] matches_query(terms, e) && e >= from implies best
            is Some && best->0 <= e by {
            let k = choose|k: int| 0 <= k < terms.len() && in_list((#[trigger] terms[k]).list, e);
            let list = states@[k].list@;
            assert(terms[k].list == list);
            let j = choose|j: int| 0 <= j < list.len() && (#[trigger] list[j]).0 == e;
            assert(states@[k].at(from));
            assert(j >= states@[k].ptr);
            let p = states@[k].ptr as int;
            if p < j {
                assert(list[p].0 < list[j].0);
            }
        }
        match best {
            Some(doc) => {
                assert(is_next(terms, from, doc));
                let other = choose|d: u32| is_next(terms, from, d);
                assert(is_next(terms, from, other));
                assert(matches_query(terms, other));
            },
            None => {
                assert forall|d: u32| !is_next(terms, from, d) by {}
            },
        }
    }
    best
}

/// Where the document stands that is given up first.
fn worst_of(top: &Vec<ScoredDoc>) -> (w: usize)
    requires
        top@.len() > 0,
    ensures
        w == worst(top@),
        w < top@.len(),
{
    let mut w: usize = 0;
    let mut i: usize = 1;
    assert(worst(top@.take(1)) == 0);
    while i < top.len()
        invariant
            1 <= i <= top@.len(),
            w < i,
            w == worst(top@.take(i as int)),
        decreases top.len() - i,
    {
        proof {
            let taken = top@.take(i + 1);
            assert(taken.drop_last() =~= top@.take(i as int));
            assert(taken.last() == top@[i as int]);
            assert(taken[w as int] == top@[w as int]);
        }
        if top[i].score < top[w].score || (top[i].score == top[w].score && top[i].doc_id
            < top[w].doc_id) {
            w = i;
        }
        i += 1;
    }
    assert(top@.take(i as int) =~= top@);
    w
}

/// Takes another document among the best, if it is one of them.
fn consider(top: &mut Vec<ScoredDoc>, threshold: &mut u32, k: usize, doc: ScoredDoc)
    requires
        k > 0,
        old(top)@.len() <= k,
    ensures
        (Best { top: final(top)@, threshold: *final(threshold) }) == offer(
            (Best { top: old(top)@, threshold: *old(threshold) }),
            k as nat,
            doc,
        ),
        final(top)@.len() <= k,
{
    if is_above(doc.score, *threshold) || top.len() < k {
        top.push(doc);
        if top.len() > k {
            let w: usize = worst_of(top);
            top.remove(w);
        }
        if top.len() == k {
            *threshold = top[worst_of(top)].score;
        }
    }
}

/// Each term is before its first document, and its documents are among the first `docs`.
spec fn all_fresh(states: Seq<TermState>, docs: int) -> bool {
    forall|i: int|
        0 <= i < states.len() ==> (#[trigger] states[i]).at(0) && ids_below(states[i].list@, docs)
}

impl<W, B, P, A> Bm25Scorer<W, B, P, A> where
    W: Fn(u64, u64) -> u32,
    B: Fn(u32, u8, u64) -> u32,
    P: Fn(u32, u8, u32, u64) -> u32,
    A: Fn(u32, u32) -> u32,
 {
    /// Looks up the terms of a query.
    fn look_up(&self, seg: &DiskSegment<'_>, query_terms: &[String]) -> (states: Vec<TermState>)
        requires
            self.wf(),
            can_search(*seg, token_bytes(query_terms@)),
        ensures
            terms_of(states@) == found(self.arithmetic(), *seg, token_bytes(query_terms@)),
            all_fresh(states@, seg.meta.num_docs as int),
    {
        let ghost words = token_bytes(query_terms@);
        let ghost math = self.arithmetic();
        let mut states: Vec<TermState> = Vec::new();
        let mut i: usize = 0;
        assert(terms_of(states@) =~= found(math, *seg, words.take(0)));
        while i < query_terms.len()
            invariant
                i <= query_terms@.len(),
                self.wf(),
                words == token_bytes(query_terms@),
                math == self.arithmetic(),
                can_search(*seg, words),
                terms_of(states@) == found(math, *seg, words.take(i as int)),
                all_fresh(states@, seg.meta.num_docs as int),
            decreases query_terms.len() - i,
        {
            let ghost before = states@;
            proof {
                assert(words.take(i + 1).drop_last() =~= words.take(i as int));
                assert(words.take(i + 1).last() == words[i as int]);
            }
            match seg.term_offset(query_terms[i].as_str()) {
                Some(offset) => {
                    assert(value_of(seg.rows(), words[i as int]) == Some(offset));
                    assert(seg.list_sound(offset));
                    let (ids, tfs) = seg.read_postings(offset);
                    let list = zip(&ids, &tfs, Ghost(seg.list_at(offset)));
                    let top: u8 = max_tf(list.as_slice());
                    let weight: u32 = self.weight(seg.meta.num_docs, list.len() as u64);
                    let bound: u32 = self.term_bound(weight, top, seg.meta.avg_doc_len);
                    let state = TermState { list, ptr: 0, weight, bound };
                    assert(state.term() == term_of(math, seg.meta, seg.postings_of(words[i as int])));
                    states.push(state);
                    assert(terms_of(states@) =~= terms_of(before).push(state.term()));
                },
                None => {},
            }
            i += 1;
        }
        assert(words.take(i as int) =~= words);
        states
    }

    /// Sum of the bounds of the terms that have a document from `from` on.
    fn sum_bounds(&self, states: &Vec<TermState>, Ghost(from): Ghost<int>) -> (bits: u32)
        requires
            self.wf(),
            all_at(states@, from),
        ensures
            bits == upper(self.arithmetic(), terms_of(states@), from),
    {
        let ghost terms = terms_of(states@);
        let ghost math = self.arithmetic();
        let mut bits: u32 = ZERO;
        let mut i: usize = 0;
        while i < states.len()
            invariant
                i <= states@.len(),
                self.wf(),
                math == self.arithmetic(),
                terms == terms_of(states@),
                all_at(states@, from),
                bits == upper(math, terms.take(i as int), from),
            decreases states.len() - i,
        {
            proof {
                let taken = terms.take(i + 1);
                assert(taken.drop_last() =~= terms.take(i as int));
                assert(taken.last() == terms[i as int]);
                let s = states@[i as int];
                assert(s.at(from));
                if s.ptr < s.list@.len() {
                    assert(s.list@[s.ptr as int].0 >= from);
                }
                assert(reaches(s.list@, from) <==> s.ptr < s.list@.len());
            }
            if states[i].ptr < states[i].list.len() {
                bits = self.add_scores(bits, states[i].bound);
            }
            i += 1;
        }
        assert(terms.take(i as int) =~= terms);
        bits
    }

    /// Scores a document, and takes the terms past it.
    fn score_doc(&self, states: &mut Vec<TermState>, doc: u32, len: u32, avg: u64) -> (bits: u32)
        requires
            self.wf(),
            all_at(old(states)@, doc as int),
        ensures
            bits == score(self.arithmetic(), terms_of(old(states)@), doc, len, avg),
            terms_of(final(states)@) == terms_of(old(states)@),
            all_at(final(states)@, doc + 1),
    {
        let ghost start = states@;
        let ghost terms = terms_of(states@);
        let ghost math = self.arithmetic();
        let mut bits: u32 = ZERO;
        let mut i: usize = 0;
        while i < states.len()
            invariant
                i <= states@.len(),
                states@.len() == start.len(),
                self.wf(),
                math == self.arithmetic(),
                terms == terms_of(start),
                all_at(start, doc as int),
                forall|k: int|
                    0 <= k < i ==> (#[trigger] states@[k]).at(doc + 1) && states@[k].term()
                        == start[k].term(),
                forall|k: int| i <= k < states@.len() ==> #[trigger] states@[k] == start[k],
                bits == score(math, terms.take(i as int), doc, len, avg),
            decreases states.len() - i,
        {
            let ghost s = start[i as int];
            proof {
                let taken = terms.take(i + 1);
                assert(taken.drop_last() =~= terms.take(i as int));
                assert(taken.last() == terms[i as int]);
                assert(states@[i as int] == s);
                assert(s.at(doc as int));
            }
            let ptr: usize = states[i].ptr;
            if ptr < states[i].list.len() && states[i].list[ptr].0 == doc {
                let tf: u8 = states[i].list[ptr].1;
                proof {
                    lemma_tf_at(s.list@, ptr as int);
                }
                let part: u32 = self.term_part(states[i].weight, tf, len, avg);
                bits = self.add_scores(bits, part);
                states[i].ptr = ptr + 1;
                assert(states@[i as int].term() == s.term());
                assert(states@[i as int].at(doc + 1)) by {
                    let list = s.list@;
                    assert forall|j: int| ptr < j < list.len() implies (#[trigger] list[j]).0 >= doc
                        + 1 by {
                        assert(list[ptr as int].0 < list[j].0);
                    }
                }
            } else {
                proof {
                    let list = s.list@;
                    assert forall|j: int| ptr <= j < list.len() implies (#[trigger] list[j]).0
                        >= doc + 1 by {
                        if ptr < j {
                            assert(list[ptr as int].0 < list[j].0);
                        }
                    }
                    assert(!in_list(list, doc));
                    assert(states@[i as int].at(doc + 1));
                }
            }
            i += 1;
        }
        proof {
            assert(terms.take(i as int) =~= terms);
            assert(terms_of(states@) =~= terms);
        }
        bits
    }

    /// Scores the documents that have a term of the query in ascending order, and keeps the best
    /// `k`. The scan ends early when the bounds of the terms that are left add up to no more than
    /// the worst score that is kept.
    fn keep_best(&self, seg: &DiskSegment<'_>, query_terms: &[String], k: usize) -> (top: Vec<
        ScoredDoc,
    >)
        requires
            self.wf(),
            can_search(*seg, token_bytes(query_terms@)),
        ensures
            top@ == kept(self.arithmetic(), *seg, token_bytes(query_terms@), k as nat),
    {
        if k == 0 {
            return Vec::new();
        }
        let ghost words = token_bytes(query_terms@);
        let ghost math = self.arithmetic();
        let ghost terms = query_terms_of(math, *seg, words);
        let ghost docs = seg.meta.num_docs as int;
        let fresh = self.look_up(seg, query_terms);
        let ghost unsorted = fresh@;
        let mut states = by_bound(fresh);
        proof {
            let order = order_of(bound_keys(terms_of(unsorted)));
            assert(terms_of(states@) =~= pick(terms_of(unsorted), order));
            assert(terms_of(states@) == terms);
            assert forall|i: int| 0 <= i < states@.len() implies (#[trigger] states@[i]).at(0)
                && ids_below(states@[i].list@, docs) by {
                assert(states@[i] == unsorted[order[i] as int]);
            }
        }
        let mut top: Vec<ScoredDoc> = Vec::new();
        let mut threshold: u32 = ZERO;
        let ghost mut from: int = 0;
        assert((Best { top: top@, threshold }) == no_best());
        loop
            invariant_except_break
                self.wf(),
                math == self.arithmetic(),
                docs == seg.meta.num_docs,
                4 * seg.meta.num_docs <= seg.doclens@.len(),
                terms == query_terms_of(math, *seg, words),
                k > 0,
                0 <= from <= 0x1_0000_0000,
                terms_of(states@) == terms,
                all_at(states@, from),
                forall|i: int| 0 <= i < states@.len() ==> ids_below((#[trigger] states@[i]).list@, docs),
                run(math, *seg, terms, k as nat, 0, no_best()) == run(
                    math,
                    *seg,
                    terms,
                    k as nat,
                    from,
                    Best { top: top@, threshold },
                ),
            invariant
                top@.len() <= k,
            ensures
                top@ == run(math, *seg, terms, k as nat, 0, no_best()).top,
            decreases 0x1_0000_0000 - from,
        {
            let ghost best = Best { top: top@, threshold };
            let doc: u32 = match next_of(&states, Ghost(from)) {
                Some(doc) => doc,
                None => {
                    break;
                },
            };
            proof {
                lemma_at_next(states@, from, doc);
                lemma_next_in_segment(states@, doc, docs);
            }
            let bound: u32 = self.sum_bounds(&states, Ghost(doc as int));
            if is_at_most(bound, threshold) && top.len() >= k {
                break;
            }
            let len: u32 = seg.doc_len(doc);
            let ghost before = states@;
            let bits: u32 = self.score_doc(&mut states, doc, len, seg.meta.avg_doc_len);
            consider(&mut top, &mut threshold, k, ScoredDoc { doc_id: doc, score: bits });
            proof {
                assert forall|i: int| 0 <= i < states@.len() implies ids_below(
                    (#[trigger] states@[i]).list@,
                    docs,
                ) by {
                    assert(terms_of(states@)[i] == terms_of(before)[i]);
                    assert(ids_below(before[i].list@, docs));
                }
                from = doc + 1;
            }
        }
        top
    }

    /// Whether what is sorted in a search are numbers.
    pub fn is_numeric(&self, seg: &DiskSegment<'_>, query_terms: &[String], k: usize) -> (r: bool)
        requires
            self.wf(),
            can_search(*seg, token_bytes(query_terms@)),
        ensures
            r <==> numeric(self.arithmetic(), *seg, token_bytes(query_terms@), k as nat),
    {
        if k == 0 {
            return true;
        }
        let states = self.look_up(seg, query_terms);
        let ghost terms = terms_of(states@);
        let mut i: usize = 0;
        while states.len() >= 2 && i < states.len()
            invariant
                k > 0,
                i <= states@.len(),
                terms == terms_of(states@),
                terms == found(self.arithmetic(), *seg, token_bytes(query_terms@)),
                forall|j: int| 0 <= j < i ==> is_number((#[trigger] terms[j]).bound),
            decreases states.len() - i,
        {
            assert(terms[i as int].bound == states@[i as int].bound);
            if !has_number(states[i].bound) {
                return false;
            }
            i += 1;
        }
        let top = self.keep_best(seg, query_terms, k);
        let mut j: usize = 0;
        while top.len() >= 2 && j < top.len()
            invariant
                k > 0,
                j <= top@.len(),
                top@ == kept(self.arithmetic(), *seg, token_bytes(query_terms@), k as nat),
                forall|i: int| 0 <= i < j ==> is_number((#[trigger] top@[i]).score),
            decreases top.len() - j,
        {
            if !has_number(top[j].score) {
                return false;
            }
            j += 1;
        }
        true
    }

    /// Finds the documents of a segment that match a query best.
    ///
    /// Returns the best `k` of the documents that have a term of the query, by score, best first;
    /// documents with the same score may come in any order.
    pub fn search(&self, seg: &DiskSegment<'_>, query_terms: &[String], k: usize) -> (results: Vec<
        ScoredDoc,
    >)
        requires
            self.wf(),
            can_search(*seg, token_bytes(query_terms@)),
            numeric(self.arithmetic(), *seg, token_bytes(query_terms@), k as nat),
        ensures
            results@.to_multiset() == kept(
                self.arithmetic(),
                *seg,
                token_bytes(query_terms@),
                k as nat,
            ).to_multiset(),
            forall|i: int, j: int|
                0 <= i < j < results@.len() ==> !above(
                    (#[trigger] results@[j]).score,
                    (#[trigger] results@[i]).score,
                ),
            k == 0 ==> results@.len() == 0,
    {
        let top = self.keep_best(seg, query_terms, k);
        let mut keys: Vec<u64> = Vec::new();
        let mut i: usize = 0;
        while i < top.len()
            invariant
                i <= top@.len(),
                keys@.len() == i,
                forall|j: int| 0 <= j < i ==> #[trigger] keys@[j] == falling_key(top@[j].score),
            decreases top.len() - i,
        {
            keys.push((0x8000_0000 - rank_of(top[i].score)) as u64);
            i += 1;
        }
        let order = sort_order(keys.as_slice());
        let mut results: Vec<ScoredDoc> = Vec::new();
        let mut j: usize = 0;
        while j < order.len()
            invariant
                j <= order@.len(),
                sorts(keys@, order@),
                keys@.len() == top@.len(),
                results@ == pick(top@, order@.take(j as int)),
            decreases order.len() - j,
        {
            results.push(top[order[j]]);
            j += 1;
            assert(results@ =~= pick(top@, order@.take(j as int)));
        }
        proof {
            assert(order@.take(j as int) =~= order@);
            law_sorted_same_items(top@, keys@, order@);
            assert forall|a: int, b: int| 0 <= a < b < results@.len() implies !above(
                (#[trigger] results@[b]).score,
                (#[trigger] results@[a]).score,
            ) by {
                assert(taken_before(keys@, order@[a], order@[b]));
            }
        }
        results
    }
}

/// The next document is one of the segment.
proof fn lemma_next_in_segment(states: Seq<TermState>, doc: u32, docs: int)
    requires
        forall|i: int| 0 <= i < states.len() ==> ids_below((#[trigger] states[i]).list@, docs),
        matches_query(terms_of(states), doc),
    ensures
        doc < docs,
{
    let terms = terms_of(states);
    let i = choose|i: int| 0 <= i < terms.len() && in_list((#[trigger] terms[i]).list, doc);
    let list = states[i].list@;
    assert(terms[i].list == list);
    let j = choose|j: int| 0 <= j < list.len() && (#[trigger] list[j]).0 == doc;
    assert(ids_below(states[i].list@, docs));
    assert(list[j].0 < docs);
}

/// In a list without repetition the frequency of a document is the one beside it.
proof fn lemma_tf_at(list: Seq<(u32, u8)>, p: int)
    requires
        ids_distinct(list),
        0 <= p < list.len(),
    ensures
        in_list(list, list[p].0),
        tf_in(list, list[p].0) == list[p].1,
{
    let doc = list[p].0;
    let j = choose|j: int| 0 <= j < list.len() && (#[trigger] list[j]).0 == doc;
    assert(list[p].0 == doc);
    if j < p {
        assert(list[j].0 < list[p].0);
    } else if p < j {
        assert(list[p].0 < list[j].0);
    }
}

} // verus!
