//! What the files of a segment hold.
//!
//! A segment maps terms to postings lists. The lists lie one after the other in the postings
//! file, in the order of their terms, and the term file maps each term to where its list starts.
//! Scores and means are floating-point numbers; here they pass through as bit patterns.
use vstd::prelude::*;
use crate::codec::encode_postings;
use crate::codec::{ascending, parse_postings, postings_bytes};
use crate::codec::law_postings_roundtrip;
use crate::le::{concat, lemma_concat_at, lemma_concat_push};
use crate::le::put_bytes;
use crate::terms::{builder_finish, builder_insert, builder_new};
use crate::terms::{builder_entries, bytes_lt, fst_content, fst_fits, fst_framed};

verus! {

/// Statistics of a segment.
#[derive(Clone, Copy, Debug, PartialEq, Eq, Structural)]
pub struct SegmentMeta {
    pub seg_id: u64,
    pub num_docs: u64,
    pub num_terms: u64,
    /// Mean number of tokens of a document: the bit pattern of a 64-bit floating-point number.
    pub avg_doc_len: u64,
    /// Number of postings, where the segment was flushed; number of terms, where it was merged.
    pub total_postings: u64,
    /// Number of merges this segment has been through.
    pub merge_gen: u32,
}

/// The files of a segment.
pub struct SegmentFiles {
    pub meta: SegmentMeta,
    /// The postings lists, one after the other.
    pub postings: Vec<u8>,
    /// The transducer from terms to where their lists start.
    pub terms: Vec<u8>,
    /// The number of documents that have each term, four bytes each, in the order of the term
    /// numbers.
    pub terminfo: Option<Vec<u8>>,
    /// The highest score that each term can give, four bytes each: bit patterns of 32-bit
    /// floating-point numbers.
    pub maxscores: Vec<u8>,
    /// Number of tokens of each document, four bytes each.
    pub doclens: Vec<u8>,
    /// The records of the documents.
    pub docmeta: Vec<u8>,
    /// The URLs of the documents.
    pub docurls: Vec<u8>,
}

/// Terms with their postings.
pub type Index = Seq<(Seq<u8>, Seq<(u32, u8)>)>;

pub open spec fn ids_of(list: Seq<(u32, u8)>) -> Seq<u32> {
    list.map_values(|e: (u32, u8)| e.0)
}

pub open spec fn tfs_of(list: Seq<(u32, u8)>) -> Seq<u8> {
    list.map_values(|e: (u32, u8)| e.1)
}

/// A postings list as bytes.
pub open spec fn list_bytes(list: Seq<(u32, u8)>) -> Seq<u8> {
    postings_bytes(ids_of(list), tfs_of(list))
}

/// The lists of an index as bytes.
pub open spec fn list_chunks(index: Index) -> Seq<Seq<u8>> {
    index.map_values(|e: (Seq<u8>, Seq<(u32, u8)>)| list_bytes(e.1))
}

/// The postings file of an index.
pub open spec fn postings_file(index: Index) -> Seq<u8> {
    concat(list_chunks(index))
}

/// Where the list of term `i` starts in the postings file.
pub open spec fn list_start(index: Index, i: int) -> int {
    concat(list_chunks(index).take(i)).len() as int
}

/// The entries of the term file of an index.
pub open spec fn term_rows(index: Index) -> Seq<(Seq<u8>, u64)> {
    Seq::new(index.len(), |i: int| (index[i].0, list_start(index, i) as u64))
}

/// The terms of an index are in ascending order.
pub open spec fn terms_ascending(index: Index) -> bool {
    forall|i: int, j: int|
        0 <= i < j < index.len() ==> bytes_lt(#[trigger] index[i].0, #[trigger] index[j].0)
}

/// Number of entries in all lists.
pub open spec fn entry_count(index: Index) -> nat
    decreases index.len(),
{
    if index.len() == 0 {
        0
    } else {
        entry_count(index.drop_last()) + index.last().1.len()
    }
}

proof fn lemma_term_rows_push(index: Index, term: Seq<u8>, list: Seq<(u32, u8)>)
    ensures
        term_rows(index.push((term, list))) == term_rows(index).push(
            (term, postings_file(index).len() as u64),
        ),
        postings_file(index.push((term, list))) == postings_file(index) + list_bytes(list),
{
    let grown = index.push((term, list));
    assert(list_chunks(grown) =~= list_chunks(index).push(list_bytes(list)));
    lemma_concat_push(list_chunks(index), list_bytes(list));
    assert forall|i: int| 0 <= i <= index.len() implies list_chunks(grown).take(i)
        == #[trigger] list_chunks(index).take(i) by {
        assert(list_chunks(grown).take(i) =~= list_chunks(index).take(i));
    }
    assert(list_chunks(index).take(index.len() as int) =~= list_chunks(index));
    assert forall|i: int| 0 <= i < grown.len() implies #[trigger] term_rows(grown)[i] == term_rows(
        index,
    ).push((term, postings_file(index).len() as u64))[i] by {
        assert(list_chunks(grown).take(i) == list_chunks(index).take(i));
    }
    assert(term_rows(grown) =~= term_rows(index).push((term, postings_file(index).len() as u64)));
}

pub proof fn lemma_entry_count_push(index: Index, term: Seq<u8>, list: Seq<(u32, u8)>)
    ensures
        entry_count(index.push((term, list))) == entry_count(index) + list.len(),
{
    assert(index.push((term, list)).drop_last() =~= index);
}

/// The list of a term is read back from where the term file says it starts.
pub proof fn law_list_read_back(index: Index, i: int)
    requires
        0 <= i < index.len(),
        ascending(ids_of(index[i].1)),
        index[i].1.len() <= u32::MAX,
    ensures
        list_start(index, i) <= postings_file(index).len(),
        parse_postings(postings_file(index).skip(list_start(index, i))) matches Some(p) && p.ids
            == ids_of(index[i].1) && p.tfs == tfs_of(index[i].1),
{
    let chunks = list_chunks(index);
    let list = index[i].1;
    lemma_concat_at(chunks, i);
    let rest = concat(chunks.skip(i + 1));
    assert(postings_file(index).skip(list_start(index, i)) =~= list_bytes(list) + rest);
    law_postings_roundtrip(ids_of(list), tfs_of(list), rest);
}

/// Writes the postings file and the term file of an index, term by term.
pub struct TermWriter {
    postings: Vec<u8>,
    builder: fst::MapBuilder<Vec<u8>>,
    index: Ghost<Index>,
}

impl TermWriter {
    /// The terms written so far, with their postings.
    pub closed spec fn index(self) -> Index {
        self.index@
    }

    pub closed spec fn wf(self) -> bool {
        &&& terms_ascending(self.index@)
        &&& self.postings@ == postings_file(self.index@)
        &&& builder_entries(self.builder) == term_rows(self.index@)
    }

    /// Terms are written in ascending order.
    pub proof fn lemma_ascending(&self)
        requires
            self.wf(),
        ensures
            terms_ascending(self.index()),
    {
    }

    pub fn new() -> (w: Self)
        ensures
            w.wf(),
            w.index() == Index::empty(),
    {
        let w = TermWriter { postings: Vec::new(), builder: builder_new(), index: Ghost(Seq::empty()) };
        assert(list_chunks(w.index@) =~= Seq::empty());
        assert(postings_file(w.index@) =~= w.postings@);
        assert(term_rows(w.index@) =~= Seq::empty());
        w
    }

    /// Writes a term with its postings. Terms are written in ascending order, and the documents
    /// of a term are in ascending order.
    pub fn push(&mut self, term: &[u8], list: &[(u32, u8)])
        requires
            old(self).wf(),
            old(self).index().len() > 0 ==> bytes_lt(old(self).index().last().0, term@),
            ascending(ids_of(list@)),
        ensures
            final(self).wf(),
            final(self).index() == old(self).index().push((term@, list@)),
    {
        let ghost before = self.index@;
        let mut ids: Vec<u32> = Vec::new();
        let mut tfs: Vec<u8> = Vec::new();
        let mut i: usize = 0;
        while i < list.len()
            invariant
                i <= list@.len(),
                ids@ == ids_of(list@.take(i as int)),
                tfs@ == tfs_of(list@.take(i as int)),
            decreases list.len() - i,
        {
            ids.push(list[i].0);
            tfs.push(list[i].1);
            i += 1;
            assert(ids@ =~= ids_of(list@.take(i as int)));
            assert(tfs@ =~= tfs_of(list@.take(i as int)));
        }
        assert(list@.take(i as int) =~= list@);
        let encoded = encode_postings(ids.as_slice(), tfs.as_slice());
        let offset: u64 = self.postings.len() as u64;
        proof {
            lemma_term_rows_push(before, term@, list@);
            if before.len() > 0 {
                assert(term_rows(before).last().0 == before.last().0);
            }
            self.index@ = before.push((term@, list@));
        }
        let _inserted = builder_insert(&mut self.builder, term, offset);
        put_bytes(encoded.as_slice(), &mut self.postings);
        proof {
            let grown = self.index@;
            assert forall|i: int, j: int| 0 <= i < j < grown.len() implies bytes_lt(
                #[trigger] grown[i].0,
                #[trigger] grown[j].0,
            ) by {
                if j == before.len() && i < j - 1 {
                    assert(bytes_lt(before[i].0, before[j - 1].0));
                    crate::terms::lemma_lt_transitive(before[i].0, before[j - 1].0, term@);
                } else if j < before.len() {
                    assert(bytes_lt(before[i].0, before[j].0));
                }
            }
        }
    }

    /// The postings file and the term file.
    pub fn finish(self) -> (r: (Vec<u8>, Vec<u8>))
        requires
            self.wf(),
        ensures
            r.0@ == postings_file(self.index()),
            fst_content(r.1@) == Some(term_rows(self.index())),
            fst_framed(r.1@),
            fst_fits(r.1@),
            terms_ascending(self.index()),
    {
        let terms: Vec<u8> = match builder_finish(self.builder) {
            Ok(bytes) => bytes,
            Err(_) => Vec::new(),
        };
        (self.postings, terms)
    }
}

// ---------------------------------------------------------------------------------------------
// Documents
// ---------------------------------------------------------------------------------------------

/// Sum of document lengths.
pub open spec fn total_len(lengths: Seq<u32>) -> nat
    decreases lengths.len(),
{
    if lengths.len() == 0 {
        0
    } else {
        total_len(lengths.drop_last()) + lengths.last() as nat
    }
}

/// The least document length, where a length of 0 counts as 1. With no documents, the greatest
/// number there is.
pub open spec fn least_len(lengths: Seq<u32>) -> u32
    decreases lengths.len(),
{
    if lengths.len() == 0 {
        u32::MAX
    } else {
        let before = least_len(lengths.drop_last());
        let last = if lengths.last() == 0 {
            1
        } else {
            lengths.last()
        };
        if last < before {
            last
        } else {
            before
        }
    }
}

/// The documents of a segment in numbers, from which scores and means are computed.
#[derive(Clone, Copy, Debug, PartialEq, Eq, Structural)]
pub struct Corpus {
    pub num_docs: u64,
    /// Sum of the document lengths.
    pub total_len: u64,
    /// The least document length, where a length of 0 counts as 1.
    pub min_len: u32,
}

/// Documents of these lengths in numbers.
pub open spec fn corpus_of(lengths: Seq<u32>) -> Corpus {
    Corpus {
        num_docs: lengths.len() as u64,
        total_len: total_len(lengths) as u64,
        min_len: least_len(lengths),
    }
}

pub proof fn lemma_total_len_bound(lengths: Seq<u32>)
    ensures
        total_len(lengths) <= lengths.len() * u32::MAX,
    decreases lengths.len(),
{
    if lengths.len() > 0 {
        lemma_total_len_bound(lengths.drop_last());
    }
}

/// Counts and sums document lengths.
pub fn survey(lengths: &[u32]) -> (corpus: Corpus)
    requires
        lengths@.len() <= u32::MAX,
    ensures
        corpus == corpus_of(lengths@),
        corpus.total_len == total_len(lengths@),
{
    let mut total: u64 = 0;
    let mut least: u32 = u32::MAX;
    let mut i: usize = 0;
    while i < lengths.len()
        invariant
            i <= lengths@.len() <= u32::MAX,
            total == total_len(lengths@.take(i as int)),
            least == least_len(lengths@.take(i as int)),
        decreases lengths.len() - i,
    {
        let ghost before = lengths@.take(i as int);
        let len: u32 = lengths[i];
        proof {
            assert(lengths@.take(i + 1).drop_last() =~= before);
            lemma_total_len_bound(lengths@.take(i + 1));
            let n = lengths@.take(i + 1).len();
            assert(n * u32::MAX <= u32::MAX * u32::MAX) by (nonlinear_arith)
                requires
                    n <= u32::MAX,
            ;
        }
        total = total + len as u64;
        let counted: u32 = if len == 0 {
            1
        } else {
            len
        };
        if counted < least {
            least = counted;
        }
        i += 1;
    }
    assert(lengths@.take(i as int) =~= lengths@);
    Corpus { num_docs: lengths.len() as u64, total_len: total, min_len: least }
}

/// The greatest term frequency of a postings list; 1 for an empty one.
pub open spec fn greatest_tf(list: Seq<(u32, u8)>) -> u8
    decreases list.len(),
{
    if list.len() == 0 {
        1
    } else if list.len() == 1 || greatest_tf(list.drop_last()) < list.last().1 {
        list.last().1
    } else {
        greatest_tf(list.drop_last())
    }
}

pub fn max_tf(list: &[(u32, u8)]) -> (top: u8)
    ensures
        top == greatest_tf(list@),
{
    if list.len() == 0 {
        return 1;
    }
    let mut top: u8 = list[0].1;
    let mut i: usize = 1;
    while i < list.len()
        invariant
            1 <= i <= list@.len(),
            top == greatest_tf(list@.take(i as int)),
        decreases list.len() - i,
    {
        assert(list@.take(i + 1).drop_last() =~= list@.take(i as int));
        if list[i].1 > top {
            top = list[i].1;
        }
        i += 1;
    }
    assert(list@.take(i as int) =~= list@);
    top
}

} // verus!
