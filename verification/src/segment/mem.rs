//! The segment in memory, to which documents are added.
use std::collections::BTreeMap;
use vstd::prelude::*;
use crate::dict::TermDict;
use crate::le::put_bytes;
use crate::segment::docmeta::DocMeta;

verus! {

/// The bytes of each token.
pub open spec fn token_bytes(tokens: Seq<String>) -> Seq<Seq<u8>> {
    tokens.map_values(|t: String| vstd::utf8::encode_utf8(t@))
}

/// The dictionary after `words` were met: a word that was not known gets the next number.
pub open spec fn learn(dict: Map<Seq<u8>, u32>, words: Seq<Seq<u8>>) -> Map<Seq<u8>, u32>
    decreases words.len(),
{
    if words.len() == 0 {
        dict
    } else {
        let known = learn(dict, words.drop_last());
        if known.contains_key(words.last()) {
            known
        } else {
            known.insert(words.last(), known.len() as u32)
        }
    }
}

/// How often `term` occurs among `words`.
pub open spec fn occurrences(words: Seq<Seq<u8>>, term: Seq<u8>) -> nat
    decreases words.len(),
{
    if words.len() == 0 {
        0
    } else {
        occurrences(words.drop_last(), term) + if words.last() == term {
            1nat
        } else {
            0
        }
    }
}

/// A term frequency is counted up to 255.
pub open spec fn term_freq(words: Seq<Seq<u8>>, term: Seq<u8>) -> u8 {
    if occurrences(words, term) < 255 {
        occurrences(words, term) as u8
    } else {
        255
    }
}

/// What a document adds to the postings of `term`: one entry, if the term occurs in it.
pub open spec fn new_posting(words: Seq<Seq<u8>>, term: Seq<u8>, doc_id: u32) -> Seq<(u32, u8)> {
    if occurrences(words, term) > 0 {
        seq![(doc_id, term_freq(words, term))]
    } else {
        Seq::empty()
    }
}

/// `n` terms, each with a number of its own below `n`.
pub open spec fn numbered(dict: Map<Seq<u8>, u32>, n: int) -> bool {
    &&& dict.dom().finite()
    &&& dict.len() == n
    &&& forall|t: Seq<u8>| dict.contains_key(t) ==> #[trigger] dict[t] < n
    &&& forall|t: Seq<u8>, u: Seq<u8>|
        dict.contains_key(t) && dict.contains_key(u) && #[trigger] dict[t] == #[trigger] dict[u]
            ==> t == u
}

/// The entries of a postings list: some, in ascending order of the documents, which are among the
/// first `docs`; each document has the term at least once.
pub open spec fn list_ok(list: Seq<(u32, u8)>, docs: int) -> bool {
    &&& list.len() > 0
    &&& forall|i: int| 0 <= i < list.len() ==> (#[trigger] list[i]).0 < docs && list[i].1 >= 1
    &&& forall|i: int, j: int|
        0 <= i < j < list.len() ==> (#[trigger] list[i]).0 < (#[trigger] list[j]).0
}

/// In-memory segment. Accepts documents until the flush threshold is reached.
pub struct MemSegment {
    /// For each term number, the documents that have the term, with its frequency.
    pub postings: BTreeMap<u32, Vec<(u32, u8)>>,
    /// The number of each term.
    pub term_dict: TermDict,
    pub doc_metas: Vec<DocMeta>,
    /// The bytes of all URLs.
    pub doc_urls: Vec<u8>,
    /// Number of tokens of each document.
    pub doc_lengths: Vec<u32>,
    pub next_term_id: u32,
    pub next_doc_id: u32,
    /// Approximate use of memory.
    pub byte_size: usize,
    pub flush_threshold: usize,
}

impl MemSegment {
    /// The postings of a term; none where the term is not known.
    pub open spec fn postings_of(self, term: Seq<u8>) -> Seq<(u32, u8)> {
        if self.term_dict@.contains_key(term) {
            self.postings@[self.term_dict@[term]]@
        } else {
            Seq::empty()
        }
    }

    /// The terms are numbered without gaps from 0.
    pub open spec fn terms_numbered(self) -> bool {
        self.term_dict.wf() && numbered(self.term_dict@, self.next_term_id as int)
    }

    /// Each term has its postings.
    pub open spec fn postings_ok(self) -> bool {
        &&& forall|id: u32| #[trigger] self.postings@.contains_key(id) <==> id < self.next_term_id
        &&& forall|id: u32|
            #[trigger] self.postings@.contains_key(id) ==> list_ok(
                self.postings@[id]@,
                self.next_doc_id as int,
            )
    }

    /// Each document has its record, its length and its URL.
    pub open spec fn docs_ok(self) -> bool {
        &&& self.doc_metas@.len() == self.next_doc_id
        &&& self.doc_lengths@.len() == self.next_doc_id
        &&& forall|i: int|
            0 <= i < self.doc_metas@.len() ==> (#[trigger] self.doc_metas@[i]).url_offset
                + self.doc_metas@[i].url_len <= self.doc_urls@.len()
    }

    pub open spec fn wf(self) -> bool {
        self.terms_numbered() && self.postings_ok() && self.docs_ok()
    }

    /// The numbers have room for a document with these tokens.
    pub open spec fn has_room(self, tokens: Seq<String>) -> bool {
        &&& self.next_doc_id < u32::MAX
        &&& learn(self.term_dict@, token_bytes(tokens)).len() <= u32::MAX
        &&& self.byte_size + 24 * tokens.len() <= usize::MAX
    }

    /// `after` is this segment with one more document: each term that occurs in it has one more
    /// posting, and the document has its record, its URL and its length.
    pub open spec fn added(
        self,
        after: MemSegment,
        url: Seq<char>,
        tokens: Seq<String>,
        crawl_ts: u64,
        content_hash: u64,
    ) -> bool {
        let words = token_bytes(tokens);
        let url_bytes = vstd::utf8::encode_utf8(url);
        &&& after.term_dict@ == learn(self.term_dict@, words)
        &&& forall|t: Seq<u8>|
            #![trigger after.postings_of(t)]
            after.postings_of(t) == self.postings_of(t) + new_posting(words, t, self.next_doc_id)
        &&& after.doc_metas@ == self.doc_metas@.push(
            DocMeta {
                url_offset: self.doc_urls@.len() as u64,
                url_len: (url_bytes.len() as int % 0x1_0000) as u16,
                crawl_ts,
                content_hash,
                lang_id: 1,
            },
        )
        &&& after.doc_urls@ == self.doc_urls@ + url_bytes
        &&& after.doc_lengths@ == self.doc_lengths@.push(
            (tokens.len() as int % 0x1_0000_0000) as u32,
        )
        &&& after.next_doc_id == self.next_doc_id + 1
        &&& after.byte_size == self.byte_size + 24 * tokens.len()
        &&& after.flush_threshold == self.flush_threshold
    }

    /// It holds no document.
    pub open spec fn is_empty(self) -> bool {
        &&& self.term_dict@ == Map::<Seq<u8>, u32>::empty()
        &&& self.postings@ == Map::<u32, Vec<(u32, u8)>>::empty()
        &&& self.doc_metas@ == Seq::<DocMeta>::empty()
        &&& self.doc_urls@ == Seq::<u8>::empty()
        &&& self.doc_lengths@ == Seq::<u32>::empty()
        &&& self.next_term_id == 0
        &&& self.next_doc_id == 0
        &&& self.byte_size == 0
    }

    /// A segment without documents.
    pub fn new(flush_threshold: usize) -> (seg: Self)
        ensures
            seg.wf(),
            seg.is_empty(),
            seg.flush_threshold == flush_threshold,
    {
        let seg = MemSegment {
            postings: BTreeMap::new(),
            term_dict: TermDict::new(),
            doc_metas: Vec::new(),
            doc_urls: Vec::new(),
            doc_lengths: Vec::new(),
            next_term_id: 0,
            next_doc_id: 0,
            byte_size: 0,
            flush_threshold,
        };
        proof {
            seg.term_dict.lemma_size();
        }
        seg
    }

    /// Indexes a single document. Returns its number, and whether the segment should be flushed.
    pub fn add_doc(
        &mut self,
        url: &str,
        tokens: &[String],
        crawl_ts: u64,
        content_hash: u64,
    ) -> (r: (u32, bool))
        requires
            old(self).wf(),
            old(self).has_room(tokens@),
        ensures
            final(self).wf(),
            r.0 == old(self).next_doc_id,
            r.1 == (final(self).byte_size >= final(self).flush_threshold),
            old(self).added(*final(self), url@, tokens@, crawl_ts, content_hash),
    {
        let ghost words = token_bytes(tokens@);
        let doc_id: u32 = self.next_doc_id;
        self.next_doc_id = self.next_doc_id + 1;
        let (seen, counts) = count_tokens(&mut self.term_dict, &mut self.next_term_id, tokens);
        let ghost dict = self.term_dict@;
        proof {
            lemma_learn(old(self).term_dict@, words);
        }
        let ghost postings0 = self.postings@;
        add_postings(&mut self.postings, doc_id, &seen, &counts);
        proof {
            let postings = self.postings@;
            assert forall|id: u32| id < self.next_term_id implies #[trigger] postings.contains_key(
                id,
            ) by {
                if !postings0.contains_key(id) {
                    let t = lemma_number_taken(dict, self.next_term_id as int, id);
                    assert(!old(self).term_dict@.contains_key(t));
                    lemma_occurs(words, t);
                    assert(seen@.contains(id));
                }
            }
            assert forall|id: u32| #[trigger] postings.contains_key(id) implies id
                < self.next_term_id && list_ok(postings[id]@, self.next_doc_id as int) by {
                if counts@.contains_key(id) {
                    assert(seen@.contains(id));
                    let t = choose|t: Seq<u8>| #[trigger] dict.contains_key(t) && dict[t] == id;
                    assert(dict[t] < self.next_term_id);
                    lemma_occurs(words, t);
                    assert(counts@[id] >= 1);
                    let before = list_or_empty(postings0, id);
                    let after = postings[id]@;
                    assert(after == before.push((doc_id, counts@[id])));
                    if postings0.contains_key(id) {
                        assert(list_ok(before, doc_id as int));
                    }
                } else {
                    assert(!seen@.contains(id));
                    assert(postings0.contains_key(id));
                    assert(list_ok(postings0[id]@, doc_id as int));
                }
            }
            assert forall|t: Seq<u8>| #[trigger]
                self.postings_of(t) == old(self).postings_of(t) + new_posting(words, t, doc_id) by {
                lemma_occurs(words, t);
                if dict.contains_key(t) {
                    let id = dict[t];
                    assert(postings.contains_key(id));
                    assert(seen@.contains(id) <==> counts@.contains_key(id));
                    if old(self).term_dict@.contains_key(t) {
                        assert(old(self).term_dict@[t] == id);
                        assert(postings0.contains_key(id));
                    } else {
                        assert(!postings0.contains_key(id)) by {
                            if postings0.contains_key(id) {
                                let u = lemma_number_taken(
                                    old(self).term_dict@,
                                    old(self).next_term_id as int,
                                    id,
                                );
                                assert(dict[u] == dict[t]);
                            }
                        }
                    }
                    assert(list_or_empty(postings0, id) == old(self).postings_of(t));
                    assert(self.postings_of(t) =~= old(self).postings_of(t) + new_posting(
                        words,
                        t,
                        doc_id,
                    ));
                } else {
                    assert(self.postings_of(t) =~= old(self).postings_of(t) + new_posting(
                        words,
                        t,
                        doc_id,
                    ));
                }
            }
        }
        let ghost indexed = *self;
        let url_offset: u64 = self.doc_urls.len() as u64;
        let url_bytes = url.as_bytes();
        put_bytes(url_bytes, &mut self.doc_urls);
        self.doc_metas.push(
            DocMeta {
                url_offset,
                url_len: (url_bytes.len() as u64 % 0x1_0000) as u16,
                crawl_ts,
                content_hash,
                lang_id: 1,
            },
        );
        self.doc_lengths.push((tokens.len() as u64 % 0x1_0000_0000) as u32);
        self.byte_size = self.byte_size + tokens.len() * 24;
        assert forall|t: Seq<u8>| #[trigger]
            self.postings_of(t) == old(self).postings_of(t) + new_posting(words, t, doc_id) by {
            assert(self.postings_of(t) == indexed.postings_of(t));
        }
        (doc_id, self.byte_size >= self.flush_threshold)
    }
}

/// Learning keeps what was known, and the numbering.
pub proof fn lemma_learn(dict: Map<Seq<u8>, u32>, words: Seq<Seq<u8>>)
    requires
        numbered(dict, dict.len() as int),
        learn(dict, words).len() <= u32::MAX,
    ensures
        numbered(learn(dict, words), learn(dict, words).len() as int),
        dict.len() <= learn(dict, words).len() <= dict.len() + words.len(),
        forall|t: Seq<u8>| #[trigger]
            dict.contains_key(t) ==> learn(dict, words).contains_key(t) && learn(dict, words)[t]
                == dict[t],
        forall|t: Seq<u8>| #[trigger]
            learn(dict, words).contains_key(t) <==> (dict.contains_key(t) || words.contains(t)),
    decreases words.len(),
{
    if words.len() > 0 {
        let front = words.drop_last();
        let known = learn(dict, front);
        lemma_learn_finite(dict, front);
        lemma_learn(dict, front);
        let w = words.last();
        assert forall|t: Seq<u8>| words.contains(t) <==> (front.contains(t) || t == w) by {
            if words.contains(t) {
                let i = choose|i: int| 0 <= i < words.len() && words[i] == t;
                if i < front.len() {
                    assert(front[i] == t);
                }
            }
            if front.contains(t) {
                let i = choose|i: int| 0 <= i < front.len() && front[i] == t;
                assert(words[i] == t);
            }
            if t == w {
                assert(words[words.len() - 1] == t);
            }
        }
        assert forall|t: Seq<u8>| #[trigger] learn(dict, words).contains_key(t) <==> (
        dict.contains_key(t) || words.contains(t)) by {
            assert(known.contains_key(t) <==> (dict.contains_key(t) || front.contains(t)));
        }
    }
}

proof fn lemma_learn_finite(dict: Map<Seq<u8>, u32>, words: Seq<Seq<u8>>)
    requires
        dict.dom().finite(),
    ensures
        learn(dict, words).dom().finite(),
        dict.len() <= learn(dict, words).len(),
        words.len() > 0 ==> learn(dict, words.drop_last()).len() <= learn(dict, words).len(),
    decreases words.len(),
{
    if words.len() > 0 {
        lemma_learn_finite(dict, words.drop_last());
    }
}

/// No more terms are learned than there are words.
proof fn lemma_learn_at_most(dict: Map<Seq<u8>, u32>, words: Seq<Seq<u8>>)
    requires
        dict.dom().finite(),
    ensures
        learn(dict, words).dom().finite(),
        learn(dict, words).len() <= dict.len() + words.len(),
    decreases words.len(),
{
    if words.len() > 0 {
        lemma_learn_at_most(dict, words.drop_last());
    }
}

/// There is room for a document as long as the numbers would not run out if each of its tokens
/// were a new term.
pub proof fn law_room(mem: MemSegment, tokens: Seq<String>)
    requires
        mem.wf(),
        mem.next_doc_id < u32::MAX,
        mem.next_term_id + tokens.len() <= u32::MAX,
        mem.byte_size + 24 * tokens.len() <= usize::MAX,
    ensures
        mem.has_room(tokens),
{
    lemma_learn_at_most(mem.term_dict@, token_bytes(tokens));
}

/// Fewer words teach fewer terms.
proof fn lemma_learn_monotone(dict: Map<Seq<u8>, u32>, words: Seq<Seq<u8>>, n: int)
    requires
        dict.dom().finite(),
        0 <= n <= words.len(),
    ensures
        learn(dict, words.take(n)).len() <= learn(dict, words).len(),
    decreases words.len() - n,
{
    if n < words.len() {
        lemma_learn_monotone(dict, words, n + 1);
        lemma_learn_finite(dict, words.take(n + 1));
        assert(words.take(n + 1).drop_last() =~= words.take(n));
    } else {
        assert(words.take(n) =~= words);
    }
}

pub proof fn lemma_occurs(words: Seq<Seq<u8>>, term: Seq<u8>)
    ensures
        occurrences(words, term) > 0 <==> words.contains(term),
        occurrences(words, term) <= words.len(),
    decreases words.len(),
{
    if words.len() > 0 {
        let front = words.drop_last();
        lemma_occurs(front, term);
        if words.contains(term) {
            let i = choose|i: int| 0 <= i < words.len() && words[i] == term;
            if i < front.len() {
                assert(front[i] == term);
            }
        }
        if front.contains(term) {
            let i = choose|i: int| 0 <= i < front.len() && front[i] == term;
            assert(words[i] == term);
        }
        if words.last() == term {
            assert(words[words.len() - 1] == term);
        }
    }
}

/// `counts` holds the frequency of each term of `words`, under the number of the term; `seen`
/// lists these numbers.
spec fn counted(
    dict: Map<Seq<u8>, u32>,
    words: Seq<Seq<u8>>,
    counts: Map<u32, u8>,
    seen: Seq<u32>,
) -> bool {
    &&& forall|t: Seq<u8>|
        #![trigger dict.contains_key(t)]
        dict.contains_key(t) ==> {
            &&& counts.contains_key(dict[t]) <==> occurrences(words, t) > 0
            &&& occurrences(words, t) > 0 ==> counts[dict[t]] == term_freq(words, t)
        }
    &&& forall|id: u32| #[trigger]
        counts.contains_key(id) ==> exists|t: Seq<u8>| #[trigger]
            dict.contains_key(t) && dict[t] == id
    &&& seen.no_duplicates()
    &&& forall|id: u32| #[trigger] seen.contains(id) <==> counts.contains_key(id)
}

/// Looks up each token, numbering those that are new, and counts them.
fn count_tokens(dict: &mut TermDict, next_term_id: &mut u32, tokens: &[String]) -> (r: (
    Vec<u32>,
    BTreeMap<u32, u8>,
))
    requires
        old(dict).wf(),
        numbered(old(dict)@, *old(next_term_id) as int),
        learn(old(dict)@, token_bytes(tokens@)).len() <= u32::MAX,
    ensures
        final(dict).wf(),
        final(dict)@ == learn(old(dict)@, token_bytes(tokens@)),
        numbered(final(dict)@, *final(next_term_id) as int),
        counted(final(dict)@, token_bytes(tokens@), r.1@, r.0@),
{
    let mut seen: Vec<u32> = Vec::new();
    let mut counts: BTreeMap<u32, u8> = BTreeMap::new();
    let ghost words = token_bytes(tokens@);
    let ghost start = dict@;
    let mut i: usize = 0;
    assert(words.take(0) =~= Seq::empty());
    while i < tokens.len()
        invariant
            i <= tokens@.len(),
            words == token_bytes(tokens@),
            numbered(start, start.len() as int),
            learn(start, words).len() <= u32::MAX,
            dict.wf(),
            dict@ == learn(start, words.take(i as int)),
            numbered(dict@, *next_term_id as int),
            counted(dict@, words.take(i as int), counts@, seen@),
        decreases tokens.len() - i,
    {
        let term = tokens[i].as_str().as_bytes();
        let ghost before = dict@;
        let ghost done = words.take(i as int);
        let ghost counts0 = counts@;
        let ghost seen0 = seen@;
        let ghost w = words[i as int];
        assert(term@ == w);
        proof {
            lemma_learn_monotone(start, words, i + 1);
            lemma_learn_monotone(start, words, i as int);
            lemma_learn(start, done);
            assert(words.take(i + 1).drop_last() =~= done);
            assert(words.take(i + 1).last() == w);
            lemma_learn(start, words.take(i + 1));
        }
        let id: u32 = dict.intern(term, *next_term_id);
        if id == *next_term_id {
            *next_term_id = *next_term_id + 1;
        }
        assert(dict@ =~= learn(start, words.take(i + 1)));
        let fresh = match counts.remove(&id) {
            None => {
                counts.insert(id, 1);
                seen.push(id);
                true
            },
            Some(n) => {
                counts.insert(id, if n < 255 {
                    (n + 1) as u8
                } else {
                    255
                });
                false
            },
        };
        proof {
            assert forall|t: Seq<u8>| #[trigger] dict@.contains_key(t) implies {
                &&& counts@.contains_key(dict@[t]) <==> occurrences(words.take(i + 1), t) > 0
                &&& occurrences(words.take(i + 1), t) > 0 ==> counts@[dict@[t]] == term_freq(
                    words.take(i + 1),
                    t,
                )
            } by {
                lemma_occurs(done, t);
                if !before.contains_key(t) {
                    assert(t == w);
                    assert(occurrences(done, t) == 0);
                    assert(!counts0.contains_key(id)) by {
                        if counts0.contains_key(id) {
                            let u = choose|u: Seq<u8>| #[trigger]
                                before.contains_key(u) && before[u] == id;
                            assert(before.contains_key(u));
                        }
                    }
                } else {
                    assert(before[t] == dict@[t]);
                }
            }
            assert forall|k: u32| #[trigger] counts@.contains_key(k) implies exists|t: Seq<u8>|
                #[trigger] dict@.contains_key(t) && dict@[t] == k by {
                if k == id {
                    assert(dict@.contains_key(w));
                } else {
                    assert(counts0.contains_key(k));
                    let u = choose|u: Seq<u8>| #[trigger] before.contains_key(u) && before[u] == k;
                    assert(dict@.contains_key(u) && dict@[u] == k);
                }
            }
            if fresh {
                assert forall|k: u32| #[trigger] seen@.contains(k) <==> counts@.contains_key(k) by {
                    if seen0.contains(k) {
                        let j = choose|j: int| 0 <= j < seen0.len() && seen0[j] == k;
                        assert(seen@[j] == k);
                    }
                    if k == id {
                        assert(seen@[seen0.len() as int] == k);
                    }
                    if seen@.contains(k) && k != id {
                        let j = choose|j: int| 0 <= j < seen@.len() && seen@[j] == k;
                        assert(seen0[j] == k);
                    }
                    assert(seen0.contains(k) <==> counts0.contains_key(k));
                }
                assert(!seen0.contains(id));
            } else {
                assert forall|k: u32| #[trigger] seen@.contains(k) <==> counts@.contains_key(k) by {
                    assert(seen0.contains(k) <==> counts0.contains_key(k));
                }
            }
        }
        i += 1;
    }
    assert(words.take(i as int) =~= words);
    (seen, counts)
}

/// The list under `id`; empty where there is none.
spec fn list_or_empty(postings: Map<u32, Vec<(u32, u8)>>, id: u32) -> Seq<(u32, u8)> {
    if postings.contains_key(id) {
        postings[id]@
    } else {
        Seq::empty()
    }
}

/// Every number below the count is the number of a term.
pub proof fn lemma_number_taken(dict: Map<Seq<u8>, u32>, n: int, id: u32) -> (t: Seq<u8>)
    requires
        numbered(dict, n),
        id < n,
    ensures
        dict.contains_key(t),
        dict[t] == id,
{
    let used = dict.dom().map(|t: Seq<u8>| dict[t] as int);
    let all = vstd::set_lib::set_int_range(0, n);
    vstd::set_lib::lemma_int_range(0, n);
    assert(used.subset_of(all)) by {
        assert forall|v: int| used.contains(v) implies all.contains(v) by {
            let t = choose|t: Seq<u8>| dict.dom().contains(t) && v == dict[t] as int;
            assert(dict.contains_key(t));
        }
    }
    vstd::set_lib::lemma_map_size(dict.dom(), used, |t: Seq<u8>| dict[t] as int);
    vstd::set_lib::lemma_subset_equality(used, all);
    assert(used.contains(id as int));
    choose|t: Seq<u8>| dict.dom().contains(t) && id as int == dict[t] as int
}

/// Adds a document to the list of each term number in `seen`.
fn add_postings(
    postings: &mut BTreeMap<u32, Vec<(u32, u8)>>,
    doc_id: u32,
    seen: &Vec<u32>,
    counts: &BTreeMap<u32, u8>,
)
    requires
        seen@.no_duplicates(),
        forall|id: u32| #[trigger] seen@.contains(id) ==> counts@.contains_key(id),
    ensures
        forall|id: u32| #[trigger]
            final(postings)@.contains_key(id) <==> old(postings)@.contains_key(id)
                || seen@.contains(id),
        forall|id: u32| #[trigger]
            seen@.contains(id) ==> final(postings)@[id]@ == list_or_empty(old(postings)@, id).push(
                (doc_id, counts@[id]),
            ),
        forall|id: u32|
            !#[trigger] seen@.contains(id) && old(postings)@.contains_key(id)
                ==> final(postings)@[id]@ == old(postings)@[id]@,
{
    let ghost start = postings@;
    let mut i: usize = 0;
    assert(seen@.take(0) =~= Seq::empty());
    while i < seen.len()
        invariant
            i <= seen@.len(),
            seen@.no_duplicates(),
            forall|id: u32| #[trigger] seen@.contains(id) ==> counts@.contains_key(id),
            forall|id: u32| #[trigger]
                postings@.contains_key(id) <==> start.contains_key(id) || seen@.take(
                    i as int,
                ).contains(id),
            forall|id: u32| #[trigger]
                seen@.take(i as int).contains(id) ==> postings@[id]@ == list_or_empty(
                    start,
                    id,
                ).push((doc_id, counts@[id])),
            forall|id: u32|
                !#[trigger] seen@.take(i as int).contains(id) && start.contains_key(id)
                    ==> postings@[id]@ == start[id]@,
        decreases seen.len() - i,
    {
        let id: u32 = seen[i];
        let ghost done = seen@.take(i as int);
        let ghost next = seen@.take(i + 1);
        let ghost postings1 = postings@;
        proof {
            assert(seen@.contains(id));
            assert(!done.contains(id)) by {
                if done.contains(id) {
                    let j = choose|j: int| 0 <= j < done.len() && done[j] == id;
                    assert(seen@[j] == seen@[i as int]);
                }
            }
            assert forall|k: u32| next.contains(k) <==> done.contains(k) || k == id by {
                if next.contains(k) {
                    let j = choose|j: int| 0 <= j < next.len() && next[j] == k;
                    if j < i {
                        assert(done[j] == k);
                    }
                }
                if done.contains(k) {
                    let j = choose|j: int| 0 <= j < done.len() && done[j] == k;
                    assert(next[j] == k);
                }
                assert(next[i as int] == id);
            }
        }
        let tf: u8 = match counts.get(&id) {
            Some(n) => *n,
            None => 0,
        };
        let mut list: Vec<(u32, u8)> = match postings.remove(&id) {
            Some(list) => list,
            None => Vec::new(),
        };
        list.push((doc_id, tf));
        postings.insert(id, list);
        assert(list@ =~= list_or_empty(start, id).push((doc_id, counts@[id])));
        i += 1;
    }
    assert(seen@.take(i as int) =~= seen@);
}

} // verus!
