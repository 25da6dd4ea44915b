//! Reading the files of a segment.
use vstd::prelude::*;
use vstd::slice::slice_subrange;
use crate::codec::{decode_postings, try_decode_postings};
use crate::codec::{parse_postings, ParsedPostings};
use crate::codec::{lemma_parse_shape, lemma_vbyte_len_bounds};
use crate::le::get_le;
use crate::le::lemma_byte_ranges;
use crate::segment::docmeta::{get_meta, DOC_META_SIZE, DocMeta};
use crate::segment::docmeta::parse_meta;
use crate::segment::files::{SegmentFiles, SegmentMeta};
use crate::segment::files::{ids_of, tfs_of, Index};
use crate::segment::flush::u32_at;
use crate::terms::{map_get, map_stream, open_terms, stream_next};
use crate::terms::{
    fst_content, fst_fits, fst_framed, keys_ascending, map_entries, stream_rest, value_of,
};

verus! {

/// The contents of the files of a segment.
#[derive(Clone, Copy)]
pub struct SegmentBytes<'a> {
    pub meta: SegmentMeta,
    pub postings: &'a [u8],
    pub terms: &'a [u8],
    pub doclens: &'a [u8],
    pub docmeta: &'a [u8],
    pub docurls: &'a [u8],
    pub maxscores: &'a [u8],
    /// Size of the file of document frequencies; 0 where there is none.
    pub terminfo_len: u64,
    /// Size of the file that the statistics were read from.
    pub meta_len: u64,
}

impl SegmentFiles {
    /// Borrows the contents of the files. `meta_len` is the size that the statistics have as a file.
    pub fn bytes<'a>(&'a self, meta_len: u64) -> (bytes: SegmentBytes<'a>)
        ensures
            bytes.holds(*self),
            bytes.meta_len == meta_len,
    {
        SegmentBytes {
            meta: self.meta,
            postings: self.postings.as_slice(),
            terms: self.terms.as_slice(),
            doclens: self.doclens.as_slice(),
            docmeta: self.docmeta.as_slice(),
            docurls: self.docurls.as_slice(),
            maxscores: self.maxscores.as_slice(),
            terminfo_len: match &self.terminfo {
                Some(terminfo) => terminfo.len() as u64,
                None => 0,
            },
            meta_len,
        }
    }
}

impl<'a> SegmentBytes<'a> {
    /// These are the contents of `files`.
    pub open spec fn holds(self, files: SegmentFiles) -> bool {
        &&& self.meta == files.meta
        &&& self.postings@ == files.postings@
        &&& self.terms@ == files.terms@
        &&& self.doclens@ == files.doclens@
        &&& self.docmeta@ == files.docmeta@
        &&& self.docurls@ == files.docurls@
        &&& self.maxscores@ == files.maxscores@
        &&& self.terminfo_len == (match files.terminfo {
            Some(terminfo) => terminfo@.len(),
            None => 0,
        })
    }

    /// Size of all files.
    pub open spec fn total_size(self) -> int {
        self.postings@.len() + self.terms@.len() + self.doclens@.len() + self.docmeta@.len()
            + self.docurls@.len() + self.maxscores@.len() + self.terminfo_len + self.meta_len
    }
}

/// Documents and term frequencies, side by side.
pub open spec fn zipped(p: ParsedPostings) -> Seq<(u32, u8)> {
    Seq::new(p.ids.len(), |i: int| (p.ids[i], p.tfs[i]))
}

/// The documents of a list are among the first `limit`.
pub open spec fn ids_below(list: Seq<(u32, u8)>, limit: int) -> bool {
    forall|i: int| 0 <= i < list.len() ==> (#[trigger] list[i]).0 < limit
}

/// The documents of a list ascend, and none occurs twice.
pub open spec fn ids_distinct(list: Seq<(u32, u8)>) -> bool {
    forall|i: int, j: int|
        0 <= i < j < list.len() ==> (#[trigger] list[i]).0 < (#[trigger] list[j]).0
}

/// Read-only segment.
pub struct DiskSegment<'a> {
    pub meta: SegmentMeta,
    pub postings: &'a [u8],
    pub doclens: &'a [u8],
    pub docmeta: &'a [u8],
    pub docurls: &'a [u8],
    pub maxscores: &'a [u8],
    /// The term dictionary.
    pub fst: fst::Map<&'a [u8]>,
    /// Size of all files.
    pub size_bytes: u64,
}

impl<'a> DiskSegment<'a> {
    /// A builder wrote the term file.
    pub open spec fn has_terms(self) -> bool {
        map_entries(self.fst) is Some
    }

    /// The terms in ascending order, with where their lists start.
    pub open spec fn rows(self) -> Seq<(Seq<u8>, u64)> {
        map_entries(self.fst)->0
    }

    /// A postings list starts at byte `offset` of the postings file.
    pub open spec fn has_list(self, offset: u64) -> bool {
        offset <= self.postings@.len() && parse_postings(self.postings@.skip(offset as int)) is Some
    }

    /// The postings list at byte `offset` of the postings file.
    pub open spec fn list_at(self, offset: u64) -> Seq<(u32, u8)> {
        zipped(parse_postings(self.postings@.skip(offset as int))->0)
    }

    /// The postings of a term; none where the segment does not have the term.
    pub open spec fn postings_of(self, term: Seq<u8>) -> Seq<(u32, u8)> {
        match value_of(self.rows(), term) {
            Some(offset) => self.list_at(offset),
            None => Seq::empty(),
        }
    }

    /// The terms in ascending order, with their postings.
    pub open spec fn index(self) -> Index {
        self.rows().map_values(|row: (Seq<u8>, u64)| (row.0, self.list_at(row.1)))
    }

    /// The tables of document lengths and records reach to document `doc_id`.
    pub open spec fn has_doc_len(self, doc_id: int) -> bool {
        4 * doc_id + 4 <= self.doclens@.len()
    }

    pub open spec fn has_doc_meta(self, doc_id: int) -> bool {
        DOC_META_SIZE * doc_id + DOC_META_SIZE <= self.docmeta@.len()
    }

    /// The length of document `doc_id`.
    pub open spec fn len_of(self, doc_id: int) -> u32 {
        u32_at(self.doclens@, doc_id)
    }

    /// The record of document `doc_id`.
    pub open spec fn meta_of(self, doc_id: int) -> DocMeta {
        parse_meta(
            self.docmeta@.subrange(DOC_META_SIZE * doc_id, DOC_META_SIZE * doc_id + DOC_META_SIZE),
        )
    }

    /// The URL that a record points to lies within the file of URLs.
    pub open spec fn has_url(self, m: DocMeta) -> bool {
        m.url_offset + m.url_len <= self.docurls@.len()
    }

    /// The URL that a record points to.
    pub open spec fn url_of(self, m: DocMeta) -> Seq<u8> {
        self.docurls@.subrange(m.url_offset as int, m.url_offset + m.url_len)
    }

    /// The documents of the list at byte `offset` are among the first `limit`.
    pub open spec fn list_below(self, offset: u64, limit: int) -> bool {
        ids_below(self.list_at(offset), limit)
    }

    /// A list starts at byte `offset`: documents of the segment, each at most once.
    pub open spec fn list_sound(self, offset: u64) -> bool {
        self.has_list(offset) && self.list_below(offset, self.meta.num_docs as int) && ids_distinct(
            self.list_at(offset),
        )
    }

    /// Each term has a list of documents of the segment.
    pub open spec fn terms_valid(self) -> bool {
        &&& self.has_terms()
        &&& keys_ascending(self.rows())
        &&& forall|i: int|
            #![trigger self.rows()[i]]
            0 <= i < self.rows().len() ==> self.list_sound(self.rows()[i].1)
    }

    /// Each document has its length, its record and its URL.
    pub open spec fn docs_valid(self) -> bool {
        &&& self.meta.num_docs <= u32::MAX
        &&& 4 * self.meta.num_docs <= self.doclens@.len()
        &&& DOC_META_SIZE * self.meta.num_docs <= self.docmeta@.len()
        &&& forall|d: int| 0 <= d < self.meta.num_docs ==> self.has_url(#[trigger] self.meta_of(d))
    }

    /// The files belong together.
    pub open spec fn valid(self) -> bool {
        self.terms_valid() && self.docs_valid()
    }

    /// What opening gives.
    pub open spec fn opened(self, bytes: SegmentBytes<'a>) -> bool {
        &&& self.meta == bytes.meta
        &&& self.postings == bytes.postings
        &&& self.doclens == bytes.doclens
        &&& self.docmeta == bytes.docmeta
        &&& self.docurls == bytes.docurls
        &&& self.maxscores == bytes.maxscores
        &&& map_entries(self.fst) == fst_content(bytes.terms@)
        &&& self.has_terms() ==> keys_ascending(self.rows())
        &&& self.size_bytes == bytes.total_size()
    }

    /// Opens a segment. `None` where the term file is not a transducer.
    pub fn open(bytes: SegmentBytes<'a>) -> (r: Option<DiskSegment<'a>>)
        requires
            bytes.total_size() <= u64::MAX,
        ensures
            r is Some <==> fst_framed(bytes.terms@) && fst_fits(bytes.terms@),
            r matches Some(seg) ==> seg.opened(bytes),
    {
        let fst = match open_terms(bytes.terms) {
            Some(fst) => fst,
            None => {
                return None;
            },
        };
        let size_bytes: u64 = bytes.postings.len() as u64 + bytes.terms.len() as u64
            + bytes.doclens.len() as u64 + bytes.docmeta.len() as u64 + bytes.docurls.len() as u64
            + bytes.maxscores.len() as u64 + bytes.terminfo_len + bytes.meta_len;
        Some(
            DiskSegment {
                meta: bytes.meta,
                postings: bytes.postings,
                doclens: bytes.doclens,
                docmeta: bytes.docmeta,
                docurls: bytes.docurls,
                maxscores: bytes.maxscores,
                fst,
                size_bytes,
            },
        )
    }

    /// Looks up where the postings list of a term starts.
    pub fn term_offset(&self, term: &str) -> (r: Option<u64>)
        requires
            self.has_terms(),
        ensures
            r == value_of(self.rows(), vstd::utf8::encode_utf8(term@)),
    {
        map_get(&self.fst, term.as_bytes())
    }

    /// Decodes the postings list at a byte offset.
    pub fn read_postings(&self, offset: u64) -> (r: (Vec<u32>, Vec<u8>))
        requires
            self.has_list(offset),
        ensures
            r.0@ == ids_of(self.list_at(offset)),
            r.1@ == tfs_of(self.list_at(offset)),
    {
        let tail = slice_subrange(self.postings, offset as usize, self.postings.len());
        assert(tail@ =~= self.postings@.skip(offset as int));
        let lists = decode_postings(tail);
        proof {
            lemma_parsed_columns(tail@);
            assert(lists.0@ =~= ids_of(self.list_at(offset)));
            assert(lists.1@ =~= tfs_of(self.list_at(offset)));
        }
        lists
    }

    /// Whether a postings list starts at a byte offset, with documents among the first `limit`.
    pub fn readable_below(&self, offset: u64, limit: u64) -> (r: bool)
        ensures
            r <==> self.has_list(offset) && self.list_below(offset, limit as int),
    {
        match self.try_read_postings(offset) {
            None => false,
            Some((ids, _)) => {
                let ghost list = self.list_at(offset);
                if ids.len() == 0 {
                    return true;
                }
                let last: usize = ids.len() - 1;
                proof {
                    let tail = self.postings@.skip(offset as int);
                    lemma_parsed_columns(tail);
                    assert forall|i: int| 0 <= i < list.len() implies (#[trigger] list[i]).0
                        <= list[last as int].0 by {
                        assert(ids@[i] <= ids@[last as int]);
                    }
                    assert(list[last as int].0 == ids@[last as int]);
                }
                (ids[last] as u64) < limit
            },
        }
    }

    /// Decodes the postings list at a byte offset, where there is one.
    pub fn try_read_postings(&self, offset: u64) -> (r: Option<(Vec<u32>, Vec<u8>)>)
        ensures
            r is Some <==> self.has_list(offset),
            r matches Some(lists) ==> {
                &&& lists.0@ == ids_of(self.list_at(offset))
                &&& lists.1@ == tfs_of(self.list_at(offset))
            },
    {
        if offset > self.postings.len() as u64 {
            return None;
        }
        let tail = slice_subrange(self.postings, offset as usize, self.postings.len());
        assert(tail@ =~= self.postings@.skip(offset as int));
        match try_decode_postings(tail) {
            Some((ids, tfs)) => {
                proof {
                    lemma_parsed_columns(tail@);
                    assert(ids@ =~= ids_of(self.list_at(offset)));
                    assert(tfs@ =~= tfs_of(self.list_at(offset)));
                }
                Some((ids, tfs))
            },
            None => None,
        }
    }

    /// Whether a list of documents of this segment starts at a byte offset.
    pub fn sound_at(&self, offset: u64) -> (r: bool)
        ensures
            r <==> self.list_sound(offset),
    {
        let ids: Vec<u32> = match self.try_read_postings(offset) {
            Some((ids, _)) => ids,
            None => {
                return false;
            },
        };
        let ghost list = self.list_at(offset);
        let mut i: usize = 0;
        while i < ids.len()
            invariant
                i <= ids@.len(),
                list == self.list_at(offset),
                ids@ == ids_of(list),
                forall|j: int| 0 <= j < i ==> (#[trigger] list[j]).0 < self.meta.num_docs,
                forall|j: int, k: int|
                    0 <= j < k < i ==> (#[trigger] list[j]).0 < (#[trigger] list[k]).0,
            decreases ids.len() - i,
        {
            assert(ids@[i as int] == list[i as int].0);
            if ids[i] as u64 >= self.meta.num_docs {
                return false;
            }
            if i > 0 {
                assert(ids@[i - 1] == list[i - 1].0);
                if ids[i - 1] >= ids[i] {
                    return false;
                }
            }
            i += 1;
        }
        true
    }

    /// Whether the files belong together.
    pub fn is_valid(&self) -> (r: bool)
        requires
            self.has_terms(),
            keys_ascending(self.rows()),
        ensures
            r <==> self.valid(),
    {
        if self.meta.num_docs > u32::MAX as u64 {
            return false;
        }
        if self.doclens.len() as u64 / 4 < self.meta.num_docs {
            return false;
        }
        if self.docmeta.len() as u64 / 28 < self.meta.num_docs {
            return false;
        }
        let mut d: u32 = 0;
        while (d as u64) < self.meta.num_docs
            invariant
                d <= self.meta.num_docs <= u32::MAX,
                DOC_META_SIZE * self.meta.num_docs <= self.docmeta@.len(),
                forall|i: int| 0 <= i < d ==> self.has_url(#[trigger] self.meta_of(i)),
            decreases self.meta.num_docs - d,
        {
            if !self.has_document(d) {
                return false;
            }
            d += 1;
        }
        let mut stream = map_stream(&self.fst);
        let ghost mut seen: int = 0;
        assert(self.rows().skip(0) =~= self.rows());
        loop
            invariant
                self.has_terms(),
                keys_ascending(self.rows()),
                self.docs_valid(),
                0 <= seen <= self.rows().len(),
                stream_rest(stream) == self.rows().skip(seen),
                forall|i: int|
                    #![trigger self.rows()[i]]
                    0 <= i < seen ==> self.list_sound(self.rows()[i].1),
            decreases self.rows().len() - seen,
        {
            match stream_next(&mut stream) {
                Some((_, offset)) => {
                    assert(self.rows().skip(seen)[0] == self.rows()[seen]);
                    if !self.sound_at(offset) {
                        return false;
                    }
                    proof {
                        assert(self.rows().skip(seen).skip(1) =~= self.rows().skip(seen + 1));
                        seen = seen + 1;
                    }
                },
                None => {
                    return true;
                },
            }
        }
    }

    /// The length of a document.
    pub fn doc_len(&self, doc_id: u32) -> (len: u32)
        requires
            self.has_doc_len(doc_id as int),
        ensures
            len == self.len_of(doc_id as int),
    {
        assert(4 * doc_id + 4 <= self.doclens.len());
        let offset: usize = doc_id as usize * 4;
        proof {
            lemma_byte_ranges();
        }
        get_le(self.doclens, offset, 4) as u32
    }

    /// The record of a document.
    pub fn doc_meta(&self, doc_id: u32) -> (m: DocMeta)
        requires
            self.has_doc_meta(doc_id as int),
        ensures
            m == self.meta_of(doc_id as int),
    {
        assert(DOC_META_SIZE * doc_id + DOC_META_SIZE <= self.docmeta.len());
        let offset: usize = doc_id as usize * DOC_META_SIZE;
        get_meta(self.docmeta, offset)
    }

    /// Whether the record and the URL of a document are there.
    pub fn has_document(&self, doc_id: u32) -> (r: bool)
        ensures
            r <==> self.has_doc_meta(doc_id as int) && self.has_url(self.meta_of(doc_id as int)),
    {
        if doc_id as u64 * 28 + 28 > self.docmeta.len() as u64 {
            return false;
        }
        let m = self.doc_meta(doc_id);
        m.url_offset <= self.docurls.len() as u64 && m.url_len as u64 <= self.docurls.len() as u64
            - m.url_offset
    }

    /// The URL that a record points to.
    pub fn doc_url(&self, m: &DocMeta) -> (url: &'a [u8])
        requires
            self.has_url(*m),
        ensures
            url@ == self.url_of(*m),
    {
        assert(m.url_offset + m.url_len <= self.docurls.len());
        slice_subrange(
            self.docurls,
            m.url_offset as usize,
            m.url_offset as usize + m.url_len as usize,
        )
    }

    /// The highest score that a term can give, as a bit pattern; that of zero for a term number
    /// that the table does not have.
    pub fn max_score(&self, term_id: u32) -> (bits: u32)
        ensures
            bits == (if 4 * term_id + 4 <= self.maxscores@.len() {
                u32_at(self.maxscores@, term_id as int)
            } else {
                0
            }),
    {
        let offset: u64 = term_id as u64 * 4;
        if offset + 4 > self.maxscores.len() as u64 {
            return 0;
        }
        proof {
            lemma_byte_ranges();
        }
        get_le(self.maxscores, offset as usize, 4) as u32
    }
}

/// The columns of a parsed list are of one length.
pub proof fn lemma_parsed_columns(s: Seq<u8>)
    ensures
        parse_postings(s) matches Some(p) ==> p.ids.len() == p.tfs.len() && p.ids.len() <= u32::MAX
            && crate::codec::ascending(p.ids),
{
    lemma_vbyte_len_bounds(s);
    if crate::codec::vbyte_ok(s) {
        lemma_parse_shape(
            s,
            crate::codec::vbyte_len(s)->0,
            crate::codec::vbyte_u32(s) as int,
        );
    }
}

} // verus!
