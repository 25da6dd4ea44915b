//! Scores as bit patterns of 32-bit floating-point numbers, and the arithmetic on them.
use vstd::prelude::*;

verus! {

/// The bit pattern of zero.
pub const ZERO: u32 = 0;

/// The bit pattern of a number; infinity is one.
pub open spec fn is_number(bits: u32) -> bool {
    bits <= 0x7F80_0000 || 0x8000_0000 <= bits <= 0xFF80_0000
}

/// The bit pattern of a number that is not negative.
pub open spec fn not_negative(bits: u32) -> bool {
    bits <= 0x7F80_0000
}

/// Orders bit patterns as the numbers they stand for: sign and magnitude. Both zeros have rank 0.
pub open spec fn rank(bits: u32) -> int {
    if bits < 0x8000_0000 {
        bits as int
    } else {
        0x8000_0000 - bits
    }
}

/// `a` and `b` stand for numbers, and `a` for the greater one.
pub open spec fn above(a: u32, b: u32) -> bool {
    is_number(a) && is_number(b) && rank(a) > rank(b)
}

/// `a` and `b` stand for numbers, and `a` for the same or the lesser one.
pub open spec fn at_most(a: u32, b: u32) -> bool {
    is_number(a) && is_number(b) && rank(a) <= rank(b)
}

/// The rank of a bit pattern.
pub fn rank_of(bits: u32) -> (r: i64)
    ensures
        r == rank(bits),
{
    if bits < 0x8000_0000 {
        bits as i64
    } else {
        0x8000_0000 - bits as i64
    }
}

/// Whether a bit pattern stands for a number.
pub fn has_number(bits: u32) -> (r: bool)
    ensures
        r == is_number(bits),
{
    bits <= 0x7F80_0000 || (0x8000_0000 <= bits && bits <= 0xFF80_0000)
}

/// Whether `a` and `b` stand for numbers, and `a` for the greater one.
pub fn is_above(a: u32, b: u32) -> (r: bool)
    ensures
        r == above(a, b),
{
    has_number(a) && has_number(b) && rank_of(a) > rank_of(b)
}

/// Whether `a` and `b` stand for numbers, and `a` for the same or the lesser one.
pub fn is_at_most(a: u32, b: u32) -> (r: bool)
    ensures
        r == at_most(a, b),
{
    has_number(a) && has_number(b) && rank_of(a) <= rank_of(b)
}

/// Key by which scores are sorted in ascending order.
pub open spec fn rising_key(bits: u32) -> u64 {
    (0x8000_0000 + rank(bits)) as u64
}

/// Key by which scores are sorted in descending order.
pub open spec fn falling_key(bits: u32) -> u64 {
    (0x8000_0000 - rank(bits)) as u64
}

/// A document of a segment, with its score.
#[derive(Clone, Copy, Debug, PartialEq, Eq, Structural)]
pub struct ScoredDoc {
    /// Number of the document in its segment.
    pub doc_id: u32,
    /// Bit pattern of the score.
    pub score: u32,
}

/// The arithmetic of scores.
pub struct Arithmetic {
    /// The weight of a term, from the number of documents and the number of those that have it.
    pub weigh: spec_fn(u64, u64) -> u32,
    /// The highest score that a term can give, from its weight, its greatest frequency and the
    /// mean document length.
    pub bound: spec_fn(u32, u8, u64) -> u32,
    /// What a term adds to the score of a document, from its weight, its frequency in the
    /// document, the length of the document and the mean document length.
    pub part: spec_fn(u32, u8, u32, u64) -> u32,
    /// Sum of two scores.
    pub plus: spec_fn(u32, u32) -> u32,
}

/// Scores documents with a given arithmetic.
pub struct Bm25Scorer<W, B, P, A> {
    /// The weight of a term, from the number of documents and the number of those that have it.
    pub weigh: W,
    /// The highest score that a term can give, from its weight, its greatest frequency and the
    /// mean document length.
    pub bound: B,
    /// What a term adds to the score of a document, from its weight, its frequency in the
    /// document, the length of the document and the mean document length.
    pub part: P,
    /// Sum of two scores.
    pub plus: A,
}

impl<W, B, P, A> Bm25Scorer<W, B, P, A> where
    W: Fn(u64, u64) -> u32,
    B: Fn(u32, u8, u64) -> u32,
    P: Fn(u32, u8, u32, u64) -> u32,
    A: Fn(u32, u32) -> u32,
 {
    /// What the functions of this scorer compute.
    pub open spec fn arithmetic(self) -> Arithmetic {
        Arithmetic {
            weigh: |n: u64, df: u64| choose|r: u32| call_ensures(self.weigh, (n, df), r),
            bound: |w: u32, tf: u8, avg: u64|
                choose|r: u32| call_ensures(self.bound, (w, tf, avg), r),
            part: |w: u32, tf: u8, dl: u32, avg: u64|
                choose|r: u32| call_ensures(self.part, (w, tf, dl, avg), r),
            plus: |a: u32, b: u32| choose|r: u32| call_ensures(self.plus, (a, b), r),
        }
    }

    /// The functions take every argument, and what each returns depends on its arguments alone.
    pub open spec fn wf(self) -> bool {
        &&& forall|n: u64, df: u64| call_requires(self.weigh, (n, df))
        &&& forall|w: u32, tf: u8, avg: u64| call_requires(self.bound, (w, tf, avg))
        &&& forall|w: u32, tf: u8, dl: u32, avg: u64|
            call_requires(self.part, (w, tf, dl, avg))
        &&& forall|a: u32, b: u32| call_requires(self.plus, (a, b))
        &&& forall|n: u64, df: u64, r: u32, s: u32|
            #![trigger call_ensures(self.weigh, (n, df), r), call_ensures(self.weigh, (n, df), s)]
            call_ensures(self.weigh, (n, df), r) && call_ensures(self.weigh, (n, df), s) ==> r == s
        &&& forall|w: u32, tf: u8, avg: u64, r: u32, s: u32|
            #![trigger call_ensures(self.bound, (w, tf, avg), r), call_ensures(self.bound, (w, tf, avg), s)]
            call_ensures(self.bound, (w, tf, avg), r) && call_ensures(self.bound, (w, tf, avg), s)
                ==> r == s
        &&& forall|w: u32, tf: u8, dl: u32, avg: u64, r: u32, s: u32|
            #![trigger call_ensures(self.part, (w, tf, dl, avg), r), call_ensures(self.part, (w, tf, dl, avg), s)]
            call_ensures(self.part, (w, tf, dl, avg), r) && call_ensures(
                self.part,
                (w, tf, dl, avg),
                s,
            ) ==> r == s
        &&& forall|a: u32, b: u32, r: u32, s: u32|
            #![trigger call_ensures(self.plus, (a, b), r), call_ensures(self.plus, (a, b), s)]
            call_ensures(self.plus, (a, b), r) && call_ensures(self.plus, (a, b), s) ==> r == s
    }

    /// The weight of a term.
    pub(crate) fn weight(&self, num_docs: u64, doc_freq: u64) -> (bits: u32)
        requires
            self.wf(),
        ensures
            bits == (self.arithmetic().weigh)(num_docs, doc_freq),
    {
        (self.weigh)(num_docs, doc_freq)
    }

    /// The highest score that a term can give.
    pub(crate) fn term_bound(&self, weight: u32, top: u8, avg_doc_len: u64) -> (bits: u32)
        requires
            self.wf(),
        ensures
            bits == (self.arithmetic().bound)(weight, top, avg_doc_len),
    {
        (self.bound)(weight, top, avg_doc_len)
    }

    /// What a term adds to the score of a document.
    pub(crate) fn term_part(&self, weight: u32, tf: u8, doc_len: u32, avg_doc_len: u64) -> (bits: u32)
        requires
            self.wf(),
        ensures
            bits == (self.arithmetic().part)(weight, tf, doc_len, avg_doc_len),
    {
        (self.part)(weight, tf, doc_len, avg_doc_len)
    }

    /// Sum of two scores.
    pub(crate) fn add_scores(&self, a: u32, b: u32) -> (bits: u32)
        requires
            self.wf(),
        ensures
            bits == (self.arithmetic().plus)(a, b),
    {
        (self.plus)(a, b)
    }
}

} // verus!
