//! Variable-byte integers and the postings lists built from them.
//!
//! An integer is written in groups of seven bits, least significant group first. Every byte but
//! the last has its top bit set. A postings list is its length, then for each document the gap to
//! the previous document id and the term frequency. All of these are variable-byte integers.
use vstd::prelude::*;
use vstd::arithmetic::power::{lemma_pow0, lemma_pow1, pow};
use crate::le::lemma_place;
use vstd::slice::slice_subrange;

verus! {

/// The number of values that fit in a `u32`.
pub open spec fn two_to_32() -> int {
    0x1_0000_0000
}

/// The bytes that stand for `v`.
pub open spec fn vbyte_bytes(v: nat) -> Seq<u8>
    decreases v,
{
    if v < 128 {
        seq![v as u8]
    } else {
        seq![(v % 128 + 128) as u8] + vbyte_bytes(v / 128)
    }
}

/// How many bytes the integer at the front of `s` takes: those up to and including the first
/// byte below 128. `None` where no byte is.
pub open spec fn vbyte_len(s: Seq<u8>) -> Option<int>
    decreases s.len(),
{
    if s.len() == 0 {
        None
    } else if s[0] < 128 {
        Some(1)
    } else {
        match vbyte_len(s.skip(1)) {
            Some(n) => Some(n + 1),
            None => None,
        }
    }
}

/// The integer at the front of `s`.
pub open spec fn vbyte_value(s: Seq<u8>) -> nat
    decreases s.len(),
{
    if s.len() == 0 {
        0
    } else if s[0] < 128 {
        s[0] as nat
    } else {
        (s[0] - 128 + 128 * vbyte_value(s.skip(1))) as nat
    }
}

/// `s` starts with an integer of at most five bytes.
pub open spec fn vbyte_ok(s: Seq<u8>) -> bool {
    vbyte_len(s) matches Some(n) && n <= 5
}

/// The integer at the front of `s`, as a 32-bit number. Bits beyond the lowest 32 are lost.
pub open spec fn vbyte_u32(s: Seq<u8>) -> u32 {
    (vbyte_value(s) as int % two_to_32()) as u32
}

/// `128` to the power of `i`.
spec fn place(i: nat) -> nat
    decreases i,
{
    if i == 0 {
        1
    } else {
        128 * place((i - 1) as nat)
    }
}

proof fn lemma_places()
    ensures
        place(0) == 1,
        place(1) == 128,
        place(2) == 16384,
        place(3) == 2097152,
        place(4) == 268435456,
        place(5) == 34359738368,
{
    reveal_with_fuel(place, 6);
}

pub proof fn lemma_vbyte_len_bounds(s: Seq<u8>)
    ensures
        vbyte_len(s) matches Some(n) ==> 1 <= n <= s.len(),
    decreases s.len(),
{
    if s.len() > 0 && s[0] >= 128 {
        lemma_vbyte_len_bounds(s.skip(1));
    }
}

/// Appends the bytes of `v` to `out`.
pub fn vbyte_encode_one(v: u32, out: &mut Vec<u8>)
    ensures
        final(out)@ == old(out)@ + vbyte_bytes(v as nat),
{
    let mut rest: u32 = v;
    let ghost start = out@;
    assert(start + vbyte_bytes(v as nat) =~= out@ + vbyte_bytes(rest as nat));
    loop
        invariant_except_break
            start + vbyte_bytes(v as nat) == out@ + vbyte_bytes(rest as nat),
        ensures
            start + vbyte_bytes(v as nat) == out@,
        decreases rest,
    {
        let byte = (rest & 0x7F) as u8;
        let next = rest >> 7;
        assert((rest & 0x7F) as u8 == rest % 128 && rest >> 7 == rest / 128) by (bit_vector);
        assert(byte < 128 ==> (byte | 0x80) == byte + 128) by (bit_vector);
        if next == 0 {
            proof {
                assert(vbyte_bytes(rest as nat) == seq![byte]);
                assert(out@.push(byte) =~= out@ + seq![byte]);
            }
            out.push(byte);
            break;
        } else {
            proof {
                assert(vbyte_bytes(rest as nat) == seq![(byte | 0x80)] + vbyte_bytes(next as nat));
                assert(out@.push(byte | 0x80) + vbyte_bytes(next as nat) =~= out@ + (seq![
                    (byte | 0x80),
                ] + vbyte_bytes(next as nat)));
            }
            out.push(byte | 0x80);
            rest = next;
        }
    }
}

/// The bytes of each of `values`, one after the other.
pub open spec fn vbyte_concat(values: Seq<u32>) -> Seq<u8>
    decreases values.len(),
{
    if values.len() == 0 {
        Seq::empty()
    } else {
        vbyte_concat(values.drop_last()) + vbyte_bytes(values.last() as nat)
    }
}

/// Encodes a slice of unsigned integers. Each is written as one to five bytes; the top bit of
/// each byte is set if more bytes follow.
pub fn vbyte_encode(values: &[u32]) -> (out: Vec<u8>)
    ensures
        out@ == vbyte_concat(values@),
{
    let mut out: Vec<u8> = Vec::new();
    let mut i: usize = 0;
    while i < values.len()
        invariant
            i <= values.len(),
            out@ == vbyte_concat(values@.take(i as int)),
        decreases values.len() - i,
    {
        vbyte_encode_one(values[i], &mut out);
        i += 1;
        assert(values@.take(i as int).drop_last() =~= values@.take(i - 1));
    }
    assert(values@.take(i as int) =~= values@);
    out
}

/// What the decoder holds after `i` continuation bytes: the value so far, and the bytes to come.
proof fn lemma_vbyte_split(s: Seq<u8>, i: nat)
    requires
        vbyte_len(s) matches Some(n) && i < n,
    ensures
        i <= s.len(),
        vbyte_len(s.skip(i as int)) == Some(vbyte_len(s)->0 - i),
    decreases i,
{
    lemma_vbyte_len_bounds(s);
    if i == 0 {
        assert(s.skip(0) =~= s);
    } else {
        lemma_vbyte_split(s.skip(1), (i - 1) as nat);
        lemma_vbyte_len_bounds(s.skip(1));
        assert(s.skip(1).skip(i - 1) =~= s.skip(i as int));
    }
}

/// One more group of seven bits joins the value read so far.
proof fn lemma_join_group(val: u32, byte: u8, i: nat, shift: u32)
    requires
        i <= 4,
        shift == 7 * i,
        val < place(i),
    ensures
        (val | ((byte & 0x7F) as u32) << shift) == (val + place(i) * (byte % 128)) % two_to_32(),
        i <= 3 ==> val + place(i) * (byte % 128) < place(i + 1),
        i <= 3 ==> place(i + 1) < two_to_32(),
{
    lemma_places();
    let p = place(i);
    let g = (byte % 128) as nat;
    assert(i == 0 ==> p * g == g) by (nonlinear_arith)
        requires
            i == 0 ==> p == 1,
    ;
    assert(i == 1 ==> p * g == 128 * g) by (nonlinear_arith)
        requires
            i == 1 ==> p == 128,
    ;
    assert(i == 2 ==> p * g == 16384 * g) by (nonlinear_arith)
        requires
            i == 2 ==> p == 16384,
    ;
    assert(i == 3 ==> p * g == 2097152 * g) by (nonlinear_arith)
        requires
            i == 3 ==> p == 2097152,
    ;
    assert(i == 4 ==> p * g == 268435456 * g) by (nonlinear_arith)
        requires
            i == 4 ==> p == 268435456,
    ;
    if i == 0 {
        assert((val | ((byte & 0x7F) as u32) << 0u32) == val + (byte % 128)) by (bit_vector)
            requires
                val < 1u32,
        ;
    } else if i == 1 {
        assert((val | ((byte & 0x7F) as u32) << 7u32) == val + 128 * (byte % 128)) by (bit_vector)
            requires
                val < 128u32,
        ;
    } else if i == 2 {
        assert((val | ((byte & 0x7F) as u32) << 14u32) == val + 16384 * (byte % 128))
            by (bit_vector)
            requires
                val < 16384u32,
        ;
    } else if i == 3 {
        assert((val | ((byte & 0x7F) as u32) << 21u32) == val + 2097152 * (byte % 128))
            by (bit_vector)
            requires
                val < 2097152u32,
        ;
    } else {
        assert((val | ((byte & 0x7F) as u32) << 28u32) == (val + 268435456 * (byte % 128))
            % 0x1_0000_0000) by (bit_vector)
            requires
                val < 268435456u32,
        ;
    }
}

/// Reads the integer at the front of `data`; returns it and how many bytes it took.
pub fn vbyte_decode_one(data: &[u8]) -> (r: (u32, usize))
    requires
        vbyte_ok(data@),
    ensures
        r.0 == vbyte_u32(data@),
        r.1 == vbyte_len(data@)->0,
{
    let mut val: u32 = 0;
    let mut shift: u32 = 0;
    let mut i: usize = 0;
    let ghost n = vbyte_len(data@)->0;
    proof {
        lemma_vbyte_len_bounds(data@);
        assert(data@.skip(0) =~= data@);
        lemma_places();
    }
    loop
        invariant_except_break
            vbyte_len(data@) == Some(n),
            1 <= n <= 5,
            n <= data@.len(),
            0 <= i < n,
            shift == 7 * i,
            val < place(i as nat),
            vbyte_value(data@) == val + place(i as nat) * vbyte_value(data@.skip(i as int)),
        ensures
            i == n,
            val == vbyte_u32(data@),
        decreases n - i,
    {
        let byte = data[i];
        proof {
            lemma_vbyte_split(data@, i as nat);
            lemma_join_group(val, byte, i as nat, shift);
            assert(data@.skip(i as int)[0] == byte);
            assert(data@.skip(i as int).skip(1) =~= data@.skip(i + 1));
            assert(byte & 0x80 == 0 <==> byte < 128) by (bit_vector);
        }
        let ghost before = val;
        i += 1;
        val = val | (((byte & 0x7F) as u32) << shift);
        if byte & 0x80 == 0 {
            break;
        }
        proof {
            let rest = vbyte_value(data@.skip(i as int));
            let p = place((i - 1) as nat);
            let g = (byte - 128) as nat;
            lemma_vbyte_len_bounds(data@.skip(i as int));
            assert(place(i as nat) == 128 * p);
            assert(p * (g + 128 * rest) == p * g + (128 * p) * rest) by (nonlinear_arith);
            lemma_places();
            assert(i <= 4);
            assert(val == before + p * g) by {
                vstd::arithmetic::div_mod::lemma_small_mod((before + p * g) as nat, two_to_32() as nat);
            }
        }
        shift += 7;
    }
    (val, i)
}

/// How many bytes the integer at the front of `data` takes, where [`vbyte_decode_one`] can read it.
pub fn vbyte_prefix_len(data: &[u8]) -> (r: Option<usize>)
    ensures
        r is Some <==> vbyte_ok(data@),
        r matches Some(n) ==> vbyte_len(data@) == Some(n as int),
{
    let mut i: usize = 0;
    assert(data@.skip(0) =~= data@);
    while i < data.len() && i < 5
        invariant
            i <= data@.len(),
            i <= 5,
            vbyte_len(data@) == (match vbyte_len(data@.skip(i as int)) {
                Some(n) => Some(n + i),
                None => None,
            }),
        decreases data.len() - i,
    {
        assert(data@.skip(i as int)[0] == data@[i as int]);
        assert(data@.skip(i as int).skip(1) =~= data@.skip(i + 1));
        if data[i] < 128 {
            return Some(i + 1);
        }
        i += 1;
    }
    proof {
        lemma_vbyte_len_bounds(data@.skip(i as int));
    }
    None
}

/// `s` is a run of integers that [`vbyte_decode_one`] can read, up to its end.
pub open spec fn vbyte_stream_ok(s: Seq<u8>) -> bool
    decreases s.len(),
{
    if s.len() == 0 {
        true
    } else if vbyte_ok(s) && 1 <= vbyte_len(s)->0 <= s.len() {
        vbyte_stream_ok(s.skip(vbyte_len(s)->0))
    } else {
        false
    }
}

/// The integers that `s` holds.
pub open spec fn vbyte_values(s: Seq<u8>) -> Seq<u32>
    decreases s.len(),
{
    if s.len() == 0 {
        Seq::empty()
    } else if vbyte_ok(s) && 1 <= vbyte_len(s)->0 <= s.len() {
        seq![vbyte_u32(s)] + vbyte_values(s.skip(vbyte_len(s)->0))
    } else {
        Seq::empty()
    }
}

/// Decodes a run of integers.
pub fn vbyte_decode(data: &[u8]) -> (out: Vec<u32>)
    requires
        vbyte_stream_ok(data@),
    ensures
        out@ == vbyte_values(data@),
{
    let mut out: Vec<u32> = Vec::new();
    let mut i: usize = 0;
    assert(data@.skip(0) =~= data@);
    assert(out@ + vbyte_values(data@.skip(0)) =~= vbyte_values(data@));
    while i < data.len()
        invariant
            i <= data@.len(),
            vbyte_stream_ok(data@.skip(i as int)),
            out@ + vbyte_values(data@.skip(i as int)) == vbyte_values(data@),
        decreases data.len() - i,
    {
        let tail = slice_subrange(data, i, data.len());
        assert(tail@ =~= data@.skip(i as int));
        let (val, consumed) = vbyte_decode_one(tail);
        let ghost before = out@;
        out.push(val);
        proof {
            assert(tail@.skip(consumed as int) =~= data@.skip(i + consumed));
            let later = vbyte_values(data@.skip(i + consumed));
            assert(before + (seq![val] + later) =~= before.push(val) + later);
        }
        i += consumed;
    }
    assert(out@ + vbyte_values(data@.skip(i as int)) =~= out@);
    out
}

// ---------------------------------------------------------------------------------------------
// Postings lists
// ---------------------------------------------------------------------------------------------

/// The document id before entry `i`, from which its gap is counted.
pub open spec fn previous_id(ids: Seq<u32>, i: int) -> int {
    if i <= 0 {
        0
    } else {
        ids[i - 1] as int
    }
}

/// The bytes of the first `n` entries of a postings list.
pub open spec fn entries_bytes(ids: Seq<u32>, tfs: Seq<u8>, n: int) -> Seq<u8>
    decreases n,
{
    if n <= 0 {
        Seq::empty()
    } else {
        entries_bytes(ids, tfs, n - 1) + vbyte_bytes(
            (ids[n - 1] - previous_id(ids, n - 1)) as nat,
        ) + vbyte_bytes(tfs[n - 1] as nat)
    }
}

/// The bytes of a postings list: its length, then its entries. The length is written as a 32-bit
/// number.
pub open spec fn postings_bytes(ids: Seq<u32>, tfs: Seq<u8>) -> Seq<u8> {
    vbyte_bytes((ids.len() as int % two_to_32()) as nat) + entries_bytes(ids, tfs, ids.len() as int)
}

/// No id is smaller than the one before it.
pub open spec fn ascending(ids: Seq<u32>) -> bool {
    forall|i: int, j: int| 0 <= i <= j < ids.len() ==> ids[i] <= ids[j]
}

/// Writes the gaps between the document ids, each followed by its term frequency. The ids must be
/// in ascending order.
pub fn encode_postings(doc_ids: &[u32], term_freqs: &[u8]) -> (out: Vec<u8>)
    requires
        doc_ids@.len() == term_freqs@.len(),
        ascending(doc_ids@),
    ensures
        out@ == postings_bytes(doc_ids@, term_freqs@),
{
    let mut out: Vec<u8> = Vec::new();
    let count: u64 = doc_ids.len() as u64 % 0x1_0000_0000;
    vbyte_encode_one(count as u32, &mut out);
    let ghost head = vbyte_bytes(count as nat);
    assert(out@ =~= head + entries_bytes(doc_ids@, term_freqs@, 0));
    let mut prev: u32 = 0;
    let mut i: usize = 0;
    while i < doc_ids.len()
        invariant
            i <= doc_ids@.len(),
            doc_ids@.len() == term_freqs@.len(),
            ascending(doc_ids@),
            prev == previous_id(doc_ids@, i as int),
            out@ == head + entries_bytes(doc_ids@, term_freqs@, i as int),
        decreases doc_ids.len() - i,
    {
        let doc_id = doc_ids[i];
        let ghost before = out@;
        let gap: u32 = doc_id - prev;
        prev = doc_id;
        vbyte_encode_one(gap, &mut out);
        vbyte_encode_one(term_freqs[i] as u32, &mut out);
        assert(out@ =~= head + (entries_bytes(doc_ids@, term_freqs@, i as int) + vbyte_bytes(
            gap as nat,
        ) + vbyte_bytes(term_freqs@[i as int] as nat)));
        i += 1;
    }
    out
}

/// A postings list read from bytes: its columns, and where it ended.
pub struct ParsedPostings {
    pub ids: Seq<u32>,
    pub tfs: Seq<u8>,
    pub end: int,
}

/// The first `n` entries that start at byte `start` of `s`. `None` where the bytes run out, an
/// integer is longer than five bytes, a document id does not fit in 32 bits, or a term frequency
/// does not fit in eight.
pub open spec fn parse_entries(s: Seq<u8>, start: int, n: int) -> Option<ParsedPostings>
    decreases n,
{
    if n <= 0 {
        Some(ParsedPostings { ids: Seq::empty(), tfs: Seq::empty(), end: start })
    } else {
        match parse_entries(s, start, n - 1) {
            None => None,
            Some(p) => {
                let rest = s.skip(p.end);
                let id = previous_id(p.ids, n - 1) + vbyte_u32(rest);
                let behind = rest.skip(vbyte_len(rest)->0);
                if vbyte_ok(rest) && vbyte_ok(behind) && id <= u32::MAX && vbyte_u32(behind)
                    <= u8::MAX {
                    Some(
                        ParsedPostings {
                            ids: p.ids.push(id as u32),
                            tfs: p.tfs.push(vbyte_u32(behind) as u8),
                            end: p.end + vbyte_len(rest)->0 + vbyte_len(behind)->0,
                        },
                    )
                } else {
                    None
                }
            },
        }
    }
}

/// The postings list at the front of `s`.
pub open spec fn parse_postings(s: Seq<u8>) -> Option<ParsedPostings> {
    if vbyte_ok(s) {
        parse_entries(s, vbyte_len(s)->0, vbyte_u32(s) as int)
    } else {
        None
    }
}

/// Where `n` entries can be read, so can the first `m` of them.
proof fn lemma_parse_prefix(s: Seq<u8>, start: int, m: int, n: int)
    requires
        0 <= m <= n,
        0 <= start <= s.len(),
    ensures
        parse_entries(s, start, n) is Some ==> parse_entries(s, start, m) is Some,
    decreases n,
{
    if m < n {
        lemma_parse_prefix(s, start, m, n - 1);
    }
}

/// The columns of a parsed list are as long as the list, and it ends within the bytes.
pub proof fn lemma_parse_shape(s: Seq<u8>, start: int, n: int)
    requires
        0 <= n,
        0 <= start <= s.len(),
    ensures
        parse_entries(s, start, n) matches Some(p) ==> {
            &&& p.ids.len() == n
            &&& p.tfs.len() == n
            &&& start + 2 * n <= p.end <= s.len()
            &&& ascending(p.ids)
        },
    decreases n,
{
    if n > 0 {
        lemma_parse_shape(s, start, n - 1);
        if let Some(p) = parse_entries(s, start, n - 1) {
            let rest = s.skip(p.end);
            lemma_vbyte_len_bounds(rest);
            lemma_vbyte_len_bounds(rest.skip(vbyte_len(rest)->0));
        }
    }
}

/// Decodes the postings list at the front of `data`, where there is one.
pub fn try_decode_postings(data: &[u8]) -> (r: Option<(Vec<u32>, Vec<u8>)>)
    ensures
        r is Some <==> parse_postings(data@) is Some,
        r matches Some(lists) ==> {
            &&& lists.0@ == parse_postings(data@)->0.ids
            &&& lists.1@ == parse_postings(data@)->0.tfs
        },
{
    match vbyte_prefix_len(data) {
        None => {
            return None;
        },
        Some(_) => {},
    }
    let (doc_freq, start) = vbyte_decode_one(data);
    proof {
        lemma_vbyte_len_bounds(data@);
    }
    let mut offset: usize = start;
    let mut doc_ids: Vec<u32> = Vec::new();
    let mut tfs: Vec<u8> = Vec::new();
    let mut prev: u32 = 0;
    let mut i: u32 = 0;
    assert(doc_ids@ =~= Seq::<u32>::empty());
    assert(tfs@ =~= Seq::<u8>::empty());
    while i < doc_freq
        invariant
            vbyte_ok(data@),
            start == vbyte_len(data@)->0,
            doc_freq == vbyte_u32(data@),
            start <= data@.len(),
            i <= doc_freq,
            offset <= data@.len(),
            parse_entries(data@, start as int, i as int) == Some(
                ParsedPostings { ids: doc_ids@, tfs: tfs@, end: offset as int },
            ),
            prev == previous_id(doc_ids@, i as int),
        decreases doc_freq - i,
    {
        let tail = slice_subrange(data, offset, data.len());
        assert(tail@ =~= data@.skip(offset as int));
        proof {
            lemma_parse_prefix(data@, start as int, i + 1, doc_freq as int);
            lemma_parse_shape(data@, start as int, i as int);
        }
        match vbyte_prefix_len(tail) {
            None => {
                return None;
            },
            Some(_) => {},
        }
        let (gap, consumed) = vbyte_decode_one(tail);
        proof {
            lemma_vbyte_len_bounds(tail@);
        }
        let behind = slice_subrange(tail, consumed, tail.len());
        assert(behind@ =~= tail@.skip(consumed as int));
        match vbyte_prefix_len(behind) {
            None => {
                return None;
            },
            Some(_) => {},
        }
        let (tf, tf_len) = vbyte_decode_one(behind);
        proof {
            lemma_vbyte_len_bounds(behind@);
        }
        if tf > 255 {
            return None;
        }
        if gap > u32::MAX - prev {
            return None;
        }
        let doc_id: u32 = prev + gap;
        prev = doc_id;
        doc_ids.push(doc_id);
        tfs.push(tf as u8);
        offset += consumed + tf_len;
        i += 1;
    }
    Some((doc_ids, tfs))
}

/// Decodes a postings entry, returning the document ids and the term frequencies.
pub fn decode_postings(data: &[u8]) -> (r: (Vec<u32>, Vec<u8>))
    requires
        parse_postings(data@) is Some,
    ensures
        r.0@ == parse_postings(data@)->0.ids,
        r.1@ == parse_postings(data@)->0.tfs,
{
    match try_decode_postings(data) {
        Some(lists) => lists,
        None => (Vec::new(), Vec::new()),
    }
}

// ---------------------------------------------------------------------------------------------
// What is read is what was written
// ---------------------------------------------------------------------------------------------

/// An integer takes one to five bytes; the top bit of a byte is set exactly where more follow.
pub proof fn law_vbyte_shape(v: u32)
    ensures
        1 <= vbyte_bytes(v as nat).len() <= 5,
        forall|i: int|
            0 <= i < vbyte_bytes(v as nat).len() ==> (#[trigger] vbyte_bytes(v as nat)[i] >= 128
                <==> i < vbyte_bytes(v as nat).len() - 1),
{
    lemma_places();
    lemma_vbyte_shape(v as nat, 5);
}

proof fn lemma_vbyte_shape(v: nat, n: nat)
    requires
        v < place(n),
        n > 0,
    ensures
        1 <= vbyte_bytes(v).len() <= n,
        forall|i: int|
            0 <= i < vbyte_bytes(v).len() ==> (#[trigger] vbyte_bytes(v)[i] >= 128 <==> i
                < vbyte_bytes(v).len() - 1),
    decreases n,
{
    if v >= 128 {
        reveal_with_fuel(place, 2);
        lemma_vbyte_shape(v / 128, (n - 1) as nat);
        let head = seq![(v % 128 + 128) as u8];
        let tail = vbyte_bytes(v / 128);
        assert forall|i: int| 0 <= i < vbyte_bytes(v).len() implies (#[trigger] vbyte_bytes(v)[i]
            >= 128 <==> i < vbyte_bytes(v).len() - 1) by {
            if i > 0 {
                assert(vbyte_bytes(v)[i] == tail[i - 1]);
            }
        }
    }
}

/// Reading gives back the integer that was written, whatever follows it, and consumes exactly its
/// bytes.
pub proof fn law_vbyte_roundtrip(v: u32, rest: Seq<u8>)
    ensures
        vbyte_ok(vbyte_bytes(v as nat) + rest),
        vbyte_len(vbyte_bytes(v as nat) + rest) == Some(vbyte_bytes(v as nat).len() as int),
        vbyte_u32(vbyte_bytes(v as nat) + rest) == v,
{
    law_vbyte_shape(v);
    lemma_vbyte_roundtrip(v as nat, rest);
    vstd::arithmetic::div_mod::lemma_small_mod(v as nat, two_to_32() as nat);
}

proof fn lemma_vbyte_roundtrip(v: nat, rest: Seq<u8>)
    ensures
        vbyte_len(vbyte_bytes(v) + rest) == Some(vbyte_bytes(v).len() as int),
        vbyte_value(vbyte_bytes(v) + rest) == v,
    decreases v,
{
    let s = vbyte_bytes(v) + rest;
    if v >= 128 {
        lemma_vbyte_roundtrip(v / 128, rest);
        assert(s.skip(1) =~= vbyte_bytes(v / 128) + rest);
    }
}

/// Decoding an encoded slice gives the slice back.
pub proof fn law_vbyte_decode_encode(values: Seq<u32>)
    ensures
        vbyte_stream_ok(vbyte_concat(values)),
        vbyte_values(vbyte_concat(values)) == values,
    decreases values.len(),
{
    lemma_vbyte_concat_front(values);
    if values.len() > 0 {
        let tail = values.skip(1);
        law_vbyte_decode_encode(tail);
        law_vbyte_roundtrip(values[0], vbyte_concat(tail));
        law_vbyte_shape(values[0]);
        let s = vbyte_concat(values);
        assert(s.skip(vbyte_bytes(values[0] as nat).len() as int) =~= vbyte_concat(tail));
        assert(seq![values[0]] + tail =~= values);
    } else {
        assert(vbyte_values(vbyte_concat(values)) =~= values);
    }
}

proof fn lemma_vbyte_concat_front(values: Seq<u32>)
    ensures
        values.len() > 0 ==> vbyte_concat(values) == vbyte_bytes(values[0] as nat) + vbyte_concat(
            values.skip(1),
        ),
    decreases values.len(),
{
    if values.len() == 1 {
        assert(values.drop_last() =~= Seq::empty());
        assert(values.skip(1) =~= Seq::empty());
        assert(vbyte_concat(values) =~= vbyte_bytes(values[0] as nat) + vbyte_concat(
            values.skip(1),
        ));
    } else if values.len() > 1 {
        lemma_vbyte_concat_front(values.drop_last());
        assert(values.drop_last().skip(1) =~= values.skip(1).drop_last());
        assert(vbyte_concat(values) =~= vbyte_bytes(values[0] as nat) + vbyte_concat(
            values.skip(1),
        ));
    }
}

/// Decoding an encoded postings list gives its document ids and term frequencies back, whatever
/// bytes follow it.
pub proof fn law_postings_roundtrip(ids: Seq<u32>, tfs: Seq<u8>, rest: Seq<u8>)
    requires
        ids.len() == tfs.len(),
        ascending(ids),
        ids.len() <= u32::MAX,
    ensures
        parse_postings(postings_bytes(ids, tfs) + rest) == Some(
            ParsedPostings { ids, tfs, end: postings_bytes(ids, tfs).len() as int },
        ),
{
    let n = ids.len() as int;
    let head = vbyte_bytes(n as nat);
    vstd::arithmetic::div_mod::lemma_small_mod(n as nat, two_to_32() as nat);
    let body = entries_bytes(ids, tfs, n);
    assert(postings_bytes(ids, tfs) + rest =~= head + (body + rest));
    law_vbyte_roundtrip(n as u32, body + rest);
    lemma_entries_roundtrip(ids, tfs, n, head, rest);
    assert(head + body + rest =~= head + (body + rest));
    assert(ids.take(n) =~= ids);
    assert(tfs.take(n) =~= tfs);
}

/// Cutting a text that is put together of pieces at the ends of pieces.
proof fn lemma_pieces(a: Seq<u8>, b: Seq<u8>, c: Seq<u8>, d: Seq<u8>, e: Seq<u8>)
    ensures
        a + (b + (c + d)) + e == a + b + ((c + d) + e),
        (a + (b + (c + d)) + e).skip((a.len() + b.len()) as int) == c + (d + e),
        (c + (d + e)).skip(c.len() as int) == d + e,
{
    assert(a + (b + (c + d)) + e =~= a + b + ((c + d) + e));
    assert((a + (b + (c + d)) + e).skip((a.len() + b.len()) as int) =~= c + (d + e));
    assert((c + (d + e)).skip(c.len() as int) =~= d + e);
}

proof fn lemma_entries_roundtrip(
    ids: Seq<u32>,
    tfs: Seq<u8>,
    n: int,
    head: Seq<u8>,
    rest: Seq<u8>,
)
    requires
        ids.len() == tfs.len(),
        ascending(ids),
        0 <= n <= ids.len(),
    ensures
        parse_entries(head + entries_bytes(ids, tfs, n) + rest, head.len() as int, n) == Some(
            ParsedPostings {
                ids: ids.take(n),
                tfs: tfs.take(n),
                end: (head.len() + entries_bytes(ids, tfs, n).len()) as int,
            },
        ),
    decreases n,
{
    let s = head + entries_bytes(ids, tfs, n) + rest;
    if n == 0 {
        assert(ids.take(0) =~= Seq::empty());
        assert(tfs.take(0) =~= Seq::empty());
    } else {
        let before = entries_bytes(ids, tfs, n - 1);
        let gap = (ids[n - 1] - previous_id(ids, n - 1)) as nat;
        let tf = vbyte_bytes(tfs[n - 1] as nat);
        let entry = vbyte_bytes(gap) + tf;
        assert(entries_bytes(ids, tfs, n) =~= before + entry);
        lemma_pieces(head, before, vbyte_bytes(gap), tf, rest);
        lemma_entries_roundtrip(ids, tfs, n - 1, head, entry + rest);
        let p = parse_entries(s, head.len() as int, n - 1)->0;
        law_vbyte_roundtrip(gap as u32, tf + rest);
        law_vbyte_roundtrip(tfs[n - 1] as u32, rest);
        assert(previous_id(p.ids, n - 1) == previous_id(ids, n - 1));
        assert(p.ids.push(ids[n - 1]) =~= ids.take(n));
        assert(p.tfs.push(tfs[n - 1]) =~= tfs.take(n));
    }
}

/// What is left of an integer that was cut short cannot be read.
proof fn lemma_vbyte_cut(v: nat, n: int)
    requires
        0 <= n < vbyte_bytes(v).len(),
    ensures
        vbyte_len(vbyte_bytes(v).take(n)) is None,
    decreases v,
{
    let cut = vbyte_bytes(v).take(n);
    if n > 0 {
        lemma_vbyte_cut(v / 128, n - 1);
        assert(cut.skip(1) =~= vbyte_bytes(v / 128).take(n - 1));
    }
}

/// Of a list of which only the first bytes are there, no entry is read whose bytes are not.
proof fn lemma_entries_cut(ids: Seq<u32>, tfs: Seq<u8>, m: int, head: Seq<u8>, n: int)
    requires
        ids.len() == tfs.len(),
        ascending(ids),
        0 <= m <= ids.len(),
        0 <= n < entries_bytes(ids, tfs, m).len(),
    ensures
        parse_entries(head + entries_bytes(ids, tfs, m).take(n), head.len() as int, m) is None,
    decreases m,
{
    let before = entries_bytes(ids, tfs, m - 1);
    let gap = (ids[m - 1] - previous_id(ids, m - 1)) as nat;
    let gap_bytes = vbyte_bytes(gap);
    let tf_bytes = vbyte_bytes(tfs[m - 1] as nat);
    let all = entries_bytes(ids, tfs, m);
    let s = head + all.take(n);
    if n < before.len() {
        lemma_entries_cut(ids, tfs, m - 1, head, n);
        assert(all.take(n) =~= before.take(n));
    } else {
        let rest = all.take(n).skip(before.len() as int);
        assert(s =~= head + before + rest);
        lemma_entries_roundtrip(ids, tfs, m - 1, head, rest);
        let p = parse_entries(s, head.len() as int, m - 1)->0;
        assert(s.skip(p.end) =~= rest);
        if rest.len() < gap_bytes.len() {
            assert(rest =~= gap_bytes.take(rest.len() as int));
            lemma_vbyte_cut(gap, rest.len() as int);
        } else {
            let behind = rest.skip(gap_bytes.len() as int);
            assert(rest =~= gap_bytes + behind);
            law_vbyte_roundtrip(gap as u32, behind);
            assert(behind =~= tf_bytes.take(behind.len() as int));
            lemma_vbyte_cut(tfs[m - 1] as nat, behind.len() as int);
        }
    }
}

/// A postings list that was cut short is not read: what is left of it never passes for a shorter
/// list.
pub proof fn law_cut_postings_are_refused(ids: Seq<u32>, tfs: Seq<u8>, n: int)
    requires
        ids.len() == tfs.len(),
        ascending(ids),
        ids.len() <= u32::MAX,
        0 <= n < postings_bytes(ids, tfs).len(),
    ensures
        parse_postings(postings_bytes(ids, tfs).take(n)) is None,
{
    let count = ids.len() as int;
    let head = vbyte_bytes(count as nat);
    let body = entries_bytes(ids, tfs, count);
    let cut = postings_bytes(ids, tfs).take(n);
    vstd::arithmetic::div_mod::lemma_small_mod(count as nat, two_to_32() as nat);
    if n < head.len() {
        assert(cut =~= head.take(n));
        lemma_vbyte_cut(count as nat, n);
    } else {
        let rest = body.take(n - head.len());
        assert(cut =~= head + rest);
        law_vbyte_roundtrip(count as u32, rest);
        lemma_entries_cut(ids, tfs, count, head, n - head.len());
    }
}

// ---------------------------------------------------------------------------------------------
// What the bytes mean
// ---------------------------------------------------------------------------------------------

/// The bytes of an integer are its digits to the base 128, the lowest first, as many as it takes;
/// each but the last has its top bit set.
pub proof fn law_vbyte_digits(v: nat, i: int)
    requires
        0 <= i < vbyte_bytes(v).len(),
    ensures
        vbyte_bytes(v)[i] as int == (v as int / pow(128, i as nat)) % 128 + (if i
            < vbyte_bytes(v).len() - 1 {
            128int
        } else {
            0
        }),
        v < pow(128, vbyte_bytes(v).len()),
        vbyte_bytes(v).len() > 1 ==> pow(128, (vbyte_bytes(v).len() - 1) as nat) <= v,
    decreases v,
{
    lemma_pow0(128);
    lemma_pow1(128);
    if v >= 128 {
        let rest = vbyte_bytes(v / 128);
        let n = rest.len();
        assert(n > 0);
        let j = if i == 0 {
            0
        } else {
            i - 1
        };
        law_vbyte_digits(v / 128, j);
        if i > 0 {
            lemma_place(128, v as int, i as nat);
            assert(vbyte_bytes(v)[i] == rest[i - 1]);
        } else {
            assert(v as int / 1 == v);
        }
        reveal(pow);
        let high = pow(128, n);
        assert(pow(128, n + 1) == 128 * high);
        assert(v < 128 * high) by (nonlinear_arith)
            requires
                v / 128 < high,
        ;
        if n > 1 {
            let low = pow(128, (n - 1) as nat);
            assert(high == 128 * low);
            assert(128 * low <= v) by (nonlinear_arith)
                requires
                    low <= v / 128,
            ;
        }
    }
}

/// An integer ends at the first byte below 128. Where there is none, there is no integer.
pub proof fn law_vbyte_end(s: Seq<u8>)
    ensures
        vbyte_len(s) is None <==> forall|i: int| 0 <= i < s.len() ==> #[trigger] s[i] >= 128,
        vbyte_len(s) matches Some(n) ==> {
            &&& 1 <= n <= s.len()
            &&& s[n - 1] < 128
            &&& forall|i: int| 0 <= i < n - 1 ==> #[trigger] s[i] >= 128
        },
    decreases s.len(),
{
    if s.len() > 0 && s[0] >= 128 {
        let rest = s.skip(1);
        law_vbyte_end(rest);
        match vbyte_len(rest) {
            None => {
                assert forall|i: int| 0 <= i < s.len() implies #[trigger] s[i] >= 128 by {
                    if i > 0 {
                        assert(rest[i - 1] == s[i]);
                    }
                }
            },
            Some(n) => {
                assert(rest[n - 1] == s[n]);
                assert forall|i: int| 0 <= i < n implies #[trigger] s[i] >= 128 by {
                    if i > 0 {
                        assert(rest[i - 1] == s[i]);
                    }
                }
            },
        }
    }
}

/// An integer can be read where one ends within the first five bytes.
pub proof fn law_vbyte_readable(s: Seq<u8>)
    ensures
        vbyte_ok(s) <==> exists|i: int| 0 <= i < 5 && i < s.len() && #[trigger] s[i] < 128,
{
    law_vbyte_end(s);
    if vbyte_ok(s) {
        assert(s[vbyte_len(s)->0 - 1] < 128);
    }
}

/// The integer that is read has the lower seven bits of its bytes for digits to the base 128, and
/// its lowest 32 bits are what is returned.
pub proof fn law_vbyte_value_digits(s: Seq<u8>, i: int)
    requires
        vbyte_len(s) is Some,
        0 <= i < vbyte_len(s)->0,
    ensures
        (vbyte_value(s) as int / pow(128, i as nat)) % 128 == s[i] as int % 128,
        vbyte_value(s) < pow(128, vbyte_len(s)->0 as nat),
        vbyte_u32(s) == vbyte_value(s) as int % 0x1_0000_0000,
    decreases s.len(),
{
    lemma_pow0(128);
    lemma_pow1(128);
    law_vbyte_end(s);
    if s[0] >= 128 {
        let rest = s.skip(1);
        law_vbyte_end(rest);
        let n = vbyte_len(rest)->0;
        let j = if i == 0 {
            0
        } else {
            i - 1
        };
        law_vbyte_value_digits(rest, j);
        let v = vbyte_value(s) as int;
        let w = vbyte_value(rest) as int;
        let low = s[0] - 128;
        assert(v == low + 128 * w);
        assert(v / 128 == w && v % 128 == low);
        if i > 0 {
            lemma_place(128, v, i as nat);
            assert(rest[i - 1] == s[i]);
        }
        reveal(pow);
        assert(pow(128, (n + 1) as nat) == 128 * pow(128, n as nat));
        let high = pow(128, n as nat);
        assert(v < 128 * high) by (nonlinear_arith)
            requires
                v == low + 128 * w,
                w < high,
                low < 128,
        ;
    }
}

/// Encoding slices one after the other encodes them put together; one integer is encoded as its
/// bytes.
pub proof fn law_vbyte_encode_each(a: Seq<u32>, b: Seq<u32>, v: u32)
    ensures
        vbyte_concat(Seq::empty()) == Seq::<u8>::empty(),
        vbyte_concat(seq![v]) == vbyte_bytes(v as nat),
        vbyte_concat(a + b) == vbyte_concat(a) + vbyte_concat(b),
    decreases b.len(),
{
    assert(seq![v].drop_last() =~= Seq::<u32>::empty());
    assert(vbyte_concat(seq![v]) =~= vbyte_bytes(v as nat)) by {
        reveal_with_fuel(vbyte_concat, 2);
    }
    if b.len() == 0 {
        assert(a + b =~= a);
        assert(vbyte_concat(a + b) =~= vbyte_concat(a) + vbyte_concat(b));
    } else {
        assert((a + b).drop_last() =~= a + b.drop_last());
        law_vbyte_encode_each(a, b.drop_last(), v);
        assert(vbyte_concat(a + b) =~= vbyte_concat(a) + vbyte_concat(b));
    }
}

/// What follows the integer at the front does not change it.
proof fn lemma_vbyte_front(s: Seq<u8>, rest: Seq<u8>)
    requires
        vbyte_len(s) is Some,
    ensures
        vbyte_len(s + rest) == vbyte_len(s),
        vbyte_value(s + rest) == vbyte_value(s),
    decreases s.len(),
{
    if s[0] >= 128 {
        assert((s + rest).skip(1) =~= s.skip(1) + rest);
        lemma_vbyte_front(s.skip(1), rest);
    }
}

proof fn lemma_run_of_one(s: Seq<u8>)
    requires
        vbyte_len(s) == Some(s.len() as int),
        s.len() <= 5,
    ensures
        vbyte_stream_ok(s),
        vbyte_values(s) == seq![vbyte_u32(s)],
{
    reveal_with_fuel(vbyte_values, 2);
    reveal_with_fuel(vbyte_stream_ok, 2);
    lemma_vbyte_len_bounds(s);
    assert(s.skip(s.len() as int) =~= Seq::<u8>::empty());
    assert(vbyte_values(s) =~= seq![vbyte_u32(s)]);
}

/// Decoding a run of integers and then what follows decodes both together; a run of one integer
/// has its value.
pub proof fn law_vbyte_decode_each(a: Seq<u8>, b: Seq<u8>)
    requires
        vbyte_stream_ok(a),
    ensures
        vbyte_stream_ok(a + b) == vbyte_stream_ok(b),
        vbyte_values(a + b) == vbyte_values(a) + vbyte_values(b),
        vbyte_values(Seq::empty()) == Seq::<u32>::empty(),
        vbyte_stream_ok(Seq::empty()),
        vbyte_len(b) == Some(b.len() as int) && b.len() <= 5 ==> vbyte_stream_ok(b) && vbyte_values(
            b,
        ) == seq![vbyte_u32(b)],
    decreases a.len(),
{
    if vbyte_len(b) == Some(b.len() as int) && b.len() <= 5 {
        lemma_run_of_one(b);
    }
    if a.len() == 0 {
        assert(a + b =~= b);
        assert(vbyte_values(a) + vbyte_values(b) =~= vbyte_values(b));
    } else {
        let n = vbyte_len(a)->0;
        lemma_vbyte_len_bounds(a);
        lemma_vbyte_front(a, b);
        assert((a + b).skip(n) =~= a.skip(n) + b);
        law_vbyte_decode_each(a.skip(n), b);
        assert(vbyte_values(a + b) =~= vbyte_values(a) + vbyte_values(b));
    }
}

/// A run that does not start with an integer, or with one of more than five bytes, is none.
pub proof fn law_vbyte_run_refused(s: Seq<u8>)
    requires
        s.len() > 0,
        !vbyte_ok(s),
    ensures
        !vbyte_stream_ok(s),
{
}

/// The numbers that stand for a postings list: how many documents there are, and for each the gap
/// to the one before and its frequency.
#[verifier::opaque]
pub open spec fn list_numbers(ids: Seq<u32>, tfs: Seq<u8>) -> Seq<u32> {
    seq![ids.len() as u32] + Seq::new(
        2 * ids.len(),
        |j: int|
            if j % 2 == 1 {
                tfs[j / 2] as u32
            } else if j == 0 {
                ids[0]
            } else {
                (ids[j / 2] - ids[j / 2 - 1]) as u32
            },
    )
}

/// A postings list is written as its numbers: how many documents there are, and for each the gap
/// to the one before and its frequency.
pub proof fn law_postings_layout(ids: Seq<u32>, tfs: Seq<u8>)
    requires
        ids.len() == tfs.len(),
        ids.len() <= u32::MAX,
        forall|i: int, j: int| 0 <= i < j < ids.len() ==> ids[i] <= ids[j],
    ensures
        postings_bytes(ids, tfs) == vbyte_concat(list_numbers(ids, tfs)),
{
    let numbers = list_numbers(ids, tfs);
    let n = ids.len() as int;
    lemma_entries_layout(ids, tfs, n);
    assert(numbers.len() == 1 + 2 * n && numbers[0] == ids.len()) by {
        reveal(list_numbers);
    }
    lemma_first_number(numbers);
    law_vbyte_encode_each(seq![numbers[0]], numbers.skip(1), numbers[0]);
}

proof fn lemma_first_number(numbers: Seq<u32>)
    requires
        numbers.len() > 0,
    ensures
        numbers == seq![numbers[0]] + numbers.skip(1),
        numbers.skip(1).take(numbers.len() - 1) == numbers.skip(1),
{
    assert(numbers =~= seq![numbers[0]] + numbers.skip(1));
    assert(numbers.skip(1).take(numbers.len() - 1) =~= numbers.skip(1));
}

/// The numbers of a postings list, one by one.
pub proof fn law_numbers_of_a_list(ids: Seq<u32>, tfs: Seq<u8>, i: int)
    requires
        ids.len() == tfs.len(),
        ids.len() <= u32::MAX,
        forall|i: int, j: int| 0 <= i < j < ids.len() ==> ids[i] <= ids[j],
        0 <= i < ids.len(),
    ensures
        list_numbers(ids, tfs).len() == 1 + 2 * ids.len(),
        list_numbers(ids, tfs)[0] == ids.len(),
        list_numbers(ids, tfs)[1 + 2 * i] == ids[i] - (if i == 0 {
            0
        } else {
            ids[i - 1] as int
        }),
        list_numbers(ids, tfs)[2 + 2 * i] == tfs[i],
{
    reveal(list_numbers);
    let numbers = list_numbers(ids, tfs);
    assert((2 * i) % 2 == 0 && (2 * i) / 2 == i);
    assert((2 * i + 1) % 2 == 1 && (2 * i + 1) / 2 == i);
    if i > 0 {
        assert(ids[i - 1] <= ids[i]);
    }
    assert(numbers[1 + 2 * i] == numbers.skip(1)[2 * i]);
    assert(numbers[2 + 2 * i] == numbers.skip(1)[2 * i + 1]);
}

proof fn lemma_entries_layout(ids: Seq<u32>, tfs: Seq<u8>, n: int)
    requires
        ids.len() == tfs.len(),
        ids.len() <= u32::MAX,
        0 <= n <= ids.len(),
        forall|i: int, j: int| 0 <= i < j < ids.len() ==> ids[i] <= ids[j],
    ensures
        entries_bytes(ids, tfs, n) == vbyte_concat(list_numbers(ids, tfs).skip(1).take(2 * n)),
    decreases n,
{
    reveal(list_numbers);
    let numbers = list_numbers(ids, tfs).skip(1);
    if n == 0 {
        assert(numbers.take(0) =~= Seq::empty());
    } else {
        lemma_entries_layout(ids, tfs, n - 1);
        let gap = numbers[2 * n - 2];
        let tf = numbers[2 * n - 1];
        assert((2 * n - 2) % 2 == 0 && (2 * n - 2) / 2 == n - 1);
        assert((2 * n - 1) % 2 == 1 && (2 * n - 1) / 2 == n - 1);
        if n > 1 {
            assert(ids[n - 2] <= ids[n - 1]);
        }
        assert(gap == ids[n - 1] - previous_id(ids, n - 1));
        assert(tf == tfs[n - 1]);
        let before = numbers.take(2 * n - 2);
        assert(numbers.take(2 * n) =~= (before + seq![gap]) + seq![tf]);
        law_vbyte_encode_each(before + seq![gap], seq![tf], tf);
        law_vbyte_encode_each(before, seq![gap], gap);
    }
}

/// Reading a postings list, however its integers are written: what is read is a run of integers,
/// and they are the numbers of the list.
pub proof fn law_postings_are_numbers(s: Seq<u8>)
    ensures
        parse_postings(s) matches Some(p) ==> {
            let numbers = vbyte_values(s.take(p.end));
            &&& 0 <= p.end <= s.len()
            &&& vbyte_stream_ok(s.take(p.end))
            &&& p.ids.len() == p.tfs.len()
            &&& numbers.len() == 1 + 2 * p.ids.len()
            &&& numbers[0] == p.ids.len()
            &&& forall|i: int|
                0 <= i < p.ids.len() ==> (#[trigger] p.ids[i]) - (if i == 0 {
                    0
                } else {
                    p.ids[i - 1] as int
                }) == numbers[1 + 2 * i]
            &&& forall|i: int|
                0 <= i < p.tfs.len() ==> (#[trigger] p.tfs[i]) == numbers[2 + 2 * i]
        },
{
    if vbyte_ok(s) {
        let n = vbyte_len(s)->0;
        lemma_vbyte_len_bounds(s);
        lemma_entries_numbers(s, vbyte_u32(s) as int);
    }
}

/// The integer at the front of `s` alone.
proof fn lemma_vbyte_alone(s: Seq<u8>)
    requires
        vbyte_len(s) is Some,
    ensures
        vbyte_len(s.take(vbyte_len(s)->0)) == vbyte_len(s),
        vbyte_value(s.take(vbyte_len(s)->0)) == vbyte_value(s),
    decreases s.len(),
{
    lemma_vbyte_len_bounds(s);
    let n = vbyte_len(s)->0;
    if s[0] >= 128 {
        lemma_vbyte_alone(s.skip(1));
        lemma_vbyte_len_bounds(s.skip(1));
        assert(s.take(n).skip(1) =~= s.skip(1).take(n - 1));
    }
}

/// A run with another integer behind it.
proof fn lemma_run_grows(s: Seq<u8>, end: int)
    requires
        0 <= end <= s.len(),
        vbyte_stream_ok(s.take(end)),
        vbyte_ok(s.skip(end)),
    ensures
        end < end + vbyte_len(s.skip(end))->0 <= s.len(),
        vbyte_stream_ok(s.take(end + vbyte_len(s.skip(end))->0)),
        vbyte_values(s.take(end + vbyte_len(s.skip(end))->0)) == vbyte_values(s.take(end)).push(
            vbyte_u32(s.skip(end)),
        ),
{
    let rest = s.skip(end);
    let n = vbyte_len(rest)->0;
    lemma_vbyte_len_bounds(rest);
    lemma_vbyte_alone(rest);
    let one = rest.take(n);
    law_vbyte_decode_each(s.take(end), one);
    assert(s.take(end + n) =~= s.take(end) + one);
    assert(vbyte_values(s.take(end)) + seq![vbyte_u32(rest)] =~= vbyte_values(s.take(end)).push(
        vbyte_u32(rest),
    ));
}

proof fn lemma_entries_numbers(s: Seq<u8>, n: int)
    requires
        vbyte_ok(s),
        0 <= n,
    ensures
        parse_entries(s, vbyte_len(s)->0, n) matches Some(p) ==> {
            let numbers = vbyte_values(s.take(p.end));
            &&& 0 <= p.end <= s.len()
            &&& vbyte_stream_ok(s.take(p.end))
            &&& p.ids.len() == n
            &&& p.tfs.len() == n
            &&& numbers.len() == 1 + 2 * n
            &&& numbers[0] == vbyte_u32(s)
            &&& forall|i: int|
                0 <= i < n ==> (#[trigger] p.ids[i]) - (if i == 0 {
                    0
                } else {
                    p.ids[i - 1] as int
                }) == numbers[1 + 2 * i]
            &&& forall|i: int| 0 <= i < n ==> (#[trigger] p.tfs[i]) == numbers[2 + 2 * i]
        },
    decreases n,
{
    let start = vbyte_len(s)->0;
    lemma_vbyte_len_bounds(s);
    if n == 0 {
        assert(s.take(0) =~= Seq::<u8>::empty());
        assert(s.skip(0) =~= s);
        lemma_run_grows(s, 0);
    } else {
        lemma_entries_numbers(s, n - 1);
        if let Some(q) = parse_entries(s, start, n) {
            let p = parse_entries(s, start, n - 1)->0;
            let rest = s.skip(p.end);
            let behind = rest.skip(vbyte_len(rest)->0);
            lemma_vbyte_len_bounds(rest);
            let mid = p.end + vbyte_len(rest)->0;
            assert(behind =~= s.skip(mid));
            lemma_run_grows(s, p.end);
            lemma_run_grows(s, mid);
            let numbers = vbyte_values(s.take(q.end));
            let before = vbyte_values(s.take(p.end));
            assert(numbers == before.push(vbyte_u32(rest)).push(vbyte_u32(behind)));
            assert forall|i: int| 0 <= i < n implies (#[trigger] q.ids[i]) - (if i == 0 {
                0
            } else {
                q.ids[i - 1] as int
            }) == numbers[1 + 2 * i] by {
                if i < n - 1 {
                    assert(q.ids[i] == p.ids[i]);
                    assert(numbers[1 + 2 * i] == before[1 + 2 * i]);
                }
            }
            assert forall|i: int| 0 <= i < n implies (#[trigger] q.tfs[i]) == numbers[2 + 2 * i] by {
                if i < n - 1 {
                    assert(q.tfs[i] == p.tfs[i]);
                    assert(numbers[2 + 2 * i] == before[2 + 2 * i]);
                }
            }
        }
    }
}

/// Where a list can be written: its documents do not descend.
pub proof fn law_ascending(ids: Seq<u32>)
    ensures
        ascending(ids) <==> forall|i: int, j: int| 0 <= i < j < ids.len() ==> ids[i] <= ids[j],
{
}

} // verus!
