//! Little-endian integers and runs of byte strings: what the files of a segment and the log are
//! made of.
use vstd::prelude::*;
use vstd::arithmetic::power::{lemma_pow0, lemma_pow_positive, pow};
use vstd::arithmetic::div_mod::lemma_div_denominator;
use vstd::arithmetic::div_mod::lemma_fundamental_div_mod_converse;

verus! {

/// The `n` lowest bytes of `v`, least significant first.
pub open spec fn le_bytes(v: nat, n: nat) -> Seq<u8>
    decreases n,
{
    if n == 0 {
        Seq::empty()
    } else {
        seq![(v % 256) as u8] + le_bytes(v / 256, (n - 1) as nat)
    }
}

/// The number whose bytes, least significant first, are `s`.
pub open spec fn le_value(s: Seq<u8>) -> nat
    decreases s.len(),
{
    if s.len() == 0 {
        0
    } else {
        s[0] as nat + 256 * le_value(s.skip(1))
    }
}

/// `256` to the power of `n`: how many values `n` bytes can tell apart.
pub open spec fn byte_range(n: nat) -> nat
    decreases n,
{
    if n == 0 {
        1
    } else {
        256 * byte_range((n - 1) as nat)
    }
}

pub proof fn lemma_byte_ranges()
    ensures
        byte_range(1) == 0x100,
        byte_range(2) == 0x1_0000,
        byte_range(4) == 0x1_0000_0000,
        byte_range(8) == 0x1_0000_0000_0000_0000,
{
    reveal_with_fuel(byte_range, 9);
}

pub proof fn lemma_le_bytes_len(v: nat, n: nat)
    ensures
        le_bytes(v, n).len() == n,
    decreases n,
{
    if n > 0 {
        lemma_le_bytes_len(v / 256, (n - 1) as nat);
    }
}

/// Reading little-endian bytes gives back the number that was written.
pub proof fn law_le_roundtrip(v: nat, n: nat)
    requires
        v < byte_range(n),
    ensures
        le_value(le_bytes(v, n)) == v,
        le_bytes(v, n).len() == n,
    decreases n,
{
    lemma_le_bytes_len(v, n);
    if n > 0 {
        law_le_roundtrip(v / 256, (n - 1) as nat);
        assert(le_bytes(v, n).skip(1) =~= le_bytes(v / 256, (n - 1) as nat));
    }
}

pub proof fn lemma_le_value_range(s: Seq<u8>)
    ensures
        le_value(s) < byte_range(s.len()),
    decreases s.len(),
{
    if s.len() > 0 {
        lemma_le_value_range(s.skip(1));
    }
}

/// Writing back a number that was read gives its bytes.
pub proof fn law_le_rewrite(s: Seq<u8>)
    ensures
        le_bytes(le_value(s), s.len()) == s,
    decreases s.len(),
{
    if s.len() == 0 {
        assert(le_bytes(0, 0) =~= s);
    } else {
        let hi = le_value(s.skip(1));
        law_le_rewrite(s.skip(1));
        lemma_fundamental_div_mod_converse(le_value(s) as int, 256, hi as int, s[0] as int);
        assert(seq![s[0]] + s.skip(1) =~= s);
    }
}

/// Appends the `n` lowest bytes of `v` to `out`.
pub fn put_le(v: u64, n: usize, out: &mut Vec<u8>)
    ensures
        final(out)@ == old(out)@ + le_bytes(v as nat, n as nat),
{
    let ghost start = out@;
    let mut rest: u64 = v;
    let mut i: usize = 0;
    assert(out@ + le_bytes(rest as nat, (n - i) as nat) =~= start + le_bytes(v as nat, n as nat));
    while i < n
        invariant
            i <= n,
            out@ + le_bytes(rest as nat, (n - i) as nat) == start + le_bytes(v as nat, n as nat),
        decreases n - i,
    {
        let ghost before = out@;
        let ghost later = le_bytes((rest / 256) as nat, (n - i - 1) as nat);
        let byte: u8 = (rest % 256) as u8;
        out.push(byte);
        assert(before + (seq![byte] + later) =~= out@ + later);
        rest = rest / 256;
        i += 1;
    }
    assert(out@ + le_bytes(rest as nat, 0) =~= out@);
}

/// Reads the `n` bytes of `data` from position `at` on.
pub fn get_le(data: &[u8], at: usize, n: usize) -> (v: u64)
    requires
        n <= 8,
        at + n <= data@.len(),
    ensures
        v == le_value(data@.subrange(at as int, at + n)),
        v < byte_range(n as nat),
{
    let mut v: u64 = 0;
    let mut i: usize = n;
    assert(data@.subrange(at + n, at + n).len() == 0);
    while i > 0
        invariant
            i <= n <= 8,
            at + n <= data.len(),
            v == le_value(data@.subrange(at + i, at + n)),
        decreases i,
    {
        let ghost seen = data@.subrange(at + i, at + n);
        let ghost next = data@.subrange(at + i - 1, at + n);
        proof {
            lemma_le_value_range(seen);
            lemma_le_value_range(next);
            assert(next.skip(1) =~= seen);
            lemma_range_monotone(next.len(), 8);
            lemma_byte_ranges();
        }
        v = v * 256 + data[at + i - 1] as u64;
        i -= 1;
    }
    proof {
        lemma_le_value_range(data@.subrange(at as int, at + n));
    }
    v
}

proof fn lemma_range_monotone(a: nat, b: nat)
    requires
        a <= b,
    ensures
        byte_range(a) <= byte_range(b),
    decreases b,
{
    if a < b {
        lemma_range_monotone(a, (b - 1) as nat);
    }
}

// ---------------------------------------------------------------------------------------------
// Runs of byte strings
// ---------------------------------------------------------------------------------------------

/// The `chunks`, one after the other.
pub open spec fn concat(chunks: Seq<Seq<u8>>) -> Seq<u8>
    decreases chunks.len(),
{
    if chunks.len() == 0 {
        Seq::empty()
    } else {
        concat(chunks.drop_last()) + chunks.last()
    }
}

pub proof fn lemma_concat_push(chunks: Seq<Seq<u8>>, chunk: Seq<u8>)
    ensures
        concat(chunks.push(chunk)) == concat(chunks) + chunk,
{
    assert(chunks.push(chunk).drop_last() =~= chunks);
}

pub proof fn lemma_concat_add(a: Seq<Seq<u8>>, b: Seq<Seq<u8>>)
    ensures
        concat(a + b) == concat(a) + concat(b),
    decreases b.len(),
{
    if b.len() == 0 {
        assert(a + b =~= a);
        assert(concat(a) + concat(b) =~= concat(a));
    } else {
        lemma_concat_add(a, b.drop_last());
        assert((a + b).drop_last() =~= a + b.drop_last());
        assert(concat(a + b) =~= concat(a) + concat(b));
    }
}

/// Where chunk `i` lies in the run.
pub proof fn lemma_concat_at(chunks: Seq<Seq<u8>>, i: int)
    requires
        0 <= i < chunks.len(),
    ensures
        concat(chunks) == concat(chunks.take(i)) + chunks[i] + concat(chunks.skip(i + 1)),
{
    let a = chunks.take(i);
    let b = seq![chunks[i]];
    let c = chunks.skip(i + 1);
    lemma_concat_add(a + b, c);
    lemma_concat_push(a, chunks[i]);
    assert(a + b =~= a.push(chunks[i]));
    assert(a + b + c =~= chunks);
}

/// Every chunk is `size` bytes long.
pub open spec fn uniform(chunks: Seq<Seq<u8>>, size: int) -> bool {
    forall|i: int| 0 <= i < chunks.len() ==> (#[trigger] chunks[i]).len() == size
}

pub proof fn lemma_uniform_len(chunks: Seq<Seq<u8>>, size: int)
    requires
        uniform(chunks, size),
    ensures
        concat(chunks).len() == size * chunks.len(),
    decreases chunks.len(),
{
    if chunks.len() > 0 {
        assert(uniform(chunks.drop_last(), size)) by {
            assert forall|i: int| 0 <= i < chunks.drop_last().len() implies (
            #[trigger] chunks.drop_last()[i]).len() == size by {
                assert(chunks.drop_last()[i] == chunks[i]);
            }
        }
        lemma_uniform_len(chunks.drop_last(), size);
        let n = chunks.len() as int;
        assert(chunks.last() == chunks[n - 1]);
        assert(size * n == size * (n - 1) + size) by (nonlinear_arith);
    } else {
        assert(size * chunks.len() == 0) by (nonlinear_arith)
            requires
                chunks.len() == 0,
        ;
    }
}

/// Records of one size are found by their number.
pub proof fn lemma_uniform_at(chunks: Seq<Seq<u8>>, size: int, i: int)
    requires
        uniform(chunks, size),
        size >= 0,
        0 <= i < chunks.len(),
    ensures
        0 <= size * i,
        size * i + size <= concat(chunks).len(),
        concat(chunks).subrange(size * i, size * i + size) == chunks[i],
{
    lemma_concat_at(chunks, i);
    assert(uniform(chunks.take(i), size));
    lemma_uniform_len(chunks.take(i), size);
    assert(0 <= size * i) by (nonlinear_arith)
        requires
            size >= 0,
            i >= 0,
    ;
    assert(concat(chunks).subrange(size * i, size * i + size) =~= chunks[i]);
}

/// Each of `values` as four bytes.
pub open spec fn le_u32_chunks(values: Seq<u32>) -> Seq<Seq<u8>> {
    values.map_values(|v: u32| le_bytes(v as nat, 4))
}

/// `values`, four bytes each.
pub open spec fn le_u32s(values: Seq<u32>) -> Seq<u8> {
    concat(le_u32_chunks(values))
}

/// A table of 32-bit numbers is read by position.
pub proof fn law_le_u32s_at(values: Seq<u32>, i: int)
    requires
        0 <= i < values.len(),
    ensures
        4 * i + 4 <= le_u32s(values).len(),
        le_value(le_u32s(values).subrange(4 * i, 4 * i + 4)) == values[i],
{
    lemma_le_u32s_uniform(values);
    lemma_uniform_at(le_u32_chunks(values), 4, i);
    lemma_byte_ranges();
    law_le_roundtrip(values[i] as nat, 4);
}

pub proof fn lemma_le_u32s_uniform(values: Seq<u32>)
    ensures
        uniform(le_u32_chunks(values), 4),
        le_u32s(values).len() == 4 * values.len(),
{
    assert forall|i: int| 0 <= i < le_u32_chunks(values).len() implies (#[trigger] le_u32_chunks(
        values,
    )[i]).len() == 4 by {
        lemma_le_bytes_len(values[i] as nat, 4);
    }
    lemma_uniform_len(le_u32_chunks(values), 4);
}

/// Appends each of `values`, four bytes each.
pub fn put_le_u32s(values: &[u32], out: &mut Vec<u8>)
    ensures
        final(out)@ == old(out)@ + le_u32s(values@),
{
    let ghost start = out@;
    let mut i: usize = 0;
    assert(values@.take(0) =~= Seq::empty());
    assert(le_u32_chunks(values@.take(0)) =~= Seq::empty());
    assert(start + le_u32s(values@.take(0)) =~= start);
    while i < values.len()
        invariant
            i <= values@.len(),
            out@ == start + le_u32s(values@.take(i as int)),
        decreases values.len() - i,
    {
        let ghost before = out@;
        put_le(values[i] as u64, 4, out);
        proof {
            let chunk = le_bytes(values@[i as int] as nat, 4);
            let chunks = le_u32_chunks(values@.take(i as int));
            assert(le_u32_chunks(values@.take(i + 1)) =~= chunks.push(chunk));
            lemma_concat_push(chunks, chunk);
            assert(before + chunk =~= start + (concat(chunks) + chunk));
        }
        i += 1;
    }
    assert(values@.take(i as int) =~= values@);
}

/// Appends `bytes` to `out`.
pub fn put_bytes(bytes: &[u8], out: &mut Vec<u8>)
    ensures
        final(out)@ == old(out)@ + bytes@,
{
    out.extend_from_slice(bytes);
    assert(out@ =~= old(out)@ + bytes@);
}

/// Byte `i` of a number is its digit at place `i` of the base 256, and there are `n` of them.
pub proof fn law_le_digits(v: nat, n: nat, i: int)
    requires
        0 <= i < n,
    ensures
        le_bytes(v, n).len() == n,
        le_bytes(v, n)[i] as int == (v as int / pow(256, i as nat)) % 256,
    decreases n,
{
    lemma_le_bytes_len(v, n);
    if i == 0 {
        lemma_pow0(256);
    } else {
        law_le_digits(v / 256, (n - 1) as nat, i - 1);
        lemma_place(256, v as int, i as nat);
    }
}

/// The digit at place `i` of the number that bytes hold is byte `i`, and there are no further
/// digits.
pub proof fn law_le_value_digits(s: Seq<u8>, i: int)
    requires
        0 <= i < s.len(),
    ensures
        (le_value(s) as int / pow(256, i as nat)) % 256 == s[i] as int,
        le_value(s) < pow(256, s.len()),
{
    law_le_rewrite(s);
    law_le_digits(le_value(s), s.len(), i);
    lemma_le_value_range(s);
    law_byte_range(s.len());
}

/// `n` bytes tell 256 to the power of `n` values apart.
pub proof fn law_byte_range(n: nat)
    ensures
        byte_range(n) == pow(256, n),
    decreases n,
{
    if n == 0 {
        lemma_pow0(256);
    } else {
        law_byte_range((n - 1) as nat);
        reveal(pow);
    }
}

/// Dividing by the base once and then by the place below divides by the place.
pub proof fn lemma_place(base: int, v: int, i: nat)
    requires
        base > 0,
        v >= 0,
        i > 0,
    ensures
        v / pow(base, i) == (v / base) / pow(base, (i - 1) as nat),
{
    reveal(pow);
    lemma_pow_positive(base, (i - 1) as nat);
    lemma_div_denominator(v, base, pow(base, (i - 1) as nat));
}

/// Chunks one after the other are the chunks flattened.
pub proof fn law_concat_flattens(chunks: Seq<Seq<u8>>)
    ensures
        concat(chunks) == chunks.flatten(),
    decreases chunks.len(),
{
    chunks.lemma_flatten_and_flatten_alt_are_equivalent();
    if chunks.len() > 0 {
        law_concat_flattens(chunks.drop_last());
        chunks.drop_last().lemma_flatten_and_flatten_alt_are_equivalent();
    }
}

} // verus!
