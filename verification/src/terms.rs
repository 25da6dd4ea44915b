//! Terms as byte strings: their order, and the finite state transducer that maps each term of a
//! segment to where its postings lie.
//!
//! The transducer is the `fst` crate's. What is trusted of it is stated over the entries that a
//! builder, a map or a walk through a map holds, and over what the bytes of a transducer hold.
use vstd::prelude::*;
use crate::le::get_le;
use crate::le::le_value;

verus! {

// ---------------------------------------------------------------------------------------------
// Order
// ---------------------------------------------------------------------------------------------

/// `a` comes before `b`: at the first byte in which they differ it has the smaller one, or it is
/// a proper prefix of `b`.
pub open spec fn bytes_lt(a: Seq<u8>, b: Seq<u8>) -> bool
    decreases a.len(),
{
    if b.len() == 0 {
        false
    } else if a.len() == 0 {
        true
    } else if a[0] != b[0] {
        a[0] < b[0]
    } else {
        bytes_lt(a.skip(1), b.skip(1))
    }
}

pub proof fn lemma_lt_irreflexive(a: Seq<u8>)
    ensures
        !bytes_lt(a, a),
    decreases a.len(),
{
    if a.len() > 0 {
        lemma_lt_irreflexive(a.skip(1));
    }
}

pub proof fn lemma_lt_transitive(a: Seq<u8>, b: Seq<u8>, c: Seq<u8>)
    requires
        bytes_lt(a, b),
        bytes_lt(b, c),
    ensures
        bytes_lt(a, c),
    decreases a.len(),
{
    if a.len() > 0 && b.len() > 0 && c.len() > 0 && a[0] == b[0] && b[0] == c[0] {
        lemma_lt_transitive(a.skip(1), b.skip(1), c.skip(1));
    }
}

pub proof fn lemma_lt_total(a: Seq<u8>, b: Seq<u8>)
    ensures
        bytes_lt(a, b) || a == b || bytes_lt(b, a),
    decreases a.len(),
{
    if a.len() == 0 && b.len() == 0 {
        assert(a =~= b);
    } else if a.len() > 0 && b.len() > 0 && a[0] == b[0] {
        lemma_lt_total(a.skip(1), b.skip(1));
        if a.skip(1) == b.skip(1) {
            assert(a =~= seq![a[0]] + a.skip(1));
            assert(b =~= seq![b[0]] + b.skip(1));
        }
    }
}

/// How one byte string stands to another.
pub enum Relation {
    Before,
    Same,
    After,
}

/// Compares two byte strings.
pub fn relate(a: &[u8], b: &[u8]) -> (r: Relation)
    ensures
        r is Before <==> bytes_lt(a@, b@),
        r is Same <==> a@ == b@,
        r is After <==> bytes_lt(b@, a@),
{
    let mut i: usize = 0;
    proof {
        assert(a@.skip(0) =~= a@);
        assert(b@.skip(0) =~= b@);
        lemma_lt_total(a@, b@);
        lemma_lt_irreflexive(a@);
        lemma_lt_irreflexive(b@);
        if bytes_lt(a@, b@) && bytes_lt(b@, a@) {
            lemma_lt_transitive(a@, b@, a@);
        }
    }
    while i < a.len() && i < b.len()
        invariant
            i <= a@.len(),
            i <= b@.len(),
            bytes_lt(a@, b@) || a@ == b@ || bytes_lt(b@, a@),
            !(bytes_lt(a@, b@) && bytes_lt(b@, a@)),
            a@ == b@ ==> !bytes_lt(a@, b@) && !bytes_lt(b@, a@),
            bytes_lt(a@, b@) == bytes_lt(a@.skip(i as int), b@.skip(i as int)),
            bytes_lt(b@, a@) == bytes_lt(b@.skip(i as int), a@.skip(i as int)),
        decreases a.len() - i,
    {
        proof {
            assert(a@.skip(i as int).skip(1) =~= a@.skip(i + 1));
            assert(b@.skip(i as int).skip(1) =~= b@.skip(i + 1));
        }
        if a[i] < b[i] {
            return Relation::Before;
        }
        if b[i] < a[i] {
            return Relation::After;
        }
        i += 1;
    }
    if a.len() < b.len() {
        Relation::Before
    } else if b.len() < a.len() {
        Relation::After
    } else {
        Relation::Same
    }
}

/// Each key comes before those behind it.
pub open spec fn keys_ascending(entries: Seq<(Seq<u8>, u64)>) -> bool {
    forall|i: int, j: int|
        0 <= i < j < entries.len() ==> bytes_lt(#[trigger] entries[i].0, #[trigger] entries[j].0)
}

/// `key` is one of the keys.
pub open spec fn has_key(entries: Seq<(Seq<u8>, u64)>, key: Seq<u8>) -> bool {
    exists|i: int| 0 <= i < entries.len() && (#[trigger] entries[i]).0 == key
}

/// The value that `key` has, if it is one of the keys.
pub open spec fn value_of(entries: Seq<(Seq<u8>, u64)>, key: Seq<u8>) -> Option<u64> {
    if has_key(entries, key) {
        let i = choose|i: int| 0 <= i < entries.len() && (#[trigger] entries[i]).0 == key;
        Some(entries[i].1)
    } else {
        None
    }
}

/// Among ascending keys each occurs once, so its value is the one it stands beside.
pub proof fn lemma_value_at(entries: Seq<(Seq<u8>, u64)>, i: int)
    requires
        keys_ascending(entries),
        0 <= i < entries.len(),
    ensures
        value_of(entries, entries[i].0) == Some(entries[i].1),
{
    let key = entries[i].0;
    let j = choose|j: int| 0 <= j < entries.len() && (#[trigger] entries[j]).0 == key;
    assert(entries[i].0 == key);
    assert(0 <= j < entries.len() && entries[j].0 == key);
    lemma_lt_irreflexive(key);
    if i < j {
        assert(bytes_lt(entries[i].0, entries[j].0));
    } else if j < i {
        assert(bytes_lt(entries[j].0, entries[i].0));
    }
}

// ---------------------------------------------------------------------------------------------
// The transducer
// ---------------------------------------------------------------------------------------------

#[verifier::external_type_specification]
#[verifier::external_body]
#[verifier::reject_recursive_types(D)]
pub struct ExMap<D>(fst::Map<D>);

#[verifier::external_type_specification]
#[verifier::external_body]
#[verifier::reject_recursive_types(W)]
pub struct ExMapBuilder<W>(fst::MapBuilder<W>);

#[verifier::external_type_specification]
#[verifier::external_body]
pub struct ExError(fst::Error);

/// The keys and values that were inserted into a builder, in the order of their insertion.
pub uninterp spec fn builder_entries(builder: fst::MapBuilder<Vec<u8>>) -> Seq<(Seq<u8>, u64)>;

/// The entries of the transducer that `bytes` hold, where a builder wrote them.
pub uninterp spec fn fst_content(bytes: Seq<u8>) -> Option<Seq<(Seq<u8>, u64)>>;

/// The entries that a map holds, where its bytes were written by a builder.
pub uninterp spec fn map_entries(map: fst::Map<&[u8]>) -> Option<Seq<(Seq<u8>, u64)>>;

/// Version number at the front of a serialised transducer.
pub open spec fn fst_version(bytes: Seq<u8>) -> int {
    le_value(bytes.subrange(0, 8)) as int
}

/// Where the trailing numbers of a serialised transducer end: before the checksum that the
/// newest version has.
pub open spec fn fst_end(bytes: Seq<u8>) -> int {
    if fst_version(bytes) <= 2 {
        bytes.len() as int
    } else {
        bytes.len() - 4
    }
}

/// Address of the root node.
pub open spec fn fst_root(bytes: Seq<u8>) -> int {
    le_value(bytes.subrange(fst_end(bytes) - 8, fst_end(bytes))) as int
}

/// Number of keys.
pub open spec fn fst_key_count(bytes: Seq<u8>) -> int {
    le_value(bytes.subrange(fst_end(bytes) - 16, fst_end(bytes) - 8)) as int
}

/// Long enough, and of a version that can be read.
pub open spec fn fst_versioned(bytes: Seq<u8>) -> bool {
    36 <= bytes.len() && 1 <= fst_version(bytes) <= 3
}

/// Whether the frame of a serialised transducer is in order: its length, its version, and an
/// empty root only where there is nothing else.
pub open spec fn fst_framed(bytes: Seq<u8>) -> bool {
    fst_versioned(bytes) && (fst_root(bytes) == 0 ==> fst_version(bytes) == 3 && bytes.len() == 36)
}

/// The trailing numbers are addresses on this machine.
pub open spec fn fst_fits(bytes: Seq<u8>) -> bool {
    fst_versioned(bytes) ==> fst_root(bytes) <= usize::MAX && fst_key_count(bytes) <= usize::MAX
}

/// Calls `fst::MapBuilder::memory`: a builder without entries.
#[verifier::external_body]
pub(crate) fn builder_new() -> (builder: fst::MapBuilder<Vec<u8>>)
    ensures
        builder_entries(builder) == Seq::<(Seq<u8>, u64)>::empty(),
{
    fst::MapBuilder::memory()
}

/// Calls `fst::MapBuilder::insert`. A key is taken exactly where it comes behind the last one;
/// one that is not taken leaves the entries as they were. (Writing to memory does not fail.)
#[verifier::external_body]
pub(crate) fn builder_insert(builder: &mut fst::MapBuilder<Vec<u8>>, key: &[u8], value: u64) -> (r:
    Result<(), fst::Error>)
    ensures
        r is Ok <==> (builder_entries(*old(builder)).len() == 0 || bytes_lt(
            builder_entries(*old(builder)).last().0,
            key@,
        )),
        r is Ok ==> builder_entries(*final(builder)) == builder_entries(*old(builder)).push(
            (key@, value),
        ),
        r is Err ==> builder_entries(*final(builder)) == builder_entries(*old(builder)),
{
    builder.insert(key, value)
}

/// Calls `fst::MapBuilder::into_inner`, which returns the bytes of the transducer. Their frame is in
/// order, and reading them gives the entries back. (Writing to memory does not fail.) Which bytes
/// they are is left open: how much the builder shares between keys depends on the word size of the
/// machine.
#[verifier::external_body]
pub(crate) fn builder_finish(builder: fst::MapBuilder<Vec<u8>>) -> (r: Result<Vec<u8>, fst::Error>)
    ensures
        r is Ok,
        fst_content(r->Ok_0@) == Some(builder_entries(builder)),
        fst_framed(r->Ok_0@),
        fst_fits(r->Ok_0@),
{
    builder.into_inner()
}

/// Calls `fst::Map::new`, which looks at the frame of the bytes and at nothing else. The map
/// holds what the bytes hold; where a builder wrote them, that is in ascending order.
#[verifier::external_body]
fn map_new<'a>(bytes: &'a [u8]) -> (r: Result<fst::Map<&'a [u8]>, fst::Error>)
    requires
        fst_fits(bytes@),
    ensures
        r is Ok <==> fst_framed(bytes@),
        r matches Ok(map) ==> {
            &&& map_entries(map) == fst_content(bytes@)
            &&& map_entries(map) matches Some(entries) ==> keys_ascending(entries)
        },
{
    fst::Map::new(bytes)
}

/// Calls `fst::Map::get`: the value of a key, if the map has it.
#[verifier::external_body]
pub(crate) fn map_get(map: &fst::Map<&[u8]>, key: &[u8]) -> (r: Option<u64>)
    requires
        map_entries(*map) is Some,
    ensures
        r == value_of(map_entries(*map)->0, key@),
{
    map.get(key)
}

/// A walk through the entries of a map, in the order of the keys.
#[verifier::external_body]
pub struct TermStream<'m> {
    inner: fst::map::Stream<'m>,
}

/// The entries that a walk has not come to yet.
pub uninterp spec fn stream_rest(stream: TermStream<'_>) -> Seq<(Seq<u8>, u64)>;

/// Calls `fst::Map::stream`: a walk through all entries of the map.
#[verifier::external_body]
pub(crate) fn map_stream<'m>(map: &'m fst::Map<&[u8]>) -> (stream: TermStream<'m>)
    requires
        map_entries(*map) is Some,
    ensures
        stream_rest(stream) == map_entries(*map)->0,
{
    TermStream { inner: map.stream() }
}

/// Calls `fst::Streamer::next`: the next entry of a walk, until none is left.
#[verifier::external_body]
pub(crate) fn stream_next<'m>(stream: &mut TermStream<'m>) -> (r: Option<(Vec<u8>, u64)>)
    ensures
        r is Some <==> stream_rest(*old(stream)).len() > 0,
        r matches Some(entry) ==> {
            &&& (entry.0@, entry.1) == stream_rest(*old(stream))[0]
            &&& stream_rest(*final(stream)) == stream_rest(*old(stream)).skip(1)
        },
        r is None ==> stream_rest(*final(stream)) == stream_rest(*old(stream)),
{
    fst::Streamer::next(&mut stream.inner).map(|entry| (entry.0.to_vec(), entry.1))
}

/// Whether the trailing numbers of a serialised transducer are addresses on this machine.
fn fits_machine(bytes: &[u8]) -> (r: bool)
    ensures
        r == fst_fits(bytes@),
{
    if bytes.len() < 36 {
        return true;
    }
    let version: u64 = get_le(bytes, 0, 8);
    if version < 1 || version > 3 {
        return true;
    }
    let end: usize = if version <= 2 {
        bytes.len()
    } else {
        bytes.len() - 4
    };
    let root: u64 = get_le(bytes, end - 8, 8);
    let keys: u64 = get_le(bytes, end - 16, 8);
    root <= usize::MAX as u64 && keys <= usize::MAX as u64
}

/// Opens a serialised transducer. `None` where its frame is not in order.
pub fn open_terms<'a>(bytes: &'a [u8]) -> (r: Option<fst::Map<&'a [u8]>>)
    ensures
        r is Some <==> fst_framed(bytes@) && fst_fits(bytes@),
        r matches Some(map) ==> {
            &&& map_entries(map) == fst_content(bytes@)
            &&& map_entries(map) matches Some(entries) ==> keys_ascending(entries)
        },
{
    if !fits_machine(bytes) {
        return None;
    }
    match map_new(bytes) {
        Ok(map) => Some(map),
        Err(_) => None,
    }
}

/// The order of byte strings: one comes before another where, behind what they have in common at
/// the front, it ends or has the smaller byte.
pub proof fn law_order_of_terms(a: Seq<u8>, b: Seq<u8>)
    ensures
        bytes_lt(a, b) <==> exists|n: int|
            {
                &&& 0 <= n <= a.len()
                &&& n < b.len()
                &&& #[trigger] a.take(n) == b.take(n)
                &&& n == a.len() || a[n] < b[n]
            },
    decreases a.len(),
{
    if a.len() > 0 && b.len() > 0 && a[0] == b[0] {
        let (x, y) = (a.skip(1), b.skip(1));
        law_order_of_terms(x, y);
        if bytes_lt(a, b) {
            let n = choose|n: int|
                {
                    &&& 0 <= n <= x.len()
                    &&& n < y.len()
                    &&& #[trigger] x.take(n) == y.take(n)
                    &&& n == x.len() || x[n] < y[n]
                };
            assert(a.take(n + 1) =~= seq![a[0]] + x.take(n));
            assert(b.take(n + 1) =~= seq![b[0]] + y.take(n));
            assert(a.take(n + 1) == b.take(n + 1));
        }
        assert forall|n: int|
            {
                &&& 0 <= n <= a.len()
                &&& n < b.len()
                &&& #[trigger] a.take(n) == b.take(n)
                &&& n == a.len() || a[n] < b[n]
            } implies bytes_lt(a, b) by {
            assert(n > 0);
            assert(x.take(n - 1) =~= a.take(n).skip(1));
            assert(y.take(n - 1) =~= b.take(n).skip(1));
            assert(x.take(n - 1) == y.take(n - 1));
        }
    } else {
        if bytes_lt(a, b) {
            assert(a.take(0) =~= b.take(0));
        }
        assert forall|n: int|
            {
                &&& 0 <= n <= a.len()
                &&& n < b.len()
                &&& #[trigger] a.take(n) == b.take(n)
                &&& n == a.len() || a[n] < b[n]
            } implies bytes_lt(a, b) by {
            if n > 0 {
                assert(a.take(n)[0] == b.take(n)[0]);
            }
        }
    }
}

/// The value of a key stands beside it, and a key that does not stand there has none.
pub proof fn law_value_of_a_key(entries: Seq<(Seq<u8>, u64)>, key: Seq<u8>)
    ensures
        (forall|i: int| 0 <= i < entries.len() ==> (#[trigger] entries[i]).0 != key) ==> value_of(
            entries,
            key,
        ) is None,
        forall|i: int|
            0 <= i < entries.len() && (#[trigger] entries[i]).0 == key && (forall|j: int|
                0 <= j < entries.len() && j != i ==> (#[trigger] entries[j]).0 != key)
                ==> value_of(entries, key) == Some(entries[i].1),
{
}

/// Keys ascend where each comes before the next ones, and only there.
pub proof fn law_keys_ascend(entries: Seq<(Seq<u8>, u64)>)
    ensures
        keys_ascending(entries) <==> forall|i: int, j: int|
            0 <= i < j < entries.len() ==> bytes_lt(#[trigger] entries[i].0, #[trigger] entries[j].0),
{
}

/// What can be opened as a term file: at least 36 bytes of a version from 1 to 3, and an empty root
/// only where there is nothing else; and the numbers at its end must be addresses on this machine.
pub proof fn law_term_file(bytes: Seq<u8>)
    requires
        36 <= bytes.len(),
    ensures
        ({
            let version = le_value(bytes.subrange(0, 8)) as int;
            let end = if version <= 2 {
                bytes.len() as int
            } else {
                bytes.len() - 4
            };
            let root = le_value(bytes.subrange(end - 8, end)) as int;
            let keys = le_value(bytes.subrange(end - 16, end - 8)) as int;
            &&& fst_framed(bytes) <==> 1 <= version <= 3 && (root == 0 ==> version == 3
                && bytes.len() == 36)
            &&& 1 <= version <= 3 ==> (fst_fits(bytes) <==> root <= usize::MAX && keys
                <= usize::MAX)
        }),
{
}

/// What is shorter than a term file is none.
pub proof fn law_short_term_file(bytes: Seq<u8>)
    requires
        bytes.len() < 36,
    ensures
        !fst_framed(bytes),
{
}

} // verus!
