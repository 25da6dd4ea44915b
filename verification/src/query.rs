//! The words of a query.
use vstd::prelude::*;
use vstd::utf8::encode_utf8;

verus! {

/// The character separates words: it has the Unicode property `White_Space`.
pub open spec fn is_space(c: char) -> bool {
    let n = c as u32;
    ||| 0x09 <= n <= 0x0D
    ||| n == 0x20
    ||| n == 0x85
    ||| n == 0xA0
    ||| n == 0x1680
    ||| 0x2000 <= n <= 0x200A
    ||| n == 0x2028
    ||| n == 0x2029
    ||| n == 0x202F
    ||| n == 0x205F
    ||| n == 0x3000
}

/// All characters separate words.
pub open spec fn all_space(s: Seq<char>) -> bool {
    forall|i: int| 0 <= i < s.len() ==> is_space(#[trigger] s[i])
}

/// No character separates words.
pub open spec fn no_space(s: Seq<char>) -> bool {
    forall|i: int| 0 <= i < s.len() ==> !is_space(#[trigger] s[i])
}

/// Number of characters before the first that separates words.
pub open spec fn word_len(s: Seq<char>) -> nat
    decreases s.len(),
{
    if s.len() == 0 || is_space(s[0]) {
        0
    } else {
        1 + word_len(s.skip(1))
    }
}

/// The words of a text, in order.
pub open spec fn words_of(s: Seq<char>) -> Seq<Seq<char>>
    decreases s.len(),
{
    if s.len() == 0 {
        Seq::empty()
    } else if is_space(s[0]) {
        words_of(s.skip(1))
    } else {
        proof {
            lemma_word_end(s);
        }
        seq![s.take(word_len(s) as int)] + words_of(s.skip(word_len(s) as int))
    }
}

/// The words of a text as bytes.
pub open spec fn query_words(s: Seq<char>) -> Seq<Seq<u8>> {
    words_of(s).map_values(|w: Seq<char>| encode_utf8(w))
}

/// The contents of strings.
pub open spec fn contents(words: Seq<String>) -> Seq<Seq<char>> {
    words.map_values(|w: String| w@)
}

/// Whether a character separates words.
fn separates(c: char) -> (r: bool)
    ensures
        r == is_space(c),
{
    let n: u32 = c as u32;
    (0x09 <= n && n <= 0x0D) || n == 0x20 || n == 0x85 || n == 0xA0 || n == 0x1680 || (0x2000 <= n
        && n <= 0x200A) || n == 0x2028 || n == 0x2029 || n == 0x202F || n == 0x205F || n == 0x3000
}

/// The word at the start of a text ends at the first character that separates words.
proof fn lemma_word_len(s: Seq<char>, n: int)
    requires
        0 <= n <= s.len(),
        no_space(s.take(n)),
        n == s.len() || is_space(s[n]),
    ensures
        word_len(s) == n,
    decreases n,
{
    if n > 0 {
        assert(!is_space(s.take(n)[0]));
        let rest = s.skip(1);
        assert forall|i: int| 0 <= i < n - 1 implies !is_space(#[trigger] rest.take(n - 1)[i]) by {
            assert(rest.take(n - 1)[i] == s.take(n)[i + 1]);
        }
        lemma_word_len(rest, n - 1);
    }
}

/// The word at the start of a text is at most all of it, and ends before white space.
pub proof fn lemma_word_end(s: Seq<char>)
    ensures
        word_len(s) <= s.len(),
        no_space(s.take(word_len(s) as int)),
        word_len(s) == s.len() || is_space(s[word_len(s) as int]),
    decreases s.len(),
{
    if s.len() > 0 && !is_space(s[0]) {
        lemma_word_end(s.skip(1));
        let n = word_len(s) as int;
        assert forall|i: int| 0 <= i < n implies !is_space(#[trigger] s.take(n)[i]) by {
            if i > 0 {
                assert(s.take(n)[i] == s.skip(1).take(n - 1)[i - 1]);
            }
        }
    }
}

/// Splits a query into its words.
pub fn split_words(q: &str) -> (words: Vec<String>)
    ensures
        contents(words@) == words_of(q@),
{
    let mut words: Vec<String> = Vec::new();
    // Where the word starts that has not ended yet.
    let mut start: usize = 0;
    let len: usize = q.unicode_len();
    let mut i: usize = 0;
    assert(q@.skip(0) =~= q@);
    assert(contents(words@) + words_of(q@) =~= words_of(q@));
    for c in it: q.chars()
        invariant
            it.seq() == q@,
            i == it.index(),
            len == q@.len(),
            start <= i <= len,
            no_space(q@.subrange(start as int, i as int)),
            words_of(q@) == contents(words@) + words_of(q@.skip(start as int)),
    {
        let ghost rest = q@.skip(start as int);
        let ghost before = contents(words@);
        assert(c == q@[i as int]);
        if separates(c) {
            if start < i {
                proof {
                    assert(rest.take(i - start) =~= q@.subrange(start as int, i as int));
                    lemma_word_len(rest, i - start);
                    assert(!is_space(q@.subrange(start as int, i as int)[0]));
                    assert(rest.skip(i - start) =~= q@.skip(i as int));
                }
                words.push(q.substring_char(start, i).to_owned());
                proof {
                    let word = q@.subrange(start as int, i as int);
                    assert(contents(words@) =~= before.push(word));
                    assert(before + (seq![word] + words_of(q@.skip(i as int))) =~= contents(words@)
                        + words_of(q@.skip(i as int)));
                }
            }
            assert(q@.skip(i as int).skip(1) =~= q@.skip(i + 1));
            start = i + 1;
        }
        proof {
            let word = q@.subrange(start as int, i + 1);
            assert forall|j: int| 0 <= j < word.len() implies !is_space(#[trigger] word[j]) by {
                if start + j < i {
                    assert(word[j] == q@.subrange(start as int, i as int)[j]);
                }
            }
        }
        i = i + 1;
    }
    let ghost rest = q@.skip(start as int);
    let ghost before = contents(words@);
    if start < len {
        proof {
            assert(rest.take(len - start) =~= q@.subrange(start as int, len as int));
            lemma_word_len(rest, len - start);
            assert(!is_space(q@.subrange(start as int, len as int)[0]));
        }
        words.push(q.substring_char(start, len).to_owned());
        proof {
            let word = q@.subrange(start as int, len as int);
            assert(contents(words@) =~= before.push(word));
            assert(words_of(rest.skip(len - start)) =~= Seq::empty());
            assert(words_of(rest) =~= seq![word]);
            assert(words_of(q@) =~= contents(words@));
        }
    } else {
        assert(words_of(rest) =~= Seq::empty());
        assert(words_of(q@) =~= contents(words@));
    }
    words
}

/// Words are not empty, and nothing in them separates words.
pub proof fn law_words_are_whole(s: Seq<char>, i: int)
    requires
        0 <= i < words_of(s).len(),
    ensures
        words_of(s)[i].len() > 0,
        no_space(words_of(s)[i]),
    decreases s.len(),
{
    if is_space(s[0]) {
        law_words_are_whole(s.skip(1), i);
    } else {
        lemma_word_end(s);
        let n = word_len(s) as int;
        if i > 0 {
            law_words_are_whole(s.skip(n), i - 1);
        }
    }
}

/// Where a word cannot go on, the words before and behind stand for themselves.
proof fn lemma_words_concat(a: Seq<char>, b: Seq<char>)
    requires
        b.len() == 0 || is_space(b[0]),
    ensures
        words_of(a + b) == words_of(a) + words_of(b),
    decreases a.len(),
{
    let all = a + b;
    if a.len() == 0 {
        assert(all =~= b);
        assert(words_of(a) + words_of(b) =~= words_of(b));
    } else if is_space(a[0]) {
        assert(all.skip(1) =~= a.skip(1) + b);
        lemma_words_concat(a.skip(1), b);
    } else {
        lemma_word_end(a);
        let n = word_len(a) as int;
        assert(all.take(n) =~= a.take(n));
        assert(n == all.len() || is_space(all[n]));
        lemma_word_len(all, n);
        assert(all.skip(n) =~= a.skip(n) + b);
        lemma_words_concat(a.skip(n), b);
        assert(words_of(all) =~= words_of(a) + words_of(b));
    }
}

/// What separates words in front of a text adds no word.
proof fn lemma_space_in_front(space: Seq<char>, s: Seq<char>)
    requires
        all_space(space),
    ensures
        words_of(space + s) == words_of(s),
    decreases space.len(),
{
    if space.len() == 0 {
        assert(space + s =~= s);
    } else {
        let less = space.skip(1);
        assert((space + s).skip(1) =~= less + s);
        assert forall|i: int| 0 <= i < less.len() implies is_space(#[trigger] less[i]) by {
            assert(less[i] == space[i + 1]);
        }
        lemma_space_in_front(less, s);
    }
}

/// Two texts with white space between them have the words of the one and then those of the other,
/// whatever white space it is and however much.
pub proof fn law_space_only_separates(a: Seq<char>, space: Seq<char>, b: Seq<char>)
    requires
        space.len() > 0,
        all_space(space),
    ensures
        words_of(a + space + b) == words_of(a) + words_of(b),
{
    assert(a + space + b =~= a + (space + b));
    lemma_words_concat(a, space + b);
    lemma_space_in_front(space, b);
}

/// White space around a query changes nothing.
pub proof fn law_space_around(before: Seq<char>, q: Seq<char>, after: Seq<char>)
    requires
        all_space(before),
        all_space(after),
    ensures
        words_of(before + q + after) == words_of(q),
{
    lemma_words_concat(before + q, after);
    lemma_space_in_front(before, q);
    law_blank_query(after);
    assert(words_of(q) + words_of(after) =~= words_of(q));
}

/// A query of white space alone has no words.
pub proof fn law_blank_query(s: Seq<char>)
    requires
        all_space(s),
    ensures
        words_of(s) == Seq::<Seq<char>>::empty(),
{
    lemma_space_in_front(s, Seq::empty());
    assert(s + Seq::empty() =~= s);
}

/// A text that is not empty and has no white space is one word, itself.
pub proof fn law_one_word(s: Seq<char>)
    requires
        s.len() > 0,
        no_space(s),
    ensures
        words_of(s) == seq![s],
{
    assert(s.take(s.len() as int) =~= s);
    lemma_word_len(s, s.len() as int);
    assert(s.skip(s.len() as int) =~= Seq::<char>::empty());
    assert(words_of(s.skip(s.len() as int)) =~= Seq::empty());
    assert(words_of(s) =~= seq![s]);
}

/// What is looked up for a query are the bytes of its words.
pub proof fn law_query_words(s: Seq<char>)
    ensures
        query_words(s).len() == words_of(s).len(),
        forall|i: int|
            0 <= i < words_of(s).len() ==> #[trigger] query_words(s)[i] == encode_utf8(
                words_of(s)[i],
            ),
{
}

/// The contents of strings, one by one.
pub proof fn law_contents(words: Seq<String>)
    ensures
        contents(words).len() == words.len(),
        forall|i: int| 0 <= i < words.len() ==> #[trigger] contents(words)[i] == words[i]@,
{
}

/// White space are the characters of the Unicode property `White_Space`, and a text of them alone,
/// or of none, is one where each character is such a one, or none is.
pub proof fn law_white_space(c: char, s: Seq<char>)
    ensures
        is_space(c) <==> seq![
            '\u{9}',
            '\u{a}',
            '\u{b}',
            '\u{c}',
            '\u{d}',
            ' ',
            '\u{85}',
            '\u{a0}',
            '\u{1680}',
            '\u{2000}',
            '\u{2001}',
            '\u{2002}',
            '\u{2003}',
            '\u{2004}',
            '\u{2005}',
            '\u{2006}',
            '\u{2007}',
            '\u{2008}',
            '\u{2009}',
            '\u{200a}',
            '\u{2028}',
            '\u{2029}',
            '\u{202f}',
            '\u{205f}',
            '\u{3000}',
        ].contains(c),
        all_space(s) <==> forall|i: int| 0 <= i < s.len() ==> is_space(#[trigger] s[i]),
        no_space(s) <==> forall|i: int| 0 <= i < s.len() ==> !is_space(#[trigger] s[i]),
{
}

} // verus!
