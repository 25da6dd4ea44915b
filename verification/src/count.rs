//! Counting the numbers that have a property.
use vstd::prelude::*;

verus! {

/// How many numbers below `n` have the property.
pub open spec fn count_below(p: spec_fn(u32) -> bool, n: int) -> nat
    decreases n,
{
    if n <= 0 {
        0
    } else {
        count_below(p, n - 1) + if p((n - 1) as u32) {
            1nat
        } else {
            0
        }
    }
}

/// How many 32-bit numbers have the property.
pub open spec fn count_all(p: spec_fn(u32) -> bool) -> nat {
    count_below(p, 0x1_0000_0000)
}

/// Different numbers with the property are no more than there are.
pub proof fn lemma_at_most(p: spec_fn(u32) -> bool, n: int, s: Seq<u32>)
    requires
        0 <= n <= 0x1_0000_0000,
        s.no_duplicates(),
        forall|i: int| 0 <= i < s.len() ==> (#[trigger] s[i]) < n && p(s[i]),
    ensures
        s.len() <= count_below(p, n),
    decreases n,
{
    if n == 0 {
        if s.len() > 0 {
            assert(s[0] < 0);
        }
    } else {
        let last = (n - 1) as u32;
        if s.contains(last) {
            let k = choose|k: int| 0 <= k < s.len() && s[k] == last;
            let rest = s.remove(k);
            assert forall|i: int| 0 <= i < rest.len() implies (#[trigger] rest[i]) < n - 1 && p(
                rest[i],
            ) by {
                let j = if i < k {
                    i
                } else {
                    i + 1
                };
                assert(rest[i] == s[j]);
                assert(s[j] != s[k]);
            }
            assert(rest.no_duplicates()) by {
                assert forall|i: int, j: int| 0 <= i < rest.len() && 0 <= j < rest.len() && i
                    != j implies rest[i] != rest[j] by {
                    let a = if i < k {
                        i
                    } else {
                        i + 1
                    };
                    let b = if j < k {
                        j
                    } else {
                        j + 1
                    };
                    assert(s[a] != s[b]);
                }
            }
            lemma_at_most(p, n - 1, rest);
            assert(p(s[k]));
        } else {
            assert forall|i: int| 0 <= i < s.len() implies (#[trigger] s[i]) < n - 1 && p(s[i]) by {
                assert(s[i] != last);
            }
            lemma_at_most(p, n - 1, s);
        }
    }
}

/// Numbers among which are all with the property are no fewer than these.
pub proof fn lemma_at_least(p: spec_fn(u32) -> bool, n: int, s: Seq<u32>)
    requires
        0 <= n <= 0x1_0000_0000,
        forall|d: u32| d < n && #[trigger] p(d) ==> s.contains(d),
    ensures
        count_below(p, n) <= s.len(),
    decreases n,
{
    if n > 0 {
        let last = (n - 1) as u32;
        if p(last) {
            let k = choose|k: int| 0 <= k < s.len() && s[k] == last;
            let rest = s.remove(k);
            assert forall|d: u32| d < n - 1 && #[trigger] p(d) implies rest.contains(d) by {
                let i = choose|i: int| 0 <= i < s.len() && s[i] == d;
                if i < k {
                    assert(rest[i] == d);
                } else {
                    assert(rest[i - 1] == d);
                }
            }
            lemma_at_least(p, n - 1, rest);
        } else {
            lemma_at_least(p, n - 1, s);
        }
    }
}

/// The more a property asks, the fewer numbers have it.
pub proof fn lemma_count_implies(p: spec_fn(u32) -> bool, q: spec_fn(u32) -> bool, n: int)
    requires
        forall|d: u32| #[trigger] p(d) ==> q(d),
    ensures
        count_below(p, n) <= count_below(q, n),
    decreases n,
{
    if n > 0 {
        lemma_count_implies(p, q, n - 1);
    }
}

/// Numbers of which none between `m` and `n` has the property.
pub proof fn lemma_count_gap(p: spec_fn(u32) -> bool, m: int, n: int)
    requires
        0 <= m <= n <= 0x1_0000_0000,
        forall|d: u32| m <= d < n ==> !#[trigger] p(d),
    ensures
        count_below(p, n) == count_below(p, m),
    decreases n - m,
{
    if m < n {
        lemma_count_gap(p, m, n - 1);
    }
}

pub proof fn lemma_count_monotone_in(p: spec_fn(u32) -> bool, m: int, n: int)
    requires
        0 <= m <= n,
    ensures
        count_below(p, m) <= count_below(p, n),
    decreases n - m,
{
    if m < n {
        lemma_count_monotone_in(p, m, n - 1);
    }
}

/// As many numbers have a property as the set of them has elements.
pub proof fn law_count_is_size(p: spec_fn(u32) -> bool)
    ensures
        Set::new(p).finite(),
        count_all(p) == Set::new(p).len(),
{
    lemma_count_is_size(p, 0x1_0000_0000);
    assert(Set::new(p) =~= Set::new(|d: u32| d < 0x1_0000_0000 && p(d)));
}

proof fn lemma_count_is_size(p: spec_fn(u32) -> bool, n: int)
    requires
        0 <= n <= 0x1_0000_0000,
    ensures
        Set::new(|d: u32| d < n && p(d)).finite(),
        count_below(p, n) == Set::new(|d: u32| d < n && p(d)).len(),
    decreases n,
{
    let all = Set::new(|d: u32| d < n && p(d));
    if n == 0 {
        assert(all =~= Set::empty());
    } else {
        lemma_count_is_size(p, n - 1);
        let less = Set::new(|d: u32| d < n - 1 && p(d));
        let last = (n - 1) as u32;
        if p(last) {
            assert(all =~= less.insert(last));
        } else {
            assert(all =~= less);
        }
    }
}

} // verus!
