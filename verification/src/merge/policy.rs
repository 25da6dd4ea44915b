//! Which segments to merge.
//!
//! The segments fall into tiers by size. A tier starts at the smallest segment that is in none yet,
//! and takes in all segments whose sizes are within a factor of `merge_factor` of it.
use vstd::prelude::*;
use vstd::math::min;
use crate::order::sort_order;
use crate::order::{lemma_sorts_onto, order_of, pick, sorts, taken_before};
use crate::segment::DiskSegment;

verus! {

/// Tiered merge policy: when a tier has too many segments, its smallest are merged.
pub struct TieredMergePolicy {
    /// In a tier with more segments than this, some are merged.
    pub max_per_tier: usize,
    /// Number of segments that are merged at a time, and the factor by which sizes in a tier differ
    /// at most.
    pub merge_factor: usize,
    /// Segments are merged while their sizes add up to less than this.
    pub floor_size: u64,
}

impl Default for TieredMergePolicy {
    fn default() -> (policy: Self)
        ensures
            policy.max_per_tier == 10,
            policy.merge_factor == 10,
            policy.floor_size == 2 * 1024 * 1024,
    {
        TieredMergePolicy { max_per_tier: 10, merge_factor: 10, floor_size: 2_097_152 }
    }
}

/// The size of each segment.
pub open spec fn sizes(segments: Seq<DiskSegment<'_>>) -> Seq<u64> {
    segments.map_values(|s: DiskSegment<'_>| s.size_bytes)
}

/// The sizes in ascending order.
pub open spec fn sorted_sizes(sizes: Seq<u64>) -> Seq<u64> {
    pick(sizes, order_of(sizes))
}

/// How many sizes from position `p` on, one after the other, are at most `limit`.
pub open spec fn run_len(sorted: Seq<u64>, p: int, limit: int) -> nat
    decreases sorted.len() - p,
{
    if 0 <= p < sorted.len() && sorted[p] <= limit {
        1 + run_len(sorted, p + 1, limit)
    } else {
        0
    }
}

/// Sum of sizes.
pub open spec fn size_sum(sizes: Seq<u64>) -> nat
    decreases sizes.len(),
{
    if sizes.len() == 0 {
        0
    } else {
        size_sum(sizes.drop_last()) + sizes.last() as nat
    }
}

impl TieredMergePolicy {
    /// The greatest size in the tier of which `least` is the least.
    pub open spec fn tier_limit(self, least: u64) -> int {
        if self.merge_factor == 0 {
            least as int
        } else {
            self.merge_factor * least
        }
    }

    /// How many segments the tier has that starts at position `p` of the sorted sizes.
    pub open spec fn tier_len(self, sorted: Seq<u64>, p: int) -> nat {
        run_len(sorted, p, self.tier_limit(sorted[p]))
    }

    /// How many segments of a tier are merged: `merge_factor`, or all if there are fewer.
    pub open spec fn merge_len(self, sorted: Seq<u64>, p: int) -> nat {
        if self.merge_factor <= self.tier_len(sorted, p) {
            self.merge_factor as nat
        } else {
            self.tier_len(sorted, p)
        }
    }

    /// The tier that starts at position `p` has too many segments, and its smallest, those to
    /// merge, add up to less than the floor.
    pub open spec fn overflows(self, sorted: Seq<u64>, p: int) -> bool {
        &&& self.tier_len(sorted, p) > self.max_per_tier
        &&& size_sum(sorted.subrange(p, p + self.merge_len(sorted, p))) < self.floor_size
    }

    /// Where the first tier starts, of those from position `p` on, that has segments to merge.
    pub open spec fn first_overflow(self, sorted: Seq<u64>, p: int) -> Option<int>
        decreases
            if p < sorted.len() {
                sorted.len() - p
            } else {
                0
            },
    {
        if p < 0 || p >= sorted.len() {
            None
        } else if self.overflows(sorted, p) {
            Some(p)
        } else if self.tier_len(sorted, p) == 0 {
            None
        } else {
            self.first_overflow(sorted, p + self.tier_len(sorted, p))
        }
    }

    /// How many of the sizes from position `p` on, which are sorted, are at most `limit`.
    fn count_run(sorted: &Vec<u64>, p: usize, limit: u128) -> (n: usize)
        requires
            p <= sorted@.len(),
        ensures
            n == run_len(sorted@, p as int, limit as int),
            p + n <= sorted@.len(),
    {
        let mut n: usize = 0;
        while p + n < sorted.len() && sorted[p + n] as u128 <= limit
            invariant
                p + n <= sorted.len(),
                run_len(sorted@, p as int, limit as int) == n + run_len(
                    sorted@,
                    p + n,
                    limit as int,
                ),
            decreases sorted.len() - p - n,
        {
            n += 1;
        }
        n
    }

    /// Whether `n` sizes from position `p` on add up to less than `floor`.
    fn adds_up_below(sorted: &Vec<u64>, p: usize, n: usize, floor: u64) -> (r: bool)
        requires
            p + n <= sorted@.len(),
        ensures
            r <==> size_sum(sorted@.subrange(p as int, p + n)) < floor,
    {
        let ghost all = sorted@.subrange(p as int, p + n);
        if floor == 0 {
            return false;
        }
        let mut sum: u64 = 0;
        let mut i: usize = 0;
        assert(all.take(0) =~= Seq::empty());
        while i < n
            invariant
                i <= n,
                p + n <= sorted.len(),
                all == sorted@.subrange(p as int, p + n),
                sum == size_sum(all.take(i as int)),
                sum < floor,
            decreases n - i,
        {
            assert(all.take(i + 1).drop_last() =~= all.take(i as int));
            if sorted[p + i] >= floor - sum {
                proof {
                    lemma_sum_monotone(all, i + 1);
                }
                return false;
            }
            sum = sum + sorted[p + i];
            i += 1;
        }
        assert(all.take(i as int) =~= all);
        true
    }

    /// Finds segments to merge: the positions of the smallest of the first tier that has segments
    /// to merge, in the order of their sizes. `None` if no merge is needed.
    pub fn find_merge(&self, segments: &[DiskSegment<'_>]) -> (r: Option<Vec<usize>>)
        requires
            segments@.len() > self.max_per_tier ==> self.merge_factor <= segments@.len(),
        ensures
            sorts(sizes(segments@), order_of(sizes(segments@))),
            r is Some <==> self.first_overflow(sorted_sizes(sizes(segments@)), 0) is Some,
            r matches Some(chosen) ==> {
                let sorted = sorted_sizes(sizes(segments@));
                let p = self.first_overflow(sorted, 0)->0;
                chosen@ == order_of(sizes(segments@)).subrange(p, p + self.merge_len(sorted, p))
            },
    {
        let mut keys: Vec<u64> = Vec::new();
        let mut i: usize = 0;
        while i < segments.len()
            invariant
                i <= segments@.len(),
                keys@ == sizes(segments@.take(i as int)),
            decreases segments.len() - i,
        {
            keys.push(segments[i].size_bytes);
            i += 1;
            assert(keys@ =~= sizes(segments@.take(i as int)));
        }
        assert(segments@.take(i as int) =~= segments@);
        let order = sort_order(keys.as_slice());
        let mut sorted: Vec<u64> = Vec::new();
        let mut j: usize = 0;
        while j < order.len()
            invariant
                j <= order@.len(),
                sorts(keys@, order@),
                sorted@ == pick(keys@, order@.take(j as int)),
            decreases order.len() - j,
        {
            sorted.push(keys[order[j]]);
            j += 1;
            assert(sorted@ =~= pick(keys@, order@.take(j as int)));
        }
        assert(order@.take(j as int) =~= order@);
        let ghost all = sorted@;
        let mut p: usize = 0;
        while p < sorted.len()
            invariant
                all == sorted@,
                all == sorted_sizes(sizes(segments@)),
                order@ == order_of(sizes(segments@)),
                sorts(sizes(segments@), order@),
                p <= all.len() == order@.len(),
                self.first_overflow(all, 0) == self.first_overflow(all, p as int),
            decreases sorted.len() - p,
        {
            let least: u64 = sorted[p];
            let limit: u128 = if self.merge_factor == 0 {
                least as u128
            } else {
                proof {
                    lemma_product_fits(self.merge_factor, least);
                }
                self.merge_factor as u128 * least as u128
            };
            let len: usize = Self::count_run(&sorted, p, limit);
            proof {
                lemma_tier_not_empty(*self, all, p as int);
            }
            let n: usize = if self.merge_factor <= len {
                self.merge_factor
            } else {
                len
            };
            if len > self.max_per_tier && Self::adds_up_below(&sorted, p, n, self.floor_size) {
                let mut chosen: Vec<usize> = Vec::new();
                let mut c: usize = 0;
                while c < n
                    invariant
                        c <= n,
                        p + n <= order@.len(),
                        chosen@ == order@.subrange(p as int, p + c),
                    decreases n - c,
                {
                    assert(p + c < order.len());
                    chosen.push(order[p + c]);
                    c += 1;
                    assert(chosen@ =~= order@.subrange(p as int, p + c));
                }
                return Some(chosen);
            }
            p = p + len;
        }
        None
    }
}

proof fn lemma_product_fits(factor: usize, size: u64)
    ensures
        0 <= factor * size <= u128::MAX,
{
    assert(0 <= factor * size <= 0xFFFF_FFFF_FFFF_FFFF * 0xFFFF_FFFF_FFFF_FFFF) by (nonlinear_arith)
        requires
            0 <= factor <= 0xFFFF_FFFF_FFFF_FFFF,
            0 <= size <= 0xFFFF_FFFF_FFFF_FFFF,
    ;
}

proof fn lemma_sum_monotone(sizes: Seq<u64>, n: int)
    requires
        0 <= n <= sizes.len(),
    ensures
        size_sum(sizes.take(n)) <= size_sum(sizes),
    decreases sizes.len() - n,
{
    if n == sizes.len() {
        assert(sizes.take(n) =~= sizes);
    } else {
        lemma_sum_monotone(sizes, n + 1);
        assert(sizes.take(n + 1).drop_last() =~= sizes.take(n));
    }
}

/// A tier holds the segment at which it starts.
proof fn lemma_tier_not_empty(policy: TieredMergePolicy, sorted: Seq<u64>, p: int)
    requires
        0 <= p < sorted.len(),
    ensures
        policy.tier_len(sorted, p) >= 1,
{
    let least = sorted[p];
    let factor = policy.merge_factor;
    assert(factor >= 1 ==> factor * least >= least) by (nonlinear_arith);
}

/// The sizes do not descend.
pub open spec fn rising(sorted: Seq<u64>) -> bool {
    forall|i: int, j: int| 0 <= i < j < sorted.len() ==> sorted[i] <= sorted[j]
}

impl TieredMergePolicy {
    /// A tier starts at position `q`, where one starts at position `p`.
    pub open spec fn starts_tier(self, sorted: Seq<u64>, p: int, q: int) -> bool
        decreases
            if p < q {
                q - p
            } else {
                0
            },
    {
        &&& 0 <= p <= q < sorted.len()
        &&& p == q || (self.tier_len(sorted, p) > 0 && self.starts_tier(
            sorted,
            p + self.tier_len(sorted, p),
            q,
        ))
    }
}

proof fn lemma_run(sorted: Seq<u64>, p: int, limit: int)
    requires
        0 <= p <= sorted.len(),
    ensures
        p + run_len(sorted, p, limit) <= sorted.len(),
        forall|i: int| p <= i < p + run_len(sorted, p, limit) ==> #[trigger] sorted[i] <= limit,
        p + run_len(sorted, p, limit) < sorted.len() ==> sorted[(p + run_len(sorted, p, limit)) as int]
            > limit,
    decreases sorted.len() - p,
{
    if p < sorted.len() && sorted[p] <= limit {
        lemma_run(sorted, p + 1, limit);
    }
}

/// Sorting the sizes puts them into ascending order.
pub proof fn law_sizes_rise(sizes: Seq<u64>)
    requires
        sorts(sizes, order_of(sizes)),
    ensures
        rising(sorted_sizes(sizes)),
        sorted_sizes(sizes).len() == sizes.len(),
{
    let order = order_of(sizes);
    assert forall|i: int, j: int| 0 <= i < j < sizes.len() implies sorted_sizes(sizes)[i]
        <= sorted_sizes(sizes)[j] by {
        assert(taken_before(sizes, order[i], order[j]));
    }
}

/// Within a tier no size is more than `merge_factor` times another, and the segments behind it are
/// larger than that.
pub proof fn law_sizes_in_a_tier(policy: TieredMergePolicy, sorted: Seq<u64>, p: int)
    requires
        rising(sorted),
        0 <= p < sorted.len(),
    ensures
        1 <= policy.tier_len(sorted, p) <= sorted.len() - p,
        forall|i: int, j: int|
            #![trigger sorted[i], sorted[j]]
            p <= i < p + policy.tier_len(sorted, p) && p <= j < p + policy.tier_len(sorted, p)
                ==> sorted[j] <= policy.tier_limit(sorted[i]),
        forall|j: int|
            p + policy.tier_len(sorted, p) <= j < sorted.len() ==> #[trigger] sorted[j]
                > policy.tier_limit(sorted[p]),
{
    let n = policy.tier_len(sorted, p);
    let limit = policy.tier_limit(sorted[p]);
    lemma_tier_not_empty(policy, sorted, p);
    lemma_run(sorted, p, limit);
    assert forall|i: int, j: int|
        #![trigger sorted[i], sorted[j]]
        p <= i < p + n && p <= j < p + n implies sorted[j] <= policy.tier_limit(sorted[i]) by {
        assert(sorted[p] <= sorted[i]);
        let (f, a, b) = (policy.merge_factor, sorted[p], sorted[i]);
        assert(f * a <= f * b) by (nonlinear_arith)
            requires
                0 <= f,
                a <= b,
        ;
    }
    assert forall|j: int| p + n <= j < sorted.len() implies #[trigger] sorted[j] > limit by {
        assert(sorted[p + n] <= sorted[j]);
    }
}

proof fn lemma_first_overflow(policy: TieredMergePolicy, sorted: Seq<u64>, p: int)
    requires
        rising(sorted),
        0 <= p,
    ensures
        policy.first_overflow(sorted, p) matches Some(q) ==> policy.starts_tier(sorted, p, q)
            && policy.overflows(sorted, q),
        policy.first_overflow(sorted, p) is None ==> forall|q: int| #[trigger]
            policy.starts_tier(sorted, p, q) ==> !policy.overflows(sorted, q),
    decreases
            if p < sorted.len() {
                sorted.len() - p
            } else {
                0
            },
{
    if p < sorted.len() && !policy.overflows(sorted, p) {
        law_sizes_in_a_tier(policy, sorted, p);
        let next = p + policy.tier_len(sorted, p);
        lemma_first_overflow(policy, sorted, next);
        if policy.first_overflow(sorted, p) is None {
            assert forall|q: int| #[trigger] policy.starts_tier(sorted, p, q) implies !policy.overflows(
                sorted,
                q,
            ) by {
                if q != p {
                    assert(policy.starts_tier(sorted, next, q));
                }
            }
        }
    }
}

/// There are segments to merge exactly where some tier has more than `max_per_tier` segments, of
/// which those to merge add up to less than the floor.
pub proof fn law_merges_where_a_tier_overflows(policy: TieredMergePolicy, sorted: Seq<u64>)
    requires
        rising(sorted),
    ensures
        policy.first_overflow(sorted, 0) is Some <==> exists|q: int| #[trigger]
            policy.starts_tier(sorted, 0, q) && policy.overflows(sorted, q),
{
    lemma_first_overflow(policy, sorted, 0);
}

/// Where all sizes are within a factor of `merge_factor` of the least they are one tier: there are
/// segments to merge exactly where there are more than `max_per_tier` and the `merge_factor`
/// smallest add up to less than the floor.
pub proof fn law_one_tier(policy: TieredMergePolicy, sorted: Seq<u64>)
    requires
        rising(sorted),
        policy.merge_factor <= sorted.len(),
        forall|i: int| 0 <= i < sorted.len() ==> #[trigger] sorted[i] <= policy.tier_limit(sorted[0]),
    ensures
        policy.first_overflow(sorted, 0) is Some <==> sorted.len() > policy.max_per_tier && size_sum(
            sorted.take(policy.merge_factor as int),
        ) < policy.floor_size,
{
    if sorted.len() > 0 {
        law_sizes_in_a_tier(policy, sorted, 0);
        let n = policy.tier_len(sorted, 0);
        if n < sorted.len() {
            assert(sorted[n as int] > policy.tier_limit(sorted[0]));
        }
        assert(policy.first_overflow(sorted, n as int) is None);
        assert(sorted.subrange(0, policy.merge_factor as int) =~= sorted.take(
            policy.merge_factor as int,
        ));
    }
}

/// The segments that are chosen are of one tier and are its smallest: none is chosen twice, their
/// sizes are within a factor of `merge_factor` of each other and add up to less than the floor, and
/// none that is not chosen is smaller than one that is, unless it is of a tier before.
pub proof fn law_smallest_are_chosen(
    policy: TieredMergePolicy,
    sizes: Seq<u64>,
    p: int,
    chosen: Seq<usize>,
)
    requires
        sorts(sizes, order_of(sizes)),
        policy.first_overflow(sorted_sizes(sizes), 0) == Some(p),
        chosen == order_of(sizes).subrange(p, p + policy.merge_len(sorted_sizes(sizes), p)),
    ensures
        chosen.len() == policy.merge_len(sorted_sizes(sizes), p),
        chosen.no_duplicates(),
        forall|i: int| 0 <= i < chosen.len() ==> (#[trigger] chosen[i]) < sizes.len(),
        forall|i: int, j: int|
            #![trigger chosen[i], chosen[j]]
            0 <= i < chosen.len() && 0 <= j < chosen.len() ==> sizes[chosen[j] as int]
                <= policy.tier_limit(sizes[chosen[i] as int]),
        size_sum(pick(sizes, chosen)) < policy.floor_size,
        forall|i: int, q: usize|
            0 <= i < chosen.len() && q < sizes.len() && !(#[trigger] chosen.contains(q))
                && sizes[q as int] > (if p == 0 {
                -1
            } else {
                sorted_sizes(sizes)[p - 1] as int
            }) ==> sizes[(#[trigger] chosen[i]) as int] <= sizes[q as int],
{
    let order = order_of(sizes);
    let sorted = sorted_sizes(sizes);
    law_sizes_rise(sizes);
    lemma_first_overflow(policy, sorted, 0);
    law_sizes_in_a_tier(policy, sorted, p);
    assert forall|i: int, j: int| 0 <= i < chosen.len() && 0 <= j < chosen.len() && i
        != j implies chosen[i] != chosen[j] by {
        if i < j {
            assert(taken_before(sizes, order[p + i], order[p + j]));
        } else {
            assert(taken_before(sizes, order[p + j], order[p + i]));
        }
    }
    assert forall|i: int, j: int|
        #![trigger chosen[i], chosen[j]]
        0 <= i < chosen.len() && 0 <= j < chosen.len() implies sizes[chosen[j] as int]
        <= policy.tier_limit(sizes[chosen[i] as int]) by {
        assert(sorted[p + i] == sizes[chosen[i] as int]);
        assert(sorted[p + j] == sizes[chosen[j] as int]);
    }
    assert(pick(sizes, chosen) =~= sorted.subrange(p, p + policy.merge_len(sorted, p)));
    assert forall|i: int, q: usize|
        0 <= i < chosen.len() && q < sizes.len() && !(#[trigger] chosen.contains(q))
            && sizes[q as int] > (if p == 0 {
            -1
        } else {
            sorted[p - 1] as int
        }) implies sizes[(#[trigger] chosen[i]) as int] <= sizes[q as int] by {
        let k = lemma_sorts_onto(sizes, order, q);
        if p <= k < p + chosen.len() {
            assert(chosen[k - p] == q);
        }
        if k < p {
            assert(sorted[k] <= sorted[p - 1]);
        } else {
            assert(taken_before(sizes, order[p + i], order[k]));
        }
    }
}

/// The sizes are those of the segments, and sorting takes each from its place.
pub proof fn law_sizes(segments: Seq<DiskSegment<'_>>)
    ensures
        sizes(segments).len() == segments.len(),
        forall|i: int|
            0 <= i < segments.len() ==> #[trigger] sizes(segments)[i] == segments[i].size_bytes,
        sorted_sizes(sizes(segments)).len() == order_of(sizes(segments)).len(),
        forall|i: int|
            0 <= i < order_of(sizes(segments)).len() ==> #[trigger] sorted_sizes(
                sizes(segments),
            )[i] == sizes(segments)[order_of(sizes(segments))[i] as int],
{
}

/// The sum of sizes is their sum.
pub proof fn law_size_sum(sizes: Seq<u64>)
    ensures
        size_sum(sizes) == sizes.fold_left(0, |sum: int, n: u64| sum + n),
    decreases sizes.len(),
{
    if sizes.len() > 0 {
        law_size_sum(sizes.drop_last());
    }
}

/// The tiers of sizes in ascending order, where each starts and ends: a tier has the sizes that are
/// at most `merge_factor` times its least, and the next one starts with the first size that is
/// greater. What is merged are the smallest of the first tier that has more than `max_per_tier`
/// sizes and whose smallest, as many as are merged at a time, add up to less than the floor; where no
/// tier is like that, nothing is merged.
pub proof fn law_tiers(policy: TieredMergePolicy, sorted: Seq<u64>) -> (r: (Seq<int>, Seq<int>))
    requires
        forall|i: int, j: int| 0 <= i < j < sorted.len() ==> sorted[i] <= sorted[j],
    ensures
        r.0.len() == r.1.len(),
        r.0.len() == 0 <==> sorted.len() == 0,
        r.0.len() > 0 ==> r.0[0] == 0 && r.1.last() == sorted.len(),
        forall|t: int| 0 < t < r.0.len() ==> #[trigger] r.0[t] == r.1[t - 1],
        forall|t: int|
            0 <= t < r.0.len() ==> 0 <= (#[trigger] r.0[t]) < r.1[t] <= sorted.len(),
        forall|t: int, q: int|
            0 <= t < r.0.len() && #[trigger] r.0[t] <= q < r.1[t] ==> #[trigger] sorted[q] <= (
            if policy.merge_factor == 0 {
                sorted[r.0[t]] as int
            } else {
                policy.merge_factor * sorted[r.0[t]]
            }),
        forall|t: int|
            0 <= t < r.0.len() && #[trigger] r.1[t] < sorted.len() ==> sorted[r.1[t]] > (
            if policy.merge_factor == 0 {
                sorted[r.0[t]] as int
            } else {
                policy.merge_factor * sorted[r.0[t]]
            }),
        policy.first_overflow(sorted, 0) is None ==> forall|t: int|
            0 <= t < r.0.len() ==> {
                let n = min(policy.merge_factor as int, r.1[t] - r.0[t]);
                ||| r.1[t] - r.0[t] <= policy.max_per_tier
                ||| sorted.subrange(#[trigger] r.0[t], r.0[t] + n).fold_left(
                    0,
                    |sum: int, n: u64| sum + n,
                ) >= policy.floor_size
            },
        policy.first_overflow(sorted, 0) matches Some(p) ==> exists|t: int|
            {
                let n = min(policy.merge_factor as int, r.1[t] - r.0[t]);
                &&& 0 <= t < r.0.len()
                &&& p == #[trigger] r.0[t]
                &&& r.1[t] - r.0[t] > policy.max_per_tier
                &&& sorted.subrange(p, p + n).fold_left(0, |sum: int, n: u64| sum + n)
                    < policy.floor_size
                &&& policy.merge_len(sorted, p) == n
                &&& forall|u: int|
                    0 <= u < t ==> {
                        let n = min(policy.merge_factor as int, r.1[u] - r.0[u]);
                        ||| r.1[u] - r.0[u] <= policy.max_per_tier
                        ||| sorted.subrange(#[trigger] r.0[u], r.0[u] + n).fold_left(
                            0,
                            |sum: int, n: u64| sum + n,
                        ) >= policy.floor_size
                    }
            },
{
    lemma_tiers(policy, sorted, 0)
}

/// A tier from `a` to `b` is one to merge from.
spec fn too_many(policy: TieredMergePolicy, sorted: Seq<u64>, a: int, b: int) -> bool {
    let n = min(policy.merge_factor as int, b - a);
    b - a > policy.max_per_tier && sorted.subrange(a, a + n).fold_left(
        0,
        |sum: int, n: u64| sum + n,
    ) < policy.floor_size
}

proof fn lemma_tiers(policy: TieredMergePolicy, sorted: Seq<u64>, p: int) -> (r: (
    Seq<int>,
    Seq<int>,
))
    requires
        forall|i: int, j: int| 0 <= i < j < sorted.len() ==> sorted[i] <= sorted[j],
        0 <= p <= sorted.len(),
    ensures
        r.0.len() == r.1.len(),
        r.0.len() == 0 <==> sorted.len() == p,
        r.0.len() > 0 ==> r.0[0] == p && r.1.last() == sorted.len(),
        forall|t: int| 0 < t < r.0.len() ==> #[trigger] r.0[t] == r.1[t - 1],
        forall|t: int|
            0 <= t < r.0.len() ==> 0 <= (#[trigger] r.0[t]) < r.1[t] <= sorted.len(),
        forall|t: int, q: int|
            0 <= t < r.0.len() && #[trigger] r.0[t] <= q < r.1[t] ==> #[trigger] sorted[q]
                <= policy.tier_limit(sorted[r.0[t]]),
        forall|t: int|
            0 <= t < r.0.len() && #[trigger] r.1[t] < sorted.len() ==> sorted[r.1[t]]
                > policy.tier_limit(sorted[r.0[t]]),
        policy.first_overflow(sorted, p) is None ==> forall|t: int|
            0 <= t < r.0.len() ==> !too_many(policy, sorted, #[trigger] r.0[t], r.1[t]),
        policy.first_overflow(sorted, p) matches Some(f) ==> exists|t: int|
            {
                &&& 0 <= t < r.0.len()
                &&& f == #[trigger] r.0[t]
                &&& too_many(policy, sorted, f, r.1[t])
                &&& policy.merge_len(sorted, f) == min(policy.merge_factor as int, r.1[t] - f)
                &&& forall|u: int|
                    0 <= u < t ==> !too_many(policy, sorted, #[trigger] r.0[u], r.1[u])
            },
    decreases sorted.len() - p,
{
    if p == sorted.len() {
        (Seq::empty(), Seq::empty())
    } else {
        law_sizes_in_a_tier(policy, sorted, p);
        let n = policy.tier_len(sorted, p) as int;
        let rest = lemma_tiers(policy, sorted, p + n);
        let r = (seq![p] + rest.0, seq![p + n] + rest.1);
        law_size_sum(sorted.subrange(p, p + policy.merge_len(sorted, p)));
        assert(too_many(policy, sorted, p, p + n) == policy.overflows(sorted, p));
        assert forall|t: int| 0 < t < r.0.len() implies #[trigger] r.0[t] == rest.0[t - 1] && r.1[t]
            == rest.1[t - 1] by {}
        assert(r.0[0] == p && r.1[0] == p + n);
        assert forall|t: int, q: int|
            0 <= t < r.0.len() && #[trigger] r.0[t] <= q < r.1[t] implies #[trigger] sorted[q]
            <= policy.tier_limit(sorted[r.0[t]]) by {
            if t > 0 {
                assert(rest.0[t - 1] <= q < rest.1[t - 1]);
            } else {
                assert(sorted[q] <= policy.tier_limit(sorted[p]));
            }
        }
        assert forall|t: int| 0 <= t < r.0.len() && #[trigger] r.1[t] < sorted.len() implies sorted[r.1[t]]
            > policy.tier_limit(sorted[r.0[t]]) by {
            if t > 0 {
                assert(rest.1[t - 1] < sorted.len());
            }
        }
        if policy.overflows(sorted, p) {
            assert(r.0[0] == p);
            assert(too_many(policy, sorted, p, r.1[0]));
        } else {
            match policy.first_overflow(sorted, p + n) {
                None => {
                    assert forall|t: int| 0 <= t < r.0.len() implies !too_many(
                        policy,
                        sorted,
                        #[trigger] r.0[t],
                        r.1[t],
                    ) by {
                        if t > 0 {
                            assert(r.0[t] == rest.0[t - 1]);
                        }
                    }
                },
                Some(f) => {
                    let t = choose|t: int|
                        {
                            &&& 0 <= t < rest.0.len()
                            &&& f == #[trigger] rest.0[t]
                            &&& too_many(policy, sorted, f, rest.1[t])
                            &&& policy.merge_len(sorted, f) == min(
                                policy.merge_factor as int,
                                rest.1[t] - f,
                            )
                            &&& forall|u: int|
                                0 <= u < t ==> !too_many(
                                    policy,
                                    sorted,
                                    #[trigger] rest.0[u],
                                    rest.1[u],
                                )
                        };
                    assert(r.0[t + 1] == f);
                    assert forall|u: int| 0 <= u < t + 1 implies !too_many(
                        policy,
                        sorted,
                        #[trigger] r.0[u],
                        r.1[u],
                    ) by {
                        if u > 0 {
                            assert(r.0[u] == rest.0[u - 1]);
                        }
                    }
                },
            }
        }
        r
    }
}

} // verus!
