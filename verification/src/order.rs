//! Sorting by numeric keys. Among equal keys what stood first stays first.
use vstd::prelude::*;

verus! {

/// Position `a` is taken before position `b`: it has the smaller key, or the same key and stands
/// further to the front.
pub open spec fn taken_before(keys: Seq<u64>, a: usize, b: usize) -> bool {
    keys[a as int] < keys[b as int] || (keys[a as int] == keys[b as int] && a < b)
}

/// Each position is taken before those behind it.
pub open spec fn in_order(keys: Seq<u64>, order: Seq<usize>) -> bool {
    forall|i: int, j: int|
        0 <= i < j < order.len() ==> taken_before(keys, #[trigger] order[i], #[trigger] order[j])
}

/// `order` lists the positions of all keys, in the order of the keys.
pub open spec fn sorts(keys: Seq<u64>, order: Seq<usize>) -> bool {
    &&& order.len() == keys.len()
    &&& forall|i: int| 0 <= i < order.len() ==> (#[trigger] order[i]) < keys.len()
    &&& in_order(keys, order)
}

/// The items at these positions.
pub open spec fn pick<T>(items: Seq<T>, order: Seq<usize>) -> Seq<T> {
    order.map_values(|i: usize| items[i as int])
}

/// The positions of all keys, in the order of the keys.
pub open spec fn order_of(keys: Seq<u64>) -> Seq<usize> {
    choose|order: Seq<usize>| sorts(keys, order)
}

/// The items in the order of their keys.
pub open spec fn sorted_by<T>(items: Seq<T>, keys: Seq<u64>) -> Seq<T> {
    pick(items, order_of(keys))
}

/// Every position is listed.
pub proof fn lemma_sorts_onto(keys: Seq<u64>, order: Seq<usize>, p: usize) -> (i: int)
    requires
        sorts(keys, order),
        p < keys.len(),
    ensures
        0 <= i < order.len(),
        order[i] == p,
{
    let n = keys.len() as int;
    let at = |i: int| order[i] as int;
    let from = vstd::set_lib::set_int_range(0, n);
    vstd::set_lib::lemma_int_range(0, n);
    let used = from.map(at);
    assert(used.subset_of(from)) by {
        assert forall|v: int| used.contains(v) implies from.contains(v) by {
            let i = choose|i: int| from.contains(i) && v == at(i);
            assert(0 <= order[i]);
        }
    }
    assert forall|i: int, j: int|
        from.contains(i) && from.contains(j) && #[trigger] at(i) == #[trigger] at(j) implies i
        == j by {
        if i < j {
            assert(taken_before(keys, order[i], order[j]));
        } else if j < i {
            assert(taken_before(keys, order[j], order[i]));
        }
    }
    vstd::set_lib::lemma_map_size(from, used, at);
    vstd::set_lib::lemma_subset_equality(used, from);
    assert(used.contains(p as int));
    choose|i: int| from.contains(i) && p as int == at(i)
}

/// Where a key that comes last is inserted: behind those that are not greater.
proof fn lemma_insertion_point(keys: Seq<u64>, order: Seq<usize>, key: u64, n: int) -> (p: int)
    requires
        in_order(keys, order),
        0 <= n <= order.len(),
        forall|i: int| n <= i < order.len() ==> keys[(#[trigger] order[i]) as int] > key,
    ensures
        0 <= p <= n,
        forall|i: int| 0 <= i < p ==> keys[(#[trigger] order[i]) as int] <= key,
        forall|i: int| p <= i < order.len() ==> keys[(#[trigger] order[i]) as int] > key,
    decreases n,
{
    if n == 0 {
        0
    } else if keys[order[n - 1] as int] > key {
        lemma_insertion_point(keys, order, key, n - 1)
    } else {
        assert forall|i: int| 0 <= i < n implies keys[(#[trigger] order[i]) as int] <= key by {
            if i < n - 1 {
                assert(taken_before(keys, order[i], order[n - 1]));
            }
        }
        n
    }
}

/// There is an order.
pub proof fn law_some_order(keys: Seq<u64>)
    requires
        keys.len() <= usize::MAX,
    ensures
        sorts(keys, order_of(keys)),
    decreases keys.len(),
{
    if keys.len() == 0 {
        assert(sorts(keys, Seq::empty()));
    } else {
        let n = keys.len() - 1;
        let front = keys.drop_last();
        law_some_order(front);
        let o = order_of(front);
        let last = n as usize;
        assert forall|i: int, j: int| 0 <= i < j < o.len() implies taken_before(
            keys,
            #[trigger] o[i],
            #[trigger] o[j],
        ) by {
            assert(taken_before(front, o[i], o[j]));
        }
        let p = lemma_insertion_point(keys, o, keys[n], o.len() as int);
        let order = o.insert(p, last);
        assert forall|i: int, j: int| 0 <= i < j < order.len() implies taken_before(
            keys,
            #[trigger] order[i],
            #[trigger] order[j],
        ) by {
            let a = if i < p {
                i
            } else {
                i - 1
            };
            let b = if j < p {
                j
            } else {
                j - 1
            };
            if i == p {
                assert(order[j] == o[b]);
            } else if j == p {
                assert(order[i] == o[a]);
            } else {
                assert(order[i] == o[a] && order[j] == o[b]);
                assert(taken_before(keys, o[a], o[b]));
            }
        }
        assert forall|i: int| 0 <= i < order.len() implies (#[trigger] order[i]) < keys.len() by {
            if i < p {
                assert(order[i] == o[i]);
            } else if i > p {
                assert(order[i] == o[i - 1]);
            }
        }
        assert(sorts(keys, order));
    }
}

/// There is one order.
pub proof fn law_one_order(keys: Seq<u64>, a: Seq<usize>, b: Seq<usize>)
    requires
        sorts(keys, a),
        sorts(keys, b),
    ensures
        a == b,
{
    lemma_orders_agree(keys, a, b, a.len() as int);
    assert(a =~= b);
}

proof fn lemma_orders_agree(keys: Seq<u64>, a: Seq<usize>, b: Seq<usize>, n: int)
    requires
        sorts(keys, a),
        sorts(keys, b),
        0 <= n <= a.len(),
    ensures
        forall|i: int| 0 <= i < n ==> a[i] == b[i],
    decreases n,
{
    if n > 0 {
        lemma_orders_agree(keys, a, b, n - 1);
        let i = n - 1;
        if a[i] != b[i] {
            let j = lemma_sorts_onto(keys, b, a[i]);
            let k = lemma_sorts_onto(keys, a, b[i]);
            if j < i {
                assert(taken_before(keys, a[j], a[i]));
            }
            if k < i {
                assert(taken_before(keys, b[k], b[i]));
            }
            assert(taken_before(keys, b[i], b[j]));
            assert(taken_before(keys, a[i], a[k]));
        }
    }
}

/// Whatever sorts the keys gives the sorted items.
pub proof fn lemma_sorted_by<T>(items: Seq<T>, keys: Seq<u64>, order: Seq<usize>)
    requires
        sorts(keys, order),
        items.len() == keys.len(),
    ensures
        sorted_by(items, keys) == pick(items, order),
        sorted_by(items, keys).len() == items.len(),
{
    law_one_order(keys, order, order_of(keys));
}

/// Items whose keys do not descend stay as they are.
pub proof fn lemma_sorted_already<T>(items: Seq<T>, keys: Seq<u64>)
    requires
        items.len() == keys.len(),
        keys.len() <= usize::MAX,
        forall|i: int, j: int| 0 <= i < j < keys.len() ==> keys[i] <= keys[j],
    ensures
        sorted_by(items, keys) == items,
{
    let order = Seq::new(keys.len(), |i: int| i as usize);
    assert(sorts(keys, order));
    lemma_sorted_by(items, keys, order);
    assert(pick(items, order) =~= items);
}

/// Picking every position once gives the same items.
proof fn lemma_pick_all<T>(items: Seq<T>, order: Seq<usize>)
    requires
        order.len() == items.len(),
        order.no_duplicates(),
        forall|i: int| 0 <= i < order.len() ==> (#[trigger] order[i]) < items.len(),
    ensures
        pick(items, order).to_multiset() == items.to_multiset(),
    decreases items.len(),
{
    broadcast use vstd::seq_lib::group_to_multiset_ensures;

    if items.len() == 0 {
        assert(pick(items, order) =~= items);
    } else {
        let n = items.len() - 1;
        let p = order[n];
        let rest = items.remove(p as int);
        let before = Seq::new(
            n as nat,
            |i: int|
                if order[i] < p {
                    order[i]
                } else {
                    (order[i] - 1) as usize
                },
        );
        assert forall|i: int| 0 <= i < n implies (#[trigger] before[i]) < rest.len() && rest[before[i] as int]
            == items[order[i] as int] by {
            assert(order[i] != order[n]);
        }
        assert(before.no_duplicates()) by {
            assert forall|i: int, j: int| 0 <= i < n && 0 <= j < n && i != j implies before[i]
                != before[j] by {
                assert(order[i] != order[j]);
                assert(order[i] != order[n]);
                assert(order[j] != order[n]);
            }
        }
        lemma_pick_all(rest, before);
        assert(pick(items, order) =~= pick(rest, before).push(items[p as int]));
        vstd::seq_lib::to_multiset_build(pick(rest, before), items[p as int]);
        vstd::seq_lib::to_multiset_remove(items, p as int);
        assert(items.to_multiset().contains(items[p as int])) by {
            vstd::seq_lib::to_multiset_contains(items, items[p as int]);
            assert(items.contains(items[p as int]));
        }
        assert(pick(items, order).to_multiset() =~= items.to_multiset());
    }
}

/// Sorting loses no item and adds none.
pub proof fn law_sorted_same_items<T>(items: Seq<T>, keys: Seq<u64>, order: Seq<usize>)
    requires
        sorts(keys, order),
        items.len() == keys.len(),
    ensures
        pick(items, order).to_multiset() == items.to_multiset(),
{
    assert(order.no_duplicates()) by {
        assert forall|i: int, j: int| 0 <= i < order.len() && 0 <= j < order.len() && i
            != j implies order[i] != order[j] by {
            if i < j {
                assert(taken_before(keys, order[i], order[j]));
            } else {
                assert(taken_before(keys, order[j], order[i]));
            }
        }
    }
    lemma_pick_all(items, order);
}

/// The positions of the keys, in the order of the keys.
pub fn sort_order(keys: &[u64]) -> (order: Vec<usize>)
    ensures
        sorts(keys@, order@),
        order@ == order_of(keys@),
{
    let order = sort_range(keys, 0, keys.len());
    proof {
        law_one_order(keys@, order@, order_of(keys@));
    }
    order
}

/// The positions from `lo` to `hi`, in the order of their keys.
fn sort_range(keys: &[u64], lo: usize, hi: usize) -> (order: Vec<usize>)
    requires
        lo <= hi <= keys@.len(),
    ensures
        order@.len() == hi - lo,
        forall|i: int| 0 <= i < order@.len() ==> lo <= (#[trigger] order@[i]) < hi,
        in_order(keys@, order@),
    decreases hi - lo,
{
    if hi - lo <= 1 {
        let mut order: Vec<usize> = Vec::new();
        if lo < hi {
            order.push(lo);
        }
        return order;
    }
    let mid: usize = lo + (hi - lo) / 2;
    let front = sort_range(keys, lo, mid);
    let back = sort_range(keys, mid, hi);
    let mut order: Vec<usize> = Vec::new();
    let mut i: usize = 0;
    let mut j: usize = 0;
    while i < front.len() || j < back.len()
        invariant
            lo <= mid <= hi <= keys@.len(),
            front@.len() == mid - lo,
            back@.len() == hi - mid,
            i <= front@.len(),
            j <= back@.len(),
            order@.len() == i + j,
            forall|k: int| 0 <= k < front@.len() ==> lo <= (#[trigger] front@[k]) < mid,
            forall|k: int| 0 <= k < back@.len() ==> mid <= (#[trigger] back@[k]) < hi,
            forall|k: int| 0 <= k < order@.len() ==> lo <= (#[trigger] order@[k]) < hi,
            in_order(keys@, front@),
            in_order(keys@, back@),
            in_order(keys@, order@),
            forall|k: int, f: int|
                0 <= k < order@.len() && i <= f < front@.len() ==> taken_before(
                    keys@,
                    #[trigger] order@[k],
                    #[trigger] front@[f],
                ),
            forall|k: int, b: int|
                0 <= k < order@.len() && j <= b < back@.len() ==> taken_before(
                    keys@,
                    #[trigger] order@[k],
                    #[trigger] back@[b],
                ),
        decreases front.len() - i + (back.len() - j),
    {
        let from_front = if i == front.len() {
            false
        } else if j == back.len() {
            true
        } else {
            keys[front[i]] <= keys[back[j]]
        };
        let ghost before = order@;
        if from_front {
            let p: usize = front[i];
            order.push(p);
            proof {
                assert forall|b: int| j <= b < back@.len() implies taken_before(
                    keys@,
                    p,
                    #[trigger] back@[b],
                ) by {
                    assert(taken_before(keys@, p, back@[j as int]));
                    if b > j {
                        assert(taken_before(keys@, back@[j as int], back@[b]));
                    }
                }
            }
            i += 1;
        } else {
            let p: usize = back[j];
            order.push(p);
            proof {
                assert forall|f: int| i <= f < front@.len() implies taken_before(
                    keys@,
                    p,
                    #[trigger] front@[f],
                ) by {
                    assert(taken_before(keys@, p, front@[i as int]));
                    if f > i {
                        assert(taken_before(keys@, front@[i as int], front@[f]));
                    }
                }
            }
            j += 1;
        }
    }
    order
}

/// What sorting gives: every position once, the smaller keys first, and among equal keys the
/// positions as they stood. Nothing else sorts.
pub proof fn law_sorts(keys: Seq<u64>, order: Seq<usize>)
    ensures
        sorts(keys, order) <==> {
            &&& order.len() == keys.len()
            &&& forall|i: int| 0 <= i < order.len() ==> (#[trigger] order[i]) < keys.len()
            &&& forall|i: int, j: int|
                0 <= i < j < order.len() ==> {
                    ||| keys[#[trigger] order[i] as int] < keys[#[trigger] order[j] as int]
                    ||| keys[order[i] as int] == keys[order[j] as int] && order[i] < order[j]
                }
        },
{
    if forall|i: int, j: int|
        0 <= i < j < order.len() ==> {
            ||| keys[#[trigger] order[i] as int] < keys[#[trigger] order[j] as int]
            ||| keys[order[i] as int] == keys[order[j] as int] && order[i] < order[j]
        } {
        assert(in_order(keys, order));
    }
    if sorts(keys, order) {
        assert forall|i: int, j: int| 0 <= i < j < order.len() implies {
            ||| keys[#[trigger] order[i] as int] < keys[#[trigger] order[j] as int]
            ||| keys[order[i] as int] == keys[order[j] as int] && order[i] < order[j]
        } by {
            assert(taken_before(keys, order[i], order[j]));
        }
    }
}

/// Sorting items by keys: the order that it goes by, which sorts the keys.
pub proof fn law_sorted_items<T>(items: Seq<T>, keys: Seq<u64>) -> (order: Seq<usize>)
    requires
        items.len() == keys.len() <= usize::MAX,
    ensures
        sorts(keys, order),
        sorted_by(items, keys).len() == items.len(),
        forall|i: int|
            0 <= i < items.len() ==> #[trigger] sorted_by(items, keys)[i] == items[order[i] as int],
        sorted_by(items, keys).to_multiset() == items.to_multiset(),
{
    law_some_order(keys);
    law_sorted_same_items(items, keys, order_of(keys));
    order_of(keys)
}

/// Items are taken from their positions.
pub proof fn law_pick<T>(items: Seq<T>, order: Seq<usize>)
    ensures
        pick(items, order).len() == order.len(),
        forall|i: int|
            0 <= i < order.len() ==> #[trigger] pick(items, order)[i] == items[order[i] as int],
{
}

} // verus!
