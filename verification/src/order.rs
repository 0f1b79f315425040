//! Sorting by two numbers, the larger first; what is equal keeps its order.

use vstd::prelude::*;

verus! {

/// Whether the key `a` belongs in front of the key `b`.
pub open spec fn ahead(a: (usize, usize), b: (usize, usize)) -> bool {
    a.0 > b.0 || (a.0 == b.0 && a.1 > b.1)
}

/// The places `order` with the place `at` put behind every place whose key belongs in front of
/// its own or is equal to it, where `order` is sorted.
pub open spec fn inserted(order: Seq<int>, keys: Seq<(usize, usize)>, at: int) -> Seq<int>
    decreases order.len(),
{
    if order.len() == 0 || !ahead(keys[at], keys[order.last()]) {
        order.push(at)
    } else {
        inserted(order.drop_last(), keys, at).push(order.last())
    }
}

/// The places of the first `count` keys in sorted order.
pub open spec fn sorted_places(keys: Seq<(usize, usize)>, count: int) -> Seq<int>
    decreases count,
{
    if count <= 0 {
        seq![]
    } else {
        inserted(sorted_places(keys, count - 1), keys, count - 1)
    }
}

/// The places of all keys in sorted order.
pub open spec fn sort_order(keys: Seq<(usize, usize)>) -> Seq<int> {
    sorted_places(keys, keys.len() as int)
}

/// Whether the place `i` may stand in front of the place `j`: its key belongs in front, or the
/// keys are equal and it came first.
pub open spec fn in_order(keys: Seq<(usize, usize)>, i: int, j: int) -> bool {
    ahead(keys[i], keys[j]) || (keys[i] == keys[j] && i < j)
}

/// Where a place goes that belongs behind `split` others.
proof fn lemma_inserted(order: Seq<int>, keys: Seq<(usize, usize)>, at: int, split: int)
    requires
        0 <= split <= order.len(),
        forall|i: int| split <= i < order.len() ==> ahead(keys[at], keys[#[trigger] order[i]]),
        split > 0 ==> !ahead(keys[at], keys[order[split - 1]]),
    ensures
        inserted(order, keys, at) == order.take(split).push(at) + order.skip(split),
    decreases order.len(),
{
    if split == order.len() {
        assert(order.take(split).push(at) + order.skip(split) =~= order.push(at));
    } else {
        let shorter = order.drop_last();
        lemma_inserted(shorter, keys, at, split);
        assert(ahead(keys[at], keys[order[order.len() - 1]]));
        assert(shorter.take(split) =~= order.take(split));
        assert((order.take(split).push(at) + shorter.skip(split)).push(order.last())
            =~= order.take(split).push(at) + order.skip(split));
    }
}

/// What insertion keeps: the places, each once, and their order.
proof fn lemma_inserted_sorted(order: Seq<int>, keys: Seq<(usize, usize)>, at: int)
    requires
        forall|i: int| 0 <= i < order.len() ==> 0 <= #[trigger] order[i] < at,
        forall|i: int, j: int| 0 <= i < j < order.len() ==> in_order(keys, order[i], order[j]),
    ensures
        inserted(order, keys, at).len() == order.len() + 1,
        forall|p: int|
            #[trigger] inserted(order, keys, at).contains(p) <==> (order.contains(p) || p == at),
        forall|i: int, j: int|
            0 <= i < j < inserted(order, keys, at).len() ==> in_order(
                keys,
                inserted(order, keys, at)[i],
                inserted(order, keys, at)[j],
            ),
    decreases order.len(),
{
    let result = inserted(order, keys, at);
    if order.len() == 0 || !ahead(keys[at], keys[order.last()]) {
        assert(result == order.push(at));
        assert forall|p: int| #[trigger] result.contains(p) <==> (order.contains(p) || p == at) by {
            if order.contains(p) {
                let i = choose|i: int| 0 <= i < order.len() && order[i] == p;
                assert(result[i] == p);
            }
            assert(result[order.len() as int] == at);
        }
        assert forall|i: int, j: int| 0 <= i < j < result.len() implies in_order(
            keys,
            result[i],
            result[j],
        ) by {
            if j == order.len() {
                let last = order.len() - 1;
                if i < last {
                    assert(in_order(keys, order[i], order[last]));
                }
            }
        }
    } else {
        let shorter = order.drop_last();
        lemma_inserted_sorted(shorter, keys, at);
        let middle = inserted(shorter, keys, at);
        assert(result == middle.push(order.last()));
        assert forall|p: int| #[trigger] result.contains(p) <==> (order.contains(p) || p == at) by {
            assert(middle.contains(p) <==> (shorter.contains(p) || p == at));
            if shorter.contains(p) {
                let i = choose|i: int| 0 <= i < shorter.len() && shorter[i] == p;
                assert(order[i] == p);
            }
            if middle.contains(p) {
                let i = choose|i: int| 0 <= i < middle.len() && middle[i] == p;
                assert(result[i] == p);
            }
            if order.contains(p) && p != order.last() {
                let i = choose|i: int| 0 <= i < order.len() && order[i] == p;
                assert(shorter[i] == p);
            }
            if result.contains(p) && p != order.last() {
                let i = choose|i: int| 0 <= i < result.len() && result[i] == p;
                assert(middle[i] == p);
            }
            assert(result[middle.len() as int] == order.last());
            assert(order[order.len() - 1] == order.last());
        }
        assert forall|i: int, j: int| 0 <= i < j < result.len() implies in_order(
            keys,
            result[i],
            result[j],
        ) by {
            if j == middle.len() {
                assert(middle.contains(middle[i]));
                if middle[i] != at {
                    assert(shorter.contains(middle[i]));
                    let k = choose|k: int| 0 <= k < shorter.len() && shorter[k] == middle[i];
                    assert(in_order(keys, order[k], order[order.len() - 1]));
                }
            }
        }
    }
}

/// The places of the first keys are sorted, and each of them stands there once.
proof fn lemma_sorted_places(keys: Seq<(usize, usize)>, count: int)
    requires
        0 <= count <= keys.len(),
    ensures
        sorted_places(keys, count).len() == count,
        forall|p: int| #[trigger] sorted_places(keys, count).contains(p) <==> 0 <= p < count,
        forall|i: int, j: int|
            0 <= i < j < count ==> in_order(
                keys,
                sorted_places(keys, count)[i],
                sorted_places(keys, count)[j],
            ),
    decreases count,
{
    if count > 0 {
        lemma_sorted_places(keys, count - 1);
        let before = sorted_places(keys, count - 1);
        assert forall|i: int| 0 <= i < before.len() implies 0 <= #[trigger] before[i] < count
            - 1 by {
            assert(before.contains(before[i]));
        }
        lemma_inserted_sorted(before, keys, count - 1);
    }
}

/// Sorting keeps everything and loses nothing: each place stands in the sorted order exactly
/// once. The larger keys come first, and what is equal keeps its order.
pub proof fn sorting_is_stable(keys: Seq<(usize, usize)>)
    ensures
        sort_order(keys).len() == keys.len(),
        forall|p: int| #[trigger] sort_order(keys).contains(p) <==> 0 <= p < keys.len(),
        forall|i: int, j: int|
            0 <= i < j < keys.len() ==> in_order(keys, sort_order(keys)[i], sort_order(keys)[j])
                && sort_order(keys)[i] != sort_order(keys)[j],
{
    lemma_sorted_places(keys, keys.len() as int);
}

/// The places of all keys in sorted order.
pub fn sort_places(keys: &Vec<(usize, usize)>) -> (order: Vec<usize>)
    ensures
        order@.len() == keys@.len(),
        forall|i: int|
            0 <= i < order@.len() ==> (#[trigger] order@[i]) as int == sort_order(keys@)[i],
        forall|i: int| 0 <= i < order@.len() ==> #[trigger] order@[i] < keys@.len(),
{
    let mut order: Vec<usize> = Vec::new();
    let mut at: usize = 0;
    while at < keys.len()
        invariant
            at <= keys@.len(),
            order@.len() == at,
            sorted_places(keys@, at as int).len() == at,
            forall|i: int|
                0 <= i < at ==> (#[trigger] order@[i]) as int == sorted_places(keys@, at as int)[i],
            forall|i: int| 0 <= i < at ==> #[trigger] order@[i] < at,
        decreases keys@.len() - at,
    {
        let ghost places = sorted_places(keys@, at as int);
        let key: (usize, usize) = keys[at];
        let mut split: usize = at;
        while split > 0 && is_ahead(key, keys[order[split - 1]])
            invariant
                at < keys@.len(),
                key == keys@[at as int],
                split <= at,
                order@.len() == at,
                places.len() == at,
                forall|i: int| 0 <= i < at ==> (#[trigger] order@[i]) as int == places[i],
                forall|i: int| 0 <= i < at ==> #[trigger] order@[i] < at,
                forall|i: int| split <= i < at ==> ahead(key, keys@[#[trigger] places[i]]),
            decreases split,
        {
            assert(order@[split - 1] as int == places[split - 1]);
            split = split - 1;
        }
        proof {
            if split > 0 {
                assert(order@[split - 1] as int == places[split - 1]);
            }
            lemma_inserted(places, keys@, at as int, split as int);
            lemma_sorted_places(keys@, at + 1);
        }
        let ghost before = order@;
        order.insert(split, at);
        assert forall|i: int| 0 <= i < at + 1 implies (#[trigger] order@[i]) as int
            == sorted_places(keys@, at + 1)[i] && order@[i] < at + 1 by {
            if i < split {
                assert(order@[i] == before[i]);
            } else if i > split {
                assert(order@[i] == before[i - 1]);
            }
        }
        at = at + 1;
    }
    order
}

/// Whether the key `a` belongs in front of the key `b`.
fn is_ahead(a: (usize, usize), b: (usize, usize)) -> (yes: bool)
    ensures
        yes == ahead(a, b),
{
    a.0 > b.0 || (a.0 == b.0 && a.1 > b.1)
}

} // verus!
