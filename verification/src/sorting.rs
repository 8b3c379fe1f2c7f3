//! The order in which items are packed: largest area first, and items of
//! equal area in the order in which they were given.

use crate::packer::PackingItem;
use vstd::prelude::*;

verus! {

/// `sorted` with `item` put in behind every item that is at least as large
/// as it, and in front of every smaller one.
pub open spec fn placed_by_area<T>(sorted: Seq<PackingItem<T>>, item: PackingItem<T>) -> Seq<
    PackingItem<T>,
>
    decreases sorted.len(),
{
    if sorted.len() > 0 && sorted.last().spec_area() < item.spec_area() {
        placed_by_area(sorted.drop_last(), item).push(sorted.last())
    } else {
        sorted.push(item)
    }
}

/// The items by descending area. Items of equal area keep their order.
pub open spec fn sorted_by_area<T>(items: Seq<PackingItem<T>>) -> Seq<PackingItem<T>>
    decreases items.len(),
{
    if items.len() == 0 {
        Seq::empty()
    } else {
        placed_by_area(sorted_by_area(items.drop_last()), items.last())
    }
}

/// Whether no item is followed by a larger one.
pub open spec fn descending<T>(items: Seq<PackingItem<T>>) -> bool {
    forall|i: int, j: int|
        0 <= i < j < items.len() ==> (#[trigger] items[i]).spec_area() >= (
        #[trigger] items[j]).spec_area()
}

/// The items of area `area`, in the order in which they stand in `items`.
pub open spec fn of_area<T>(items: Seq<PackingItem<T>>, area: int) -> Seq<PackingItem<T>> {
    items.filter(|item: PackingItem<T>| item.spec_area() == area)
}

/// Where `item` lands in a descending sequence: at `at`, when everything
/// from `at` on is smaller than `item` and what stands before `at` is not.
pub proof fn lemma_placed_is_insert<T>(sorted: Seq<PackingItem<T>>, item: PackingItem<T>, at: int)
    requires
        0 <= at <= sorted.len(),
        forall|k: int|
            at <= k < sorted.len() ==> (#[trigger] sorted[k]).spec_area() < item.spec_area(),
        at > 0 ==> sorted[at - 1].spec_area() >= item.spec_area(),
    ensures
        placed_by_area(sorted, item) == sorted.insert(at, item),
    decreases sorted.len(),
{
    if at == sorted.len() {
        assert(sorted.push(item) =~= sorted.insert(at, item));
    } else {
        assert(sorted.last() == sorted[sorted.len() - 1]);
        lemma_placed_is_insert(sorted.drop_last(), item, at);
        assert(sorted.drop_last().insert(at, item).push(sorted.last()) =~= sorted.insert(at, item));
    }
}

/// Putting one item in place keeps the sequence descending, adds that item
/// and no other, and leaves the items of every area in their order.
pub proof fn lemma_placed_by_area<T>(sorted: Seq<PackingItem<T>>, item: PackingItem<T>)
    requires
        descending(sorted),
    ensures
        descending(placed_by_area(sorted, item)),
        placed_by_area(sorted, item).len() == sorted.len() + 1,
        placed_by_area(sorted, item).to_multiset() == sorted.to_multiset().insert(item),
        forall|area: int|
            #![trigger of_area(placed_by_area(sorted, item), area)]
            of_area(placed_by_area(sorted, item), area) == if item.spec_area() == area {
                of_area(sorted, area).push(item)
            } else {
                of_area(sorted, area)
            },
    decreases sorted.len(),
{
    broadcast use vstd::seq_lib::group_to_multiset_ensures;

    let placed = placed_by_area(sorted, item);
    if sorted.len() > 0 && sorted.last().spec_area() < item.spec_area() {
        let rest = sorted.drop_last();
        let last = sorted.last();
        assert(descending(rest));
        lemma_placed_by_area(rest, item);
        let inner = placed_by_area(rest, item);
        assert(placed == inner.push(last));
        assert(sorted =~= rest.push(last));
        assert(inner.to_multiset().insert(last) =~= rest.to_multiset().insert(last).insert(item));
        assert forall|i: int, j: int| 0 <= i < j < placed.len() implies (
        #[trigger] placed[i]).spec_area() >= (#[trigger] placed[j]).spec_area() by {
            if j < inner.len() {
                assert(placed[i] == inner[i] && placed[j] == inner[j]);
            } else {
                assert(placed[j] == last);
                assert(placed[i] == inner[i]);
                assert(inner.to_multiset().count(inner[i]) > 0);
                if inner[i] != item {
                    assert(rest.to_multiset().count(inner[i]) > 0);
                    assert(rest.contains(inner[i]));
                    let k = choose|k: int| 0 <= k < rest.len() && rest[k] == inner[i];
                    assert(sorted[k] == inner[i]);
                    assert(sorted[k].spec_area() >= sorted[sorted.len() - 1].spec_area());
                }
            }
        }
        assert forall|area: int| #![trigger of_area(placed, area)]
            of_area(placed, area) == if item.spec_area() == area {
                of_area(sorted, area).push(item)
            } else {
                of_area(sorted, area)
            } by {
            let pred = |it: PackingItem<T>| it.spec_area() == area;
            inner.lemma_filter_push(last, pred);
            rest.lemma_filter_push(last, pred);
            assert(of_area(inner, area) == if item.spec_area() == area {
                of_area(rest, area).push(item)
            } else {
                of_area(rest, area)
            });
        }
    } else {
        assert(placed == sorted.push(item));
        assert forall|i: int, j: int| 0 <= i < j < placed.len() implies (
        #[trigger] placed[i]).spec_area() >= (#[trigger] placed[j]).spec_area() by {
            if j < sorted.len() {
                assert(placed[i] == sorted[i] && placed[j] == sorted[j]);
            } else {
                assert(placed[i] == sorted[i]);
                assert(sorted[i].spec_area() >= sorted[sorted.len() - 1].spec_area());
            }
        }
        assert forall|area: int| #![trigger of_area(placed, area)]
            of_area(placed, area) == if item.spec_area() == area {
                of_area(sorted, area).push(item)
            } else {
                of_area(sorted, area)
            } by {
            let pred = |it: PackingItem<T>| it.spec_area() == area;
            sorted.lemma_filter_push(item, pred);
        }
    }
}

/// What the sorted order is: the same items, each as often as it was given,
/// largest area first, and those of equal area in the order in which they were
/// given.
pub proof fn lemma_sorted_by_area<T>(items: Seq<PackingItem<T>>)
    ensures
        sorted_by_area(items).len() == items.len(),
        sorted_by_area(items).to_multiset() == items.to_multiset(),
        descending(sorted_by_area(items)),
        forall|area: int|
            #![trigger of_area(sorted_by_area(items), area)]
            of_area(sorted_by_area(items), area) == of_area(items, area),
    decreases items.len(),
{
    broadcast use vstd::seq_lib::group_to_multiset_ensures;

    if items.len() == 0 {
        assert(sorted_by_area(items) =~= items);
    } else {
        let rest = items.drop_last();
        let last = items.last();
        lemma_sorted_by_area(rest);
        lemma_placed_by_area(sorted_by_area(rest), last);
        assert(items =~= rest.push(last));
        assert forall|area: int| #![trigger of_area(sorted_by_area(items), area)]
            of_area(sorted_by_area(items), area) == of_area(items, area) by {
            let pred = |it: PackingItem<T>| it.spec_area() == area;
            rest.lemma_filter_push(last, pred);
            assert(of_area(sorted_by_area(rest), area) == of_area(rest, area));
        }
    }
}

/// Sorts the items by descending area. Items of equal area keep the order in
/// which they were given.
pub fn sort_by_area<T: Copy>(items: &Vec<PackingItem<T>>) -> (sorted: Vec<PackingItem<T>>)
    ensures
        sorted@ == sorted_by_area(items@),
        sorted@.len() == items@.len(),
        sorted@.to_multiset() == items@.to_multiset(),
        descending(sorted@),
        forall|area: int|
            #![trigger of_area(sorted@, area)]
            of_area(sorted@, area) == of_area(items@, area),
{
    let mut sorted: Vec<PackingItem<T>> = Vec::new();
    let mut i: usize = 0;
    while i < items.len()
        invariant
            i <= items.len(),
            sorted@ == sorted_by_area(items@.take(i as int)),
            sorted@.len() == i,
        decreases items.len() - i,
    {
        let item = items[i];
        let mut at: usize = sorted.len();
        while at > 0 && sorted[at - 1].area() < item.area()
            invariant
                at <= sorted.len(),
                forall|k: int|
                    at <= k < sorted.len() ==> (#[trigger] sorted@[k]).spec_area()
                        < item.spec_area(),
            decreases at,
        {
            at -= 1;
        }
        proof {
            lemma_placed_is_insert(sorted@, item, at as int);
            assert(items@.take(i + 1).drop_last() =~= items@.take(i as int));
            assert(items@.take(i + 1).last() == item);
        }
        sorted.insert(at, item);
        i += 1;
    }
    proof {
        assert(items@.take(i as int) =~= items@);
        lemma_sorted_by_area(items@);
    }
    sorted
}

} // verus!
