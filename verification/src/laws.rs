//! Laws that relate the operations of the heap to one another and to the
//! comparison function.

use std::cmp::Ordering;
use vstd::prelude::*;
use crate::keeping_order::lemma_drained_sorts;
use crate::keeping_order::lemma_heapified_orders;
use crate::keeping_order::lemma_sorted_agree;
use crate::keeping_order::lemma_with_all_pushed_orders;
use crate::keeping_order::lemma_with_pushed_orders;
use crate::keeping_order::lemma_with_root_popped_orders;
use crate::keeping_order::lemma_with_top_updated_orders;
use crate::layout::drained;
use crate::layout::heapified;
use crate::layout::lemma_drained_holds;
use crate::layout::lemma_heapified_below_keeps;
use crate::layout::lemma_sifted_down_keeps;
use crate::layout::lemma_with_all_pushed_holds;
use crate::layout::lemma_with_pushed_holds;
use crate::layout::lemma_with_root_popped_holds;
use crate::layout::lemma_with_top_updated_holds;
use crate::layout::with_all_pushed;
use crate::layout::with_pushed;
use crate::layout::with_root_popped;
use crate::layout::with_top_updated;
use crate::order::answers;
use crate::order::at_least;
use crate::order::callable;
use crate::order::consistent;
use crate::order::descending;
use crate::order::heap_ordered;
use crate::order::is_priority_order;
use crate::order::lemma_root_dominates;
use crate::order::level;
use crate::order::outcome;
use crate::order::ranking;
use crate::slots::exchanged;
use crate::slots::inner_nodes;
use crate::slots::parent;

verus! {

/// A comparison function that may be called on every pair and whose answers
/// are told by a consistent ranking `g` can serve as the priority order of
/// a heap.
pub proof fn consistent_answers_make_a_priority_order<T, F>(
    f: F,
    g: spec_fn(T, T) -> Ordering,
) where F: Fn(&T, &T) -> Ordering
    requires
        callable::<T, F>(f),
        answers(f, g),
        consistent(g),
    ensures
        is_priority_order::<T, F>(f),
{
    let h = ranking::<T, F>(f);
    assert(answers(f, h) && consistent(h));
    assert forall|a: T, b: T| #[trigger]
        outcome(f, a, b) == Ordering::Less implies outcome(f, b, a) == Ordering::Greater by {
        assert(h(a, b) == Ordering::Less ==> h(b, a) == Ordering::Greater);
    }
    assert forall|a: T, b: T, c: T| #[trigger]
        at_least(f, a, b) && #[trigger] at_least(f, b, c) implies at_least(f, a, c) by {
        assert(h(a, b) != Ordering::Less && h(b, c) != Ordering::Less ==> h(a, c)
            != Ordering::Less);
    }
}

/// Whatever a call of a priority order returns for a pair is the answer
/// that the contracts of the heap speak of.
pub proof fn call_returns_the_outcome<T, F>(f: F, a: T, b: T, r: Ordering) where
    F: Fn(&T, &T) -> Ordering,

    requires
        is_priority_order::<T, F>(f),
        f.ensures((&a, &b), r),
    ensures
        outcome(f, a, b) == r,
{
}

/// In a sequence with the heap property, the comparison function never
/// answers `Less` for a node and one of its children, the children of
/// position `i` being at `2 * i + 1` and `2 * i + 2`.
pub proof fn parent_not_below_child<T, F>(f: F, s: Seq<T>, i: int, c: int) where
    F: Fn(&T, &T) -> Ordering,

    requires
        heap_ordered(f, s),
        0 <= i,
        c == 2 * i + 1 || c == 2 * i + 2,
        c < s.len(),
    ensures
        outcome(f, s[i], s[c]) != Ordering::Less,
{
    assert(parent(c) == i);
    assert(at_least(f, s[parent(c)], s[c]));
}

/// In a sequence with the heap property, the comparison function never
/// answers `Less` for the first element and another: the root is an element
/// of the highest rank.
pub proof fn root_is_extreme<T, F>(f: F, s: Seq<T>, j: int) where F: Fn(&T, &T) -> Ordering
    requires
        is_priority_order::<T, F>(f),
        heap_ordered(f, s),
        0 <= j < s.len(),
    ensures
        outcome(f, s[0], s[j]) != Ordering::Less,
{
    lemma_root_dominates(f, s, j);
}

/// Building a heap gives the heap property, whatever the arrangement of
/// the elements was.
pub proof fn building_gives_the_heap_property<T, F>(f: F, elements: Seq<T>) where
    F: Fn(&T, &T) -> Ordering,

    requires
        is_priority_order::<T, F>(f),
    ensures
        heap_ordered(f, heapified(f, elements)),
{
    lemma_heapified_orders(f, elements);
}

/// Every operation that changes a heap keeps the heap property: a push, a
/// pop, the replacement of the root, and both ways of adding several
/// elements.
pub proof fn operations_keep_the_heap_property<T, F>(f: F, s: Seq<T>, item: T, items: Seq<T>) where
    F: Fn(&T, &T) -> Ordering,

    requires
        is_priority_order::<T, F>(f),
        heap_ordered(f, s),
    ensures
        heap_ordered(f, with_pushed(f, s, item)),
        heap_ordered(f, with_root_popped(f, s)),
        heap_ordered(f, with_top_updated(f, s, item)),
        heap_ordered(f, with_all_pushed(f, s, items)),
        heap_ordered(f, heapified(f, s + items)),
{
    lemma_with_pushed_orders(f, s, item);
    lemma_with_root_popped_orders(f, s);
    lemma_with_top_updated_orders(f, s, item);
    lemma_with_all_pushed_orders(f, s, items);
    lemma_heapified_orders(f, s + items);
}

/// A push makes the heap longer by one, a pop makes a heap that is not
/// empty shorter by one, and a pop leaves an empty heap empty.
pub proof fn lengths_follow_push_and_pop<T, F>(f: F, s: Seq<T>, item: T) where
    F: Fn(&T, &T) -> Ordering,

    ensures
        with_pushed(f, s, item).len() == s.len() + 1,
        s.len() > 0 ==> with_root_popped(f, s).len() == s.len() - 1,
        s.len() == 0 ==> with_root_popped(f, s).len() == 0,
{
    lemma_with_pushed_holds(f, s, item);
    if s.len() > 0 {
        lemma_sifted_down_keeps(f, exchanged(s, 0, s.len() - 1).drop_last(), 0);
    }
}

/// Popping a heap until it is empty hands out all its elements sorted by
/// the comparison function, the highest rank first: each element is ranked
/// no lower than those that come after it.
pub proof fn draining_sorts<T, F>(f: F, s: Seq<T>) where F: Fn(&T, &T) -> Ordering
    requires
        is_priority_order::<T, F>(f),
        heap_ordered(f, s),
    ensures
        drained(f, s).len() == s.len(),
        drained(f, s).to_multiset() == s.to_multiset(),
        descending(f, drained(f, s)),
{
    lemma_drained_holds(f, s);
    lemma_drained_sorts(f, s);
}

/// Popping a heap until it is empty hands its elements out in the order
/// of any sort by the comparison function: position by position the two
/// hold elements of the same rank.
pub proof fn draining_agrees_with_sorting<T, F>(f: F, s: Seq<T>, sorted: Seq<T>) where
    F: Fn(&T, &T) -> Ordering,

    requires
        is_priority_order::<T, F>(f),
        heap_ordered(f, s),
        descending(f, sorted),
        sorted.to_multiset() == s.to_multiset(),
    ensures
        drained(f, s).len() == sorted.len(),
        forall|i: int| 0 <= i < sorted.len() ==> level(f, #[trigger] drained(f, s)[i], sorted[i]),
{
    lemma_drained_holds(f, s);
    lemma_drained_sorts(f, s);
    lemma_sorted_agree(f, drained(f, s), sorted);
}

/// A heap built from `elements` in one pass holds what a heap holds into
/// which the same elements were pushed one by one, in whatever order.
pub proof fn building_agrees_with_pushing<T, F>(f: F, elements: Seq<T>, order: Seq<T>) where
    F: Fn(&T, &T) -> Ordering,

    requires
        order.to_multiset() == elements.to_multiset(),
    ensures
        heapified(f, elements).to_multiset() == with_all_pushed(
            f,
            Seq::<T>::empty(),
            order,
        ).to_multiset(),
{
    broadcast use vstd::multiset::group_multiset_axioms;

    lemma_heapified_below_keeps(f, elements, inner_nodes(elements.len()));
    lemma_with_all_pushed_holds(f, Seq::<T>::empty(), order);
    crate::slots::lemma_nothing_held(Seq::<T>::empty());
    assert(Seq::<T>::empty().to_multiset().add(order.to_multiset()) =~= order.to_multiset());
}

/// Replacing the root by `item` leaves the heap holding what it holds
/// after the root was popped and `item` was pushed, whatever the heap held
/// and whatever the item.
pub proof fn replacing_root_agrees_with_pop_then_push<T, F>(f: F, s: Seq<T>, item: T) where
    F: Fn(&T, &T) -> Ordering,

    ensures
        with_top_updated(f, s, item).to_multiset() == with_pushed(
            f,
            with_root_popped(f, s),
            item,
        ).to_multiset(),
        with_top_updated(f, s, item).len() == with_pushed(f, with_root_popped(f, s), item).len(),
{
    broadcast use vstd::multiset::group_multiset_axioms;

    lemma_with_top_updated_holds(f, s, item);
    lemma_with_root_popped_holds(f, s);
    lemma_with_pushed_holds(f, with_root_popped(f, s), item);
    if s.len() > 0 {
        vstd::seq_lib::to_multiset_update(s, 0, item);
        s.to_multiset_ensures();
        assert(s.contains(s[0]));
        assert(s.to_multiset().insert(item).remove(s[0]) =~= s.to_multiset().remove(s[0]).insert(
            item,
        ));
    }
    vstd::seq_lib::to_multiset_len(with_top_updated(f, s, item));
    vstd::seq_lib::to_multiset_len(with_pushed(f, with_root_popped(f, s), item));
}

} // verus!
