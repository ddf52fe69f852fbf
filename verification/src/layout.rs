//! Where each operation of the heap leaves each element: the arrangement of
//! the backing store after a sift, a build, a push and a pop.

use std::cmp::Ordering;
use vstd::prelude::*;
use crate::order::outcome;
use crate::slots::exchanged;
use crate::slots::inner_nodes;
use crate::slots::lemma_exchanged_multiset;
use crate::slots::lemma_nothing_held;
use crate::slots::parent;
use crate::slots::with_root_replaced;
use crate::slots::without_root;

verus! {

/// `s` after the element at `root` was moved down: while a child outranks
/// it, it trades places with the child of the higher rank, which is the
/// right one only where the comparison function answers `Greater` for the
/// right child against the left.
pub open spec fn sifted_down<T, F>(f: F, s: Seq<T>, root: int) -> Seq<T> where
    F: Fn(&T, &T) -> Ordering,

    decreases s.len() - root,
{
    let left = 2 * root + 1;
    let right = 2 * root + 2;
    if root < 0 || left >= s.len() {
        s
    } else {
        let child = if right < s.len() && outcome(f, s[right], s[left]) == Ordering::Greater {
            right
        } else {
            left
        };
        if outcome(f, s[child], s[root]) == Ordering::Greater {
            sifted_down(f, exchanged(s, root, child), child)
        } else {
            s
        }
    }
}

/// `s` after the element at `index` was moved up: it trades places with
/// its parent until it is the root or the comparison function answers
/// `Greater` for the parent against it. An element that ties with its
/// parent moves above it.
pub open spec fn sifted_up<T, F>(f: F, s: Seq<T>, index: int) -> Seq<T> where
    F: Fn(&T, &T) -> Ordering,

    decreases index,
{
    if index <= 0 || index >= s.len() {
        s
    } else if outcome(f, s[parent(index)], s[index]) == Ordering::Greater {
        s
    } else {
        sifted_up(f, exchanged(s, parent(index), index), parent(index))
    }
}

/// `s` after the elements at the positions below `next` were moved down,
/// the one at `next - 1` first and the root last.
pub open spec fn heapified_below<T, F>(f: F, s: Seq<T>, next: int) -> Seq<T> where
    F: Fn(&T, &T) -> Ordering,

    decreases next,
{
    if next <= 0 {
        s
    } else {
        heapified_below(f, sifted_down(f, s, next - 1), next - 1)
    }
}

/// `s` laid out as a heap in one pass from the bottom up, which starts at
/// the last position that has a child.
pub open spec fn heapified<T, F>(f: F, s: Seq<T>) -> Seq<T> where F: Fn(&T, &T) -> Ordering {
    heapified_below(f, s, inner_nodes(s.len()))
}

/// `s` after `item` was pushed: appended and then moved up.
pub open spec fn with_pushed<T, F>(f: F, s: Seq<T>, item: T) -> Seq<T> where
    F: Fn(&T, &T) -> Ordering,
 {
    let grown = s.push(item);
    sifted_up(f, grown, grown.len() - 1)
}

/// `s` after each element of `items` was pushed in turn.
pub open spec fn with_all_pushed<T, F>(f: F, s: Seq<T>, items: Seq<T>) -> Seq<T> where
    F: Fn(&T, &T) -> Ordering,

    decreases items.len(),
{
    if items.len() == 0 {
        s
    } else {
        with_pushed(f, with_all_pushed(f, s, items.drop_last()), items.last())
    }
}

/// `s` after its root was popped: the last element takes the place of the
/// root and is moved down. An empty store stays as it is.
pub open spec fn with_root_popped<T, F>(f: F, s: Seq<T>) -> Seq<T> where
    F: Fn(&T, &T) -> Ordering,
 {
    if s.len() == 0 {
        s
    } else {
        sifted_down(f, exchanged(s, 0, s.len() - 1).drop_last(), 0)
    }
}

/// `s` after `item` took the place of its root. Where the old root outranks
/// `item`, the item is moved down; otherwise nothing else moves. On an
/// empty store this is a push.
pub open spec fn with_top_updated<T, F>(f: F, s: Seq<T>, item: T) -> Seq<T> where
    F: Fn(&T, &T) -> Ordering,
 {
    if s.len() == 0 {
        with_pushed(f, s, item)
    } else if outcome(f, s[0], item) == Ordering::Greater {
        sifted_down(f, s.update(0, item), 0)
    } else {
        s.update(0, item)
    }
}

/// The roots that come out of `s` when it is popped until it is empty, in
/// the order in which they come.
pub open spec fn drained<T, F>(f: F, s: Seq<T>) -> Seq<T> where F: Fn(&T, &T) -> Ordering
    decreases s.len(),
    via drained_decreases::<T, F>
{
    if s.len() == 0 {
        Seq::<T>::empty()
    } else {
        seq![s[0]] + drained(f, with_root_popped(f, s))
    }
}

/// Moving an element down keeps the length of the store and the elements
/// that it holds.
pub proof fn lemma_sifted_down_keeps<T, F>(f: F, s: Seq<T>, root: int) where
    F: Fn(&T, &T) -> Ordering,

    ensures
        sifted_down(f, s, root).len() == s.len(),
        sifted_down(f, s, root).to_multiset() == s.to_multiset(),
    decreases s.len() - root,
{
    let left = 2 * root + 1;
    let right = 2 * root + 2;
    if !(root < 0 || left >= s.len()) {
        let child = if right < s.len() && outcome(f, s[right], s[left]) == Ordering::Greater {
            right
        } else {
            left
        };
        if outcome(f, s[child], s[root]) == Ordering::Greater {
            lemma_exchanged_multiset(s, root, child);
            lemma_sifted_down_keeps(f, exchanged(s, root, child), child);
        }
    }
}

/// Moving an element up keeps the length of the store and the elements
/// that it holds.
pub proof fn lemma_sifted_up_keeps<T, F>(f: F, s: Seq<T>, index: int) where
    F: Fn(&T, &T) -> Ordering,

    ensures
        sifted_up(f, s, index).len() == s.len(),
        sifted_up(f, s, index).to_multiset() == s.to_multiset(),
    decreases index,
{
    if !(index <= 0 || index >= s.len()) && outcome(f, s[parent(index)], s[index])
        != Ordering::Greater {
        lemma_exchanged_multiset(s, parent(index), index);
        lemma_sifted_up_keeps(f, exchanged(s, parent(index), index), parent(index));
    }
}

/// Laying a store out as a heap keeps its length and the elements that it
/// holds.
pub proof fn lemma_heapified_below_keeps<T, F>(f: F, s: Seq<T>, next: int) where
    F: Fn(&T, &T) -> Ordering,

    ensures
        heapified_below(f, s, next).len() == s.len(),
        heapified_below(f, s, next).to_multiset() == s.to_multiset(),
    decreases next,
{
    if next > 0 {
        lemma_sifted_down_keeps(f, s, next - 1);
        lemma_heapified_below_keeps(f, sifted_down(f, s, next - 1), next - 1);
    }
}

/// A push adds the pushed item to what the store holds.
pub proof fn lemma_with_pushed_holds<T, F>(f: F, s: Seq<T>, item: T) where
    F: Fn(&T, &T) -> Ordering,

    ensures
        with_pushed(f, s, item).len() == s.len() + 1,
        with_pushed(f, s, item).to_multiset() == s.to_multiset().insert(item),
{
    let grown = s.push(item);
    lemma_sifted_up_keeps(f, grown, grown.len() - 1);
    vstd::seq_lib::to_multiset_build(s, item);
}

/// Pushing the elements of `items` in turn adds them all to what the store
/// holds.
pub proof fn lemma_with_all_pushed_holds<T, F>(f: F, s: Seq<T>, items: Seq<T>) where
    F: Fn(&T, &T) -> Ordering,

    ensures
        with_all_pushed(f, s, items).len() == s.len() + items.len(),
        with_all_pushed(f, s, items).to_multiset() == s.to_multiset().add(items.to_multiset()),
    decreases items.len(),
{
    broadcast use vstd::multiset::group_multiset_axioms;

    if items.len() == 0 {
        lemma_nothing_held(items);
        assert(s.to_multiset().add(items.to_multiset()) =~= s.to_multiset());
    } else {
        let front = items.drop_last();
        lemma_with_all_pushed_holds(f, s, front);
        lemma_with_pushed_holds(f, with_all_pushed(f, s, front), items.last());
        assert(items =~= front.push(items.last()));
        vstd::seq_lib::to_multiset_build(front, items.last());
        assert(s.to_multiset().add(front.to_multiset()).insert(items.last())
            =~= s.to_multiset().add(items.to_multiset()));
    }
}

/// A pop takes the root away from what the store holds.
pub proof fn lemma_with_root_popped_holds<T, F>(f: F, s: Seq<T>) where
    F: Fn(&T, &T) -> Ordering,

    ensures
        with_root_popped(f, s).to_multiset() == without_root(s),
{
    broadcast use vstd::multiset::group_multiset_axioms;

    if s.len() > 0 {
        let turned = exchanged(s, 0, s.len() - 1);
        let cut = turned.drop_last();
        lemma_exchanged_multiset(s, 0, s.len() - 1);
        assert(turned =~= cut.push(s[0]));
        vstd::seq_lib::to_multiset_build(cut, s[0]);
        assert(cut.to_multiset() =~= s.to_multiset().remove(s[0]));
        lemma_sifted_down_keeps(f, cut, 0);
    }
}

/// Replacing the root puts the item in the place of the root in what the
/// store holds.
pub proof fn lemma_with_top_updated_holds<T, F>(f: F, s: Seq<T>, item: T) where
    F: Fn(&T, &T) -> Ordering,

    ensures
        with_top_updated(f, s, item).to_multiset() == with_root_replaced(s, item),
{
    if s.len() == 0 {
        lemma_with_pushed_holds(f, s, item);
    } else {
        lemma_sifted_down_keeps(f, s.update(0, item), 0);
    }
}

/// Draining a store hands out as many elements as it holds, and the same
/// ones.
pub proof fn lemma_drained_holds<T, F>(f: F, s: Seq<T>) where F: Fn(&T, &T) -> Ordering
    ensures
        drained(f, s).len() == s.len(),
        drained(f, s).to_multiset() == s.to_multiset(),
    decreases s.len(),
{
    broadcast use vstd::multiset::group_multiset_axioms;

    if s.len() == 0 {
        assert(drained(f, s) =~= s);
    } else {
        let rest = with_root_popped(f, s);
        let tail = drained(f, rest);
        lemma_sifted_down_keeps(f, exchanged(s, 0, s.len() - 1).drop_last(), 0);
        lemma_with_root_popped_holds(f, s);
        lemma_drained_holds(f, rest);
        assert(drained(f, s) =~= seq![s[0]] + tail);
        vstd::seq_lib::lemma_multiset_commutative(seq![s[0]], tail);
        lemma_nothing_held(Seq::<T>::empty());
        vstd::seq_lib::to_multiset_build(Seq::<T>::empty(), s[0]);
        assert(seq![s[0]] =~= Seq::<T>::empty().push(s[0]));
        s.to_multiset_ensures();
        assert(s.contains(s[0]));
        assert(drained(f, s).to_multiset() =~= s.to_multiset());
    }
}

#[via_fn]
proof fn drained_decreases<T, F>(f: F, s: Seq<T>) where F: Fn(&T, &T) -> Ordering {
    if s.len() != 0 {
        lemma_sifted_down_keeps(f, exchanged(s, 0, s.len() - 1).drop_last(), 0);
    }
}

} // verus!
