//! What the heap asks of its comparison function, and the order that the
//! function induces on sequences.

use std::cmp::Ordering;
use vstd::prelude::*;
use crate::slots::parent;

verus! {

/// `g` tells the answer of the comparison function `f` for every pair:
/// whatever a call of `f` returns is what `g` says.
pub open spec fn answers<T, F>(f: F, g: spec_fn(T, T) -> Ordering) -> bool where
    F: Fn(&T, &T) -> Ordering,
 {
    forall|a: T, b: T, r: Ordering| #[trigger] f.ensures((&a, &b), r) ==> r == g(a, b)
}

/// `g` ranks consistently. Where it says `Less` for a pair, it says
/// `Greater` for the reversed pair, and "not `Less`" carries over a middle
/// element. Every strict weak ordering does both.
pub open spec fn consistent<T>(g: spec_fn(T, T) -> Ordering) -> bool {
    &&& forall|a: T, b: T| #[trigger] g(a, b) == Ordering::Less ==> g(b, a) == Ordering::Greater
    &&& forall|a: T, b: T, c: T|
        #[trigger] g(a, b) != Ordering::Less && #[trigger] g(b, c) != Ordering::Less ==> g(a, c)
            != Ordering::Less
}

/// The ranking that the comparison function `f` computes, where there is a
/// consistent one.
pub open spec fn ranking<T, F>(f: F) -> spec_fn(T, T) -> Ordering where F: Fn(&T, &T) -> Ordering {
    choose|g: spec_fn(T, T) -> Ordering| answers(f, g) && consistent(g)
}

/// The answer of the comparison function `f` for the pair `(a, b)`.
pub open spec fn outcome<T, F>(f: F, a: T, b: T) -> Ordering where F: Fn(&T, &T) -> Ordering {
    ranking(f)(a, b)
}

/// `f` ranks `a` no lower than `b`: its answer for `(a, b)` is not `Less`.
pub open spec fn at_least<T, F>(f: F, a: T, b: T) -> bool where F: Fn(&T, &T) -> Ordering {
    outcome(f, a, b) != Ordering::Less
}

/// `f` may be called on every pair of elements.
pub open spec fn callable<T, F>(f: F) -> bool where F: Fn(&T, &T) -> Ordering {
    forall|a: T, b: T| #[trigger] f.requires((&a, &b))
}

/// A call of `f` returns the answer that `outcome` names.
pub open spec fn faithful<T, F>(f: F) -> bool where F: Fn(&T, &T) -> Ordering {
    forall|a: T, b: T, r: Ordering| #[trigger] f.ensures((&a, &b), r) ==> r == outcome(f, a, b)
}

/// Where `f` answers `Less` for a pair, it answers `Greater` for the
/// reversed pair.
pub open spec fn reversible<T, F>(f: F) -> bool where F: Fn(&T, &T) -> Ordering {
    forall|a: T, b: T| #[trigger]
        outcome(f, a, b) == Ordering::Less ==> outcome(f, b, a) == Ordering::Greater
}

/// "No lower than" carries over a middle element.
pub open spec fn transitive<T, F>(f: F) -> bool where F: Fn(&T, &T) -> Ordering {
    forall|a: T, b: T, c: T| #[trigger]
        at_least(f, a, b) && #[trigger] at_least(f, b, c) ==> at_least(f, a, c)
}

/// `f` can serve as the priority order of a heap: it may be called on every
/// pair, and its answers are those of a consistent ranking.
pub open spec fn is_priority_order<T, F>(f: F) -> bool where F: Fn(&T, &T) -> Ordering {
    &&& callable::<T, F>(f)
    &&& faithful::<T, F>(f)
    &&& reversible::<T, F>(f)
    &&& transitive::<T, F>(f)
}

/// Every node of `s` whose parent sits at position `start` or later is
/// ranked no higher than that parent.
pub open spec fn heap_from<T, F>(f: F, s: Seq<T>, start: int) -> bool where
    F: Fn(&T, &T) -> Ordering,
 {
    forall|i: int|
        0 < i < s.len() && parent(i) >= start ==> at_least(f, s[parent(i)], #[trigger] s[i])
}

/// The heap property: every parent is ranked no lower than each of its
/// children, the children of position `i` being at `2 * i + 1` and
/// `2 * i + 2`.
pub open spec fn heap_ordered<T, F>(f: F, s: Seq<T>) -> bool where F: Fn(&T, &T) -> Ordering {
    heap_from(f, s, 0)
}

/// Each element of `s` is ranked no lower than every element after it.
pub open spec fn descending<T, F>(f: F, s: Seq<T>) -> bool where F: Fn(&T, &T) -> Ordering {
    forall|i: int, j: int| 0 <= i < j < s.len() ==> at_least(f, #[trigger] s[i], #[trigger] s[j])
}

/// `f` ranks `a` and `b` alike: neither below the other.
pub open spec fn level<T, F>(f: F, a: T, b: T) -> bool where F: Fn(&T, &T) -> Ordering {
    at_least(f, a, b) && at_least(f, b, a)
}

/// `x` is ranked no lower than any element of `s`.
pub open spec fn dominates<T, F>(f: F, x: T, s: Seq<T>) -> bool where F: Fn(&T, &T) -> Ordering {
    forall|j: int| 0 <= j < s.len() ==> at_least(f, x, #[trigger] s[j])
}

/// `added` holds, position by position, a clone of each element of `items`.
pub open spec fn copies<T: Clone>(items: Seq<T>, added: Seq<T>) -> bool {
    &&& added.len() == items.len()
    &&& forall|i: int| 0 <= i < items.len() ==> cloned(items[i], #[trigger] added[i])
}

/// Every element is ranked no lower than itself.
pub proof fn lemma_reflexive<T, F>(f: F, a: T) where F: Fn(&T, &T) -> Ordering
    requires
        is_priority_order::<T, F>(f),
    ensures
        at_least(f, a, a),
{
    if outcome(f, a, a) == Ordering::Less {
        assert(outcome(f, a, a) == Ordering::Greater);
    }
}

/// In a sequence with the heap property the first element is ranked no lower
/// than the element at any position `j`.
pub proof fn lemma_root_dominates<T, F>(f: F, s: Seq<T>, j: int) where F: Fn(&T, &T) -> Ordering
    requires
        is_priority_order::<T, F>(f),
        heap_ordered(f, s),
        0 <= j < s.len(),
    ensures
        at_least(f, s[0], s[j]),
    decreases j,
{
    if j == 0 {
        lemma_reflexive(f, s[0]);
    } else {
        lemma_root_dominates(f, s, parent(j));
        assert(at_least(f, s[parent(j)], s[j]));
    }
}

/// An element that is ranked no lower than any element of `big` is ranked
/// no lower than any element of a sequence that holds only elements of
/// `big`.
pub proof fn lemma_dominates_part<T, F>(f: F, x: T, big: Seq<T>, small: Seq<T>) where
    F: Fn(&T, &T) -> Ordering,

    requires
        dominates(f, x, big),
        small.to_multiset().subset_of(big.to_multiset()),
    ensures
        dominates(f, x, small),
{
    broadcast use vstd::seq_lib::to_multiset_contains;

    assert forall|j: int| 0 <= j < small.len() implies at_least(f, x, #[trigger] small[j]) by {
        let v = small[j];
        assert(small.contains(v));
        assert(small.to_multiset().count(v) > 0);
        assert(small.to_multiset().count(v) <= big.to_multiset().count(v));
        assert(big.contains(v));
        let k = choose|k: int| 0 <= k < big.len() && big[k] == v;
        assert(at_least(f, x, big[k]));
    }
}

/// The first element of a sequence with the heap property is ranked no
/// lower than any element of the sequence.
pub proof fn lemma_root_dominates_all<T, F>(f: F, s: Seq<T>) where F: Fn(&T, &T) -> Ordering
    requires
        is_priority_order::<T, F>(f),
        heap_ordered(f, s),
        s.len() > 0,
    ensures
        dominates(f, s[0], s),
{
    assert forall|j: int| 0 <= j < s.len() implies at_least(f, s[0], #[trigger] s[j]) by {
        lemma_root_dominates(f, s, j);
    }
}

} // verus!
