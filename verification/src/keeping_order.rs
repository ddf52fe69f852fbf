//! Proofs that the arrangements which the operations leave have the heap
//! property, and that draining a heap sorts it.

use std::cmp::Ordering;
use vstd::prelude::*;
use crate::layout::drained;
use crate::layout::heapified;
use crate::layout::heapified_below;
use crate::layout::lemma_drained_holds;
use crate::layout::lemma_sifted_down_keeps;
use crate::layout::lemma_with_root_popped_holds;
use crate::layout::sifted_down;
use crate::layout::sifted_up;
use crate::layout::with_all_pushed;
use crate::layout::with_pushed;
use crate::layout::with_root_popped;
use crate::layout::with_top_updated;
use crate::order::at_least;
use crate::order::descending;
use crate::order::dominates;
use crate::order::heap_from;
use crate::order::heap_ordered;
use crate::order::is_priority_order;
use crate::order::lemma_dominates_part;
use crate::order::lemma_reflexive;
use crate::order::lemma_root_dominates_all;
use crate::order::level;
use crate::order::outcome;
use crate::slots::exchanged;
use crate::slots::inner_nodes;
use crate::slots::parent;

verus! {

/// The nodes of `s` whose parent sits at `root` or later are ranked no
/// higher than their parent, but for the children of `hole`; and these are
/// ranked no higher than the parent of `hole`, where `hole` has moved down
/// from `root`.
pub open spec fn ordered_but_below<T, F>(f: F, s: Seq<T>, root: int, hole: int) -> bool where
    F: Fn(&T, &T) -> Ordering,
 {
    &&& forall|i: int|
        0 < i < s.len() && parent(i) >= root && parent(i) != hole ==> at_least(
            f,
            s[parent(i)],
            #[trigger] s[i],
        )
    &&& hole > root ==> forall|c: int|
        0 < c < s.len() && parent(c) == hole ==> at_least(f, s[parent(hole)], #[trigger] s[c])
}

/// The nodes of `s` are ranked no higher than their parent, but for the
/// node at `index`; and its children are ranked no higher than its parent.
pub open spec fn ordered_but_above<T, F>(f: F, s: Seq<T>, index: int) -> bool where
    F: Fn(&T, &T) -> Ordering,
 {
    &&& forall|i: int|
        0 < i < s.len() && i != index ==> at_least(f, s[parent(i)], #[trigger] s[i])
    &&& index > 0 ==> forall|c: int|
        0 < c < s.len() && parent(c) == index ==> at_least(f, s[parent(index)], #[trigger] s[c])
}

/// Moving the element at `hole` down mends the one place where the order
/// below `root` may be broken.
pub proof fn lemma_sifted_down_settles<T, F>(f: F, s: Seq<T>, root: int, hole: int) where
    F: Fn(&T, &T) -> Ordering,

    requires
        is_priority_order::<T, F>(f),
        0 <= root <= hole,
        ordered_but_below(f, s, root, hole),
    ensures
        heap_from(f, sifted_down(f, s, hole), root),
    decreases s.len() - hole,
{
    let left = 2 * hole + 1;
    let right = 2 * hole + 2;
    if left < s.len() {
        let child = if right < s.len() && outcome(f, s[right], s[left]) == Ordering::Greater {
            right
        } else {
            left
        };
        let top = s[hole];
        let best = s[child];
        assert forall|c: int| 0 < c < s.len() && parent(c) == hole implies at_least(
            f,
            best,
            #[trigger] s[c],
        ) by {
            assert(c == left || c == right);
            if c == child {
                lemma_reflexive(f, best);
            } else if child == left {
                if outcome(f, best, s[c]) == Ordering::Less {
                    assert(outcome(f, s[c], best) == Ordering::Greater);
                }
            }
        }
        if outcome(f, best, top) == Ordering::Greater {
            let t = exchanged(s, hole, child);
            assert(ordered_but_below(f, t, root, child)) by {
                assert forall|i: int|
                    0 < i < t.len() && parent(i) >= root && parent(i) != child implies at_least(
                    f,
                    t[parent(i)],
                    #[trigger] t[i],
                ) by {
                    if parent(i) == hole {
                        assert(at_least(f, best, s[i]));
                    } else if i == hole {
                        assert(at_least(f, s[parent(hole)], s[child]));
                    } else {
                        assert(at_least(f, s[parent(i)], s[i]));
                    }
                }
                assert forall|c: int| 0 < c < t.len() && parent(c) == child implies at_least(
                    f,
                    t[parent(child)],
                    #[trigger] t[c],
                ) by {
                    assert(at_least(f, s[parent(c)], s[c]));
                }
            }
            lemma_sifted_down_settles(f, t, root, child);
        } else {
            assert(at_least(f, top, best)) by {
                if outcome(f, top, best) == Ordering::Less {
                    assert(outcome(f, best, top) == Ordering::Greater);
                }
            }
            assert forall|i: int| 0 < i < s.len() && parent(i) >= root implies at_least(
                f,
                s[parent(i)],
                #[trigger] s[i],
            ) by {
                if parent(i) == hole {
                    assert(at_least(f, top, best) && at_least(f, best, s[i]));
                }
            }
        }
    }
}

/// Moving the element at `index` up mends the one place where the order
/// may be broken.
pub proof fn lemma_sifted_up_settles<T, F>(f: F, s: Seq<T>, index: int) where
    F: Fn(&T, &T) -> Ordering,

    requires
        is_priority_order::<T, F>(f),
        0 <= index < s.len(),
        ordered_but_above(f, s, index),
    ensures
        heap_ordered(f, sifted_up(f, s, index)),
    decreases index,
{
    if index > 0 {
        let up = parent(index);
        let moved = s[index];
        let above = s[up];
        if outcome(f, above, moved) != Ordering::Greater {
            let t = exchanged(s, up, index);
            assert(at_least(f, moved, above)) by {
                if outcome(f, moved, above) == Ordering::Less {
                    assert(outcome(f, above, moved) == Ordering::Greater);
                }
            }
            assert(ordered_but_above(f, t, up)) by {
                assert forall|i: int| 0 < i < t.len() && i != up implies at_least(
                    f,
                    t[parent(i)],
                    #[trigger] t[i],
                ) by {
                    if i == index {
                    } else if parent(i) == up {
                        assert(at_least(f, above, s[i]));
                        assert(at_least(f, moved, above) && at_least(f, above, s[i]));
                    } else if parent(i) == index {
                        assert(at_least(f, s[parent(index)], s[i]));
                    } else {
                        assert(at_least(f, s[parent(i)], s[i]));
                    }
                }
                if up > 0 {
                    let far = s[parent(up)];
                    assert(at_least(f, far, s[up]));
                    assert forall|c: int| 0 < c < t.len() && parent(c) == up implies at_least(
                        f,
                        t[parent(up)],
                        #[trigger] t[c],
                    ) by {
                        if c != index {
                            assert(at_least(f, above, s[c]));
                            assert(at_least(f, far, above) && at_least(f, above, s[c]));
                        }
                    }
                }
            }
            lemma_sifted_up_settles(f, t, up);
        }
    }
}

/// Moving the element at `root` down gives the heap property from `root`
/// on where it held after `root`.
pub proof fn lemma_sifted_down_orders<T, F>(f: F, s: Seq<T>, root: int) where
    F: Fn(&T, &T) -> Ordering,

    requires
        is_priority_order::<T, F>(f),
        0 <= root,
        heap_from(f, s, root + 1),
    ensures
        heap_from(f, sifted_down(f, s, root), root),
{
    lemma_sifted_down_settles(f, s, root, root);
}

/// The pass from the bottom up gives the heap property where it held from
/// `next` on.
pub proof fn lemma_heapified_below_orders<T, F>(f: F, s: Seq<T>, next: int) where
    F: Fn(&T, &T) -> Ordering,

    requires
        is_priority_order::<T, F>(f),
        0 <= next,
        heap_from(f, s, next),
    ensures
        heap_ordered(f, heapified_below(f, s, next)),
    decreases next,
{
    if next > 0 {
        lemma_sifted_down_orders(f, s, next - 1);
        lemma_heapified_below_orders(f, sifted_down(f, s, next - 1), next - 1);
    }
}

/// A store that is laid out in one pass has the heap property.
pub proof fn lemma_heapified_orders<T, F>(f: F, s: Seq<T>) where F: Fn(&T, &T) -> Ordering
    requires
        is_priority_order::<T, F>(f),
    ensures
        heap_ordered(f, heapified(f, s)),
{
    lemma_heapified_below_orders(f, s, inner_nodes(s.len()));
}

/// A push keeps the heap property.
pub proof fn lemma_with_pushed_orders<T, F>(f: F, s: Seq<T>, item: T) where
    F: Fn(&T, &T) -> Ordering,

    requires
        is_priority_order::<T, F>(f),
        heap_ordered(f, s),
    ensures
        heap_ordered(f, with_pushed(f, s, item)),
{
    let grown = s.push(item);
    assert forall|i: int| 0 < i < grown.len() && i != grown.len() - 1 implies at_least(
        f,
        grown[parent(i)],
        #[trigger] grown[i],
    ) by {
        assert(at_least(f, s[parent(i)], s[i]));
    }
    lemma_sifted_up_settles(f, grown, grown.len() - 1);
}

/// Pushing the elements of `items` in turn keeps the heap property.
pub proof fn lemma_with_all_pushed_orders<T, F>(f: F, s: Seq<T>, items: Seq<T>) where
    F: Fn(&T, &T) -> Ordering,

    requires
        is_priority_order::<T, F>(f),
        heap_ordered(f, s),
    ensures
        heap_ordered(f, with_all_pushed(f, s, items)),
    decreases items.len(),
{
    if items.len() > 0 {
        lemma_with_all_pushed_orders(f, s, items.drop_last());
        lemma_with_pushed_orders(f, with_all_pushed(f, s, items.drop_last()), items.last());
    }
}

/// A pop keeps the heap property.
pub proof fn lemma_with_root_popped_orders<T, F>(f: F, s: Seq<T>) where
    F: Fn(&T, &T) -> Ordering,

    requires
        is_priority_order::<T, F>(f),
        heap_ordered(f, s),
    ensures
        heap_ordered(f, with_root_popped(f, s)),
{
    if s.len() > 0 {
        let cut = exchanged(s, 0, s.len() - 1).drop_last();
        assert forall|i: int| 0 < i < cut.len() && parent(i) >= 1 implies at_least(
            f,
            cut[parent(i)],
            #[trigger] cut[i],
        ) by {
            assert(at_least(f, s[parent(i)], s[i]));
        }
        lemma_sifted_down_orders(f, cut, 0);
    }
}

/// Replacing the root keeps the heap property.
pub proof fn lemma_with_top_updated_orders<T, F>(f: F, s: Seq<T>, item: T) where
    F: Fn(&T, &T) -> Ordering,

    requires
        is_priority_order::<T, F>(f),
        heap_ordered(f, s),
    ensures
        heap_ordered(f, with_top_updated(f, s, item)),
{
    if s.len() == 0 {
        lemma_with_pushed_orders(f, s, item);
    } else {
        let t = s.update(0, item);
        if outcome(f, s[0], item) == Ordering::Greater {
            assert forall|i: int| 0 < i < t.len() && parent(i) >= 1 implies at_least(
                f,
                t[parent(i)],
                #[trigger] t[i],
            ) by {
                assert(at_least(f, s[parent(i)], s[i]));
            }
            lemma_sifted_down_orders(f, t, 0);
        } else {
            assert(at_least(f, item, s[0])) by {
                if outcome(f, item, s[0]) == Ordering::Less {
                    assert(outcome(f, s[0], item) == Ordering::Greater);
                }
            }
            assert forall|i: int| 0 < i < t.len() implies at_least(
                f,
                t[parent(i)],
                #[trigger] t[i],
            ) by {
                assert(at_least(f, s[parent(i)], s[i]));
                if parent(i) == 0 {
                    assert(at_least(f, item, s[0]) && at_least(f, s[0], s[i]));
                }
            }
        }
    }
}

/// The root that a pop takes from a heap is ranked no lower than any
/// element that stays.
pub proof fn lemma_popped_root_dominates<T, F>(f: F, s: Seq<T>) where F: Fn(&T, &T) -> Ordering
    requires
        is_priority_order::<T, F>(f),
        heap_ordered(f, s),
        s.len() > 0,
    ensures
        dominates(f, s[0], with_root_popped(f, s)),
{
    broadcast use vstd::multiset::group_multiset_axioms;

    lemma_root_dominates_all(f, s);
    lemma_with_root_popped_holds(f, s);
    assert(with_root_popped(f, s).to_multiset().subset_of(s.to_multiset()));
    lemma_dominates_part(f, s[0], s, with_root_popped(f, s));
}

/// Draining a heap hands out its elements sorted: each is ranked no lower
/// than those that follow it.
pub proof fn lemma_drained_sorts<T, F>(f: F, s: Seq<T>) where F: Fn(&T, &T) -> Ordering
    requires
        is_priority_order::<T, F>(f),
        heap_ordered(f, s),
    ensures
        descending(f, drained(f, s)),
    decreases s.len(),
{
    broadcast use vstd::multiset::group_multiset_axioms;

    if s.len() > 0 {
        let rest = with_root_popped(f, s);
        let tail = drained(f, rest);
        let out = drained(f, s);
        lemma_sifted_down_keeps(f, exchanged(s, 0, s.len() - 1).drop_last(), 0);
        lemma_with_root_popped_orders(f, s);
        lemma_popped_root_dominates(f, s);
        lemma_drained_sorts(f, rest);
        lemma_drained_holds(f, rest);
        assert(out =~= seq![s[0]] + tail);
        assert(tail.to_multiset().subset_of(rest.to_multiset()));
        lemma_dominates_part(f, s[0], rest, tail);
        assert forall|i: int, j: int| 0 <= i < j < out.len() implies at_least(
            f,
            #[trigger] out[i],
            #[trigger] out[j],
        ) by {
            assert(out[j] == tail[j - 1]);
            if i == 0 {
                assert(out[0] == s[0]);
            } else {
                assert(out[i] == tail[i - 1]);
            }
        }
    }
}

/// Two sequences that hold the same elements, each sorted from the highest
/// rank down, agree position by position up to elements of the same rank.
pub proof fn lemma_sorted_agree<T, F>(f: F, a: Seq<T>, b: Seq<T>) where F: Fn(&T, &T) -> Ordering
    requires
        is_priority_order::<T, F>(f),
        descending(f, a),
        descending(f, b),
        a.to_multiset() == b.to_multiset(),
    ensures
        a.len() == b.len(),
        forall|i: int| 0 <= i < a.len() ==> level(f, #[trigger] a[i], b[i]),
    decreases a.len(),
{
    a.to_multiset_ensures();
    b.to_multiset_ensures();
    if a.len() > 0 {
        let n = a.len() - 1;
        let x = a[n];
        let y = b[n];
        assert(a.contains(x));
        assert(a.to_multiset().count(x) > 0);
        assert(b.to_multiset().count(x) > 0);
        assert(b.contains(x));
        let k = choose|k: int| 0 <= k < b.len() && b[k] == x;
        assert(b.contains(y));
        assert(b.to_multiset().count(y) > 0);
        assert(a.to_multiset().count(y) > 0);
        assert(a.contains(y));
        let m = choose|m: int| 0 <= m < a.len() && a[m] == y;
        lemma_reflexive(f, x);
        lemma_reflexive(f, y);
        assert(at_least(f, y, x)) by {
            if m < n {
                assert(at_least(f, a[m], a[n]));
            }
        }
        assert(at_least(f, x, y)) by {
            if k < n {
                assert(at_least(f, b[k], b[n]));
            }
        }
        let a2 = a.drop_last();
        let b2 = b.remove(k);
        assert(a2 =~= a.remove(n));
        vstd::seq_lib::to_multiset_remove(a, n);
        vstd::seq_lib::to_multiset_remove(b, k);
        assert forall|i: int, j: int| 0 <= i < j < a2.len() implies at_least(
            f,
            #[trigger] a2[i],
            #[trigger] a2[j],
        ) by {
            assert(at_least(f, a[i], a[j]));
        }
        assert forall|i: int, j: int| 0 <= i < j < b2.len() implies at_least(
            f,
            #[trigger] b2[i],
            #[trigger] b2[j],
        ) by {
            let bi = if i < k { i } else { i + 1 };
            let bj = if j < k { j } else { j + 1 };
            assert(b2[i] == b[bi] && b2[j] == b[bj]);
            assert(at_least(f, b[bi], b[bj]));
        }
        lemma_sorted_agree(f, a2, b2);
        assert forall|i: int| 0 <= i < a.len() implies level(f, #[trigger] a[i], b[i]) by {
            if i < n {
                assert(level(f, a2[i], b2[i]));
                assert(a2[i] == a[i]);
                if i < k {
                    assert(b2[i] == b[i]);
                } else {
                    let next = b[i + 1];
                    assert(b2[i] == next);
                    assert(at_least(f, b[i], next));
                    assert(at_least(f, next, y)) by {
                        if i + 1 < n {
                            assert(at_least(f, b[i + 1], b[n]));
                        }
                    }
                    assert(at_least(f, x, b[i])) by {
                        if k < i {
                            assert(at_least(f, b[k], b[i]));
                        } else {
                            lemma_reflexive(f, b[i]);
                        }
                    }
                    assert(at_least(f, next, y) && at_least(f, y, x));
                    assert(at_least(f, next, x) && at_least(f, x, b[i]));
                    assert(at_least(f, next, b[i]));
                    assert(at_least(f, a[i], next) && at_least(f, next, b[i]));
                    assert(at_least(f, b[i], next) && at_least(f, next, a[i]));
                }
            }
        }
    }
}

} // verus!
