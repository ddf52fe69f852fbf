//! The heap itself and the view that hands its elements out in order.

use std::cmp::Ordering;
use vstd::prelude::*;
use crate::keeping_order::lemma_drained_sorts;
use crate::keeping_order::lemma_heapified_orders;
use crate::keeping_order::lemma_popped_root_dominates;
use crate::keeping_order::lemma_with_pushed_orders;
use crate::keeping_order::lemma_with_root_popped_orders;
use crate::keeping_order::lemma_with_top_updated_orders;
use crate::layout::drained;
use crate::layout::heapified;
use crate::layout::heapified_below;
use crate::layout::lemma_drained_holds;
use crate::layout::lemma_heapified_below_keeps;
use crate::layout::lemma_sifted_down_keeps;
use crate::layout::lemma_with_pushed_holds;
use crate::layout::lemma_with_root_popped_holds;
use crate::layout::lemma_with_top_updated_holds;
use crate::layout::sifted_down;
use crate::layout::sifted_up;
use crate::layout::with_all_pushed;
use crate::layout::with_pushed;
use crate::layout::with_root_popped;
use crate::layout::with_top_updated;
use crate::order::copies;
use crate::order::descending;
use crate::order::dominates;
use crate::order::heap_ordered;
use crate::order::is_priority_order;
use crate::order::outcome;
use crate::slots::exchanged;
use crate::slots::from_position;
use crate::slots::inner_nodes;
use crate::slots::lemma_half;
use crate::slots::lemma_nothing_held;
use crate::slots::lemma_parent_shift;
use crate::slots::lemma_right_child;
use crate::slots::parent;
use crate::slots::pos;
use crate::slots::swap_slots;
use crate::slots::with_root_replaced;
use crate::slots::without_root;

verus! {

/// A binary heap kept in a vector, level by level, and ordered by a
/// comparison function. The element that the function ranks highest is at
/// position 0.
#[derive(Debug, Clone)]
pub struct BinaryHeap<T, F> {
    data: Vec<T>,
    func: F,
}

impl<T, F> View for BinaryHeap<T, F> {
    type V = Seq<T>;

    /// The elements in the order of the backing store.
    closed spec fn view(&self) -> Seq<T> {
        self.data@
    }
}

impl<T, F> BinaryHeap<T, F> {
    /// The comparison function that the heap was made with.
    pub closed spec fn comparator(&self) -> F {
        self.func
    }

    /// The comparison function is fit to order a heap.
    pub open spec fn wf(&self) -> bool where F: Fn(&T, &T) -> Ordering {
        is_priority_order::<T, F>(self.comparator())
    }

    /// The elements are laid out with the heap property.
    pub open spec fn is_heap(&self) -> bool where F: Fn(&T, &T) -> Ordering {
        heap_ordered(self.comparator(), self@)
    }

    /// An empty heap ordered by `func`.
    pub fn new(func: F) -> (heap: Self) where F: Fn(&T, &T) -> Ordering
        requires
            is_priority_order::<T, F>(func),
        ensures
            heap.wf(),
            heap.comparator() == func,
            heap@ == Seq::<T>::empty(),
            heap.is_heap(),
    {
        BinaryHeap { data: Vec::new(), func }
    }

    /// The number of elements.
    pub fn len(&self) -> (n: usize)
        ensures
            n == self@.len(),
    {
        self.data.len()
    }

    /// The answer of the comparison function for the elements at positions
    /// `x` and `y`.
    fn compare(&self, x: usize, y: usize) -> (r: Ordering) where F: Fn(&T, &T) -> Ordering
        requires
            self.wf(),
            x < self@.len(),
            y < self@.len(),
        ensures
            r == outcome(self.comparator(), self@[pos(x)], self@[pos(y)]),
    {
        (self.func)(&self.data[x], &self.data[y])
    }

    /// Moves the element at `root` down until neither child outranks it.
    fn sift_down(&mut self, root: usize) where F: Fn(&T, &T) -> Ordering
        requires
            old(self).wf(),
        ensures
            final(self).comparator() == old(self).comparator(),
            final(self)@ == sifted_down(old(self).comparator(), old(self)@, pos(root)),
    {
        let ghost f = self.func;
        let len: usize = self.data.len();
        let mut hole: usize = root;
        proof {
            lemma_half(len);
        }
        while hole < (len >> 1)
            invariant
                self.wf(),
                self.func == f,
                f == old(self).func,
                self.data@.len() == len,
                len >> 1 == len / 2,
                sifted_down(f, self.data@, pos(hole)) == sifted_down(
                    f,
                    old(self).data@,
                    pos(root),
                ),
            decreases len - hole,
        {
            proof {
                lemma_right_child(hole);
            }
            let right: usize = (hole + 1) << 1;
            let left: usize = right - 1;
            let child: usize = if right < len && matches!(
                self.compare(right, left),
                Ordering::Greater
            ) {
                right
            } else {
                left
            };
            if matches!(self.compare(child, hole), Ordering::Greater) {
                swap_slots(&mut self.data, hole, child);
                hole = child;
            } else {
                return ;
            }
        }
    }

    /// Lays the elements out with the heap property, from the last node
    /// that has a child up to the root.
    fn heapify(&mut self) where F: Fn(&T, &T) -> Ordering
        requires
            old(self).wf(),
        ensures
            final(self).comparator() == old(self).comparator(),
            final(self)@ == heapified(old(self).comparator(), old(self)@),
    {
        let len: usize = self.data.len();
        if len > 1 {
            proof {
                lemma_half(len);
            }
            let mut next: usize = len >> 1;
            while next > 0
                invariant
                    self.wf(),
                    self.func == old(self).func,
                    heapified_below(self.func, self.data@, pos(next)) == heapified(
                        self.func,
                        old(self).data@,
                    ),
                decreases next,
            {
                next = next - 1;
                self.sift_down(next);
            }
        }
    }

    /// A heap over the elements of `data`, ordered by `func`, built in one
    /// pass from the bottom up.
    pub fn from_array(data: Vec<T>, func: F) -> (heap: Self) where F: Fn(&T, &T) -> Ordering
        requires
            is_priority_order::<T, F>(func),
        ensures
            heap.wf(),
            heap.comparator() == func,
            heap@ == heapified(func, data@),
            heap@.len() == data@.len(),
            heap@.to_multiset() == data@.to_multiset(),
            heap.is_heap(),
    {
        let mut heap = BinaryHeap { data, func };
        heap.heapify();
        proof {
            lemma_heapified_below_keeps(func, data@, inner_nodes(data@.len()));
            lemma_heapified_orders(func, data@);
        }
        heap
    }

    /// The element at the root, if there is one.
    pub fn peak(&self) -> (top: Option<&T>)
        ensures
            self@.len() == 0 ==> top.is_none(),
            self@.len() > 0 ==> top == Some(&self@[0]),
    {
        if self.data.len() == 0 {
            None
        } else {
            Some(&self.data[0])
        }
    }

    /// Gives up the backing store as it stands.
    pub fn into_inner(self) -> (data: Vec<T>)
        ensures
            data@ == self@,
    {
        self.data
    }

    /// Removes the element at the root and hands it out, or hands out
    /// `None` where the heap is empty. The last element takes the place of
    /// the root and is moved down.
    pub fn pop(&mut self) -> (value: Option<T>) where F: Fn(&T, &T) -> Ordering
        requires
            old(self).wf(),
        ensures
            final(self).wf(),
            final(self).comparator() == old(self).comparator(),
            old(self)@.len() == 0 ==> value.is_none(),
            old(self)@.len() > 0 ==> value == Some(old(self)@[0]),
            final(self)@ == with_root_popped(old(self).comparator(), old(self)@),
            old(self)@.len() > 0 ==> final(self)@.len() == old(self)@.len() - 1,
            final(self)@.to_multiset() == without_root(old(self)@),
            old(self).is_heap() ==> final(self).is_heap(),
            old(self).is_heap() && old(self)@.len() > 0 ==> dominates(
                old(self).comparator(),
                old(self)@[0],
                final(self)@,
            ),
    {
        let len: usize = self.data.len();
        if len == 0 {
            return None;
        }
        let last: usize = len - 1;
        let ghost f = self.func;
        let ghost before = self.data@;
        swap_slots(&mut self.data, 0, last);
        let temp = self.data.pop();
        proof {
            assert(self.data@ =~= exchanged(before, 0, before.len() - 1).drop_last());
        }
        if self.data.len() > 1 {
            self.sift_down(0);
        }
        proof {
            lemma_sifted_down_keeps(f, exchanged(before, 0, before.len() - 1).drop_last(), 0);
            lemma_with_root_popped_holds(f, before);
            if heap_ordered(f, before) {
                lemma_with_root_popped_orders(f, before);
                lemma_popped_root_dominates(f, before);
            }
        }
        temp
    }

    /// Adds `item`: it is appended and then moved up while its parent does
    /// not outrank it, so that it passes a parent of its own rank.
    pub fn push(&mut self, item: T) where F: Fn(&T, &T) -> Ordering
        requires
            old(self).wf(),
        ensures
            final(self).wf(),
            final(self).comparator() == old(self).comparator(),
            final(self)@ == with_pushed(old(self).comparator(), old(self)@, item),
            final(self)@.len() == old(self)@.len() + 1,
            final(self)@.to_multiset() == old(self)@.to_multiset().insert(item),
            old(self).is_heap() ==> final(self).is_heap(),
    {
        let ghost f = self.func;
        let mut index: usize = self.data.len();
        self.data.push(item);
        let ghost grown = self.data@;
        while index > 0
            invariant
                self.wf(),
                self.func == f,
                f == old(self).func,
                self.data@.len() == grown.len(),
                index < self.data@.len(),
                sifted_up(f, self.data@, pos(index)) == sifted_up(f, grown, grown.len() - 1),
            ensures
                self.data@ == sifted_up(f, grown, grown.len() - 1),
            decreases index,
        {
            proof {
                lemma_parent_shift(index);
            }
            let up: usize = (index - 1) >> 1;
            if matches!(self.compare(up, index), Ordering::Greater) {
                break ;
            }
            swap_slots(&mut self.data, up, index);
            index = up;
        }
        proof {
            lemma_with_pushed_holds(f, old(self).data@, item);
            if heap_ordered(f, old(self).data@) {
                lemma_with_pushed_orders(f, old(self).data@, item);
            }
        }
    }

    /// Puts `item` in the place of the root. On an empty heap this is
    /// `push`. Where the old root outranks `item`, the item is moved down to
    /// its place; otherwise it stays at the root and nothing else moves.
    pub fn update_top(&mut self, item: T) where F: Fn(&T, &T) -> Ordering
        requires
            old(self).wf(),
        ensures
            final(self).wf(),
            final(self).comparator() == old(self).comparator(),
            final(self)@ == with_top_updated(old(self).comparator(), old(self)@, item),
            old(self)@.len() == 0 ==> final(self)@.len() == 1,
            old(self)@.len() > 0 ==> final(self)@.len() == old(self)@.len(),
            final(self)@.to_multiset() == with_root_replaced(old(self)@, item),
            old(self).is_heap() ==> final(self).is_heap(),
    {
        proof {
            lemma_with_top_updated_holds(self.func, self.data@, item);
            lemma_sifted_down_keeps(self.func, self.data@.update(0, item), 0);
            if heap_ordered(self.func, self.data@) {
                lemma_with_top_updated_orders(self.func, self.data@, item);
            }
        }
        if self.data.len() == 0 {
            self.push(item);
            return ;
        }
        if matches!((self.func)(&self.data[0], &item), Ordering::Greater) {
            self.data[0] = item;
            self.sift_down(0);
        } else {
            self.data[0] = item;
        }
    }

    /// Pushes a clone of each element of `items`, one after the other.
    pub fn extend(&mut self, items: &[T]) where T: Clone, F: Fn(&T, &T) -> Ordering
        requires
            old(self).wf(),
        ensures
            final(self).wf(),
            final(self).comparator() == old(self).comparator(),
            final(self)@.len() == old(self)@.len() + items@.len(),
            exists|added: Seq<T>|
                #[trigger] copies(items@, added) && final(self)@ == with_all_pushed(
                    old(self).comparator(),
                    old(self)@,
                    added,
                ) && final(self)@.to_multiset() == old(self)@.to_multiset().add(
                    added.to_multiset(),
                ),
            old(self).is_heap() ==> final(self).is_heap(),
    {
        let ghost mut added: Seq<T> = Seq::empty();
        let mut next: usize = 0;
        proof {
            broadcast use vstd::multiset::group_multiset_axioms;

            lemma_nothing_held(added);
            assert(self.data@.to_multiset().add(added.to_multiset()) =~= self.data@.to_multiset());
        }
        while next < items.len()
            invariant
                self.wf(),
                self.func == old(self).func,
                next <= items@.len(),
                added.len() == next,
                forall|i: int| 0 <= i < next ==> cloned(items@[i], #[trigger] added[i]),
                self.data@.len() == old(self).data@.len() + next,
                self.data@ == with_all_pushed(self.func, old(self).data@, added),
                self.data@.to_multiset() == old(self).data@.to_multiset().add(added.to_multiset()),
                heap_ordered(self.func, old(self).data@) ==> heap_ordered(self.func, self.data@),
            decreases items@.len() - next,
        {
            let item = items[next].clone();
            proof {
                broadcast use vstd::seq_lib::to_multiset_build;
                broadcast use vstd::multiset::group_multiset_axioms;

                assert(old(self).data@.to_multiset().add(added.to_multiset()).insert(item)
                    =~= old(self).data@.to_multiset().add(added.push(item).to_multiset()));
                assert(added.push(item).drop_last() =~= added);
                added = added.push(item);
            }
            self.push(item);
            next = next + 1;
        }
        proof {
            assert(copies(items@, added));
        }
    }

    /// Appends a clone of each element of `items` and then lays the whole
    /// store out anew in one pass.
    pub fn bulk_extend(&mut self, items: &[T]) where T: Clone, F: Fn(&T, &T) -> Ordering
        requires
            old(self).wf(),
        ensures
            final(self).wf(),
            final(self).comparator() == old(self).comparator(),
            final(self)@.len() == old(self)@.len() + items@.len(),
            exists|added: Seq<T>|
                #[trigger] copies(items@, added) && final(self)@ == heapified(
                    old(self).comparator(),
                    old(self)@ + added,
                ) && final(self)@.to_multiset() == old(self)@.to_multiset().add(
                    added.to_multiset(),
                ),
            final(self).is_heap(),
    {
        let ghost before = self.data@;
        self.data.extend_from_slice(items);
        let ghost joined = self.data@;
        self.heapify();
        proof {
            let added = from_position(joined, before.len());
            assert(joined =~= before + added);
            lemma_heapified_below_keeps(self.func, joined, inner_nodes(joined.len()));
            lemma_heapified_orders(self.func, joined);
            vstd::seq_lib::lemma_multiset_commutative(before, added);
            assert(copies(items@, added));
            assert(self.data@.to_multiset() == before.to_multiset().add(added.to_multiset()));
        }
    }

    /// The element at position `index` of the backing store.
    pub fn index(&self, index: usize) -> (element: &T)
        requires
            index < self@.len(),
        ensures
            *element == self@[pos(index)],
    {
        &self.data[index]
    }

    /// Access to the element at position `index` of the backing store.
    /// Writing through it goes past the heap property: the store is the old
    /// one with that element replaced, whatever its rank.
    pub fn index_mut(&mut self, index: usize) -> (element: &mut T)
        requires
            index < old(self)@.len(),
        ensures
            *element == old(self)@[pos(index)],
            final(self)@ == old(self)@.update(pos(index), *final(element)),
            final(self).comparator() == old(self).comparator(),
    {
        &mut self.data[index]
    }

    /// Turns the heap into the view that hands its elements out from the
    /// highest rank down.
    pub fn into_iter(self) -> (iter: HeapIterator<T, F>)
        ensures
            iter.heap() == self,
    {
        HeapIterator { inner: self }
    }
}

/// Owns a heap and hands its elements out one by one, the highest rank
/// first, until the heap is empty.
pub struct HeapIterator<T, F> {
    inner: BinaryHeap<T, F>,
}

impl<T, F> HeapIterator<T, F> {
    /// The heap of the elements that are still to come.
    pub closed spec fn heap(&self) -> BinaryHeap<T, F> {
        self.inner
    }

    /// Hands out the next element: the root of the heap, which is removed
    /// from it. `None` where nothing is left.
    pub fn next(&mut self) -> (value: Option<T>) where F: Fn(&T, &T) -> Ordering
        requires
            old(self).heap().wf(),
        ensures
            final(self).heap().wf(),
            final(self).heap().comparator() == old(self).heap().comparator(),
            old(self).heap()@.len() == 0 ==> value.is_none() && final(self).heap()@ == old(self).heap()@,
            old(self).heap()@.len() > 0 ==> value == Some(old(self).heap()@[0]) && final(self).heap()@.len() == old(self).heap()@.len() - 1,
            final(self).heap()@ == with_root_popped(
                old(self).heap().comparator(),
                old(self).heap()@,
            ),
            final(self).heap()@.to_multiset() == without_root(old(self).heap()@),
            old(self).heap().is_heap() ==> final(self).heap().is_heap(),
            old(self).heap().is_heap() && old(self).heap()@.len() > 0 ==> dominates(
                old(self).heap().comparator(),
                old(self).heap()@[0],
                final(self).heap()@,
            ),
    {
        self.inner.pop()
    }

    /// Hands out all the elements that are left, in the order in which
    /// `next` would.
    pub fn collect(self) -> (out: Vec<T>) where F: Fn(&T, &T) -> Ordering
        requires
            self.heap().wf(),
        ensures
            out@ == drained(self.heap().comparator(), self.heap()@),
            out@.len() == self.heap()@.len(),
            out@.to_multiset() == self.heap()@.to_multiset(),
            self.heap().is_heap() ==> descending(self.heap().comparator(), out@),
    {
        let ghost f = self.inner.func;
        let ghost all = self.inner.data@;
        let mut iter = self;
        let mut out: Vec<T> = Vec::new();
        proof {
            if heap_ordered(f, all) {
                lemma_drained_sorts(f, all);
            }
            lemma_drained_holds(f, all);
        }
        loop
            invariant
                iter.inner.wf(),
                iter.inner.func == f,
                out@ + drained(f, iter.inner.data@) =~= drained(f, all),
            ensures
                out@ == drained(f, all),
            decreases iter.inner.data@.len(),
        {
            let ghost rest = iter.inner.data@;
            match iter.next() {
                None => {
                    break ;
                },
                Some(item) => {
                    out.push(item);
                },
            }
        }
        out
    }
}

} // verus!
