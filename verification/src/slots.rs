//! Positions in the backing store, and the exchange of two of them.

use vstd::multiset::Multiset;
use vstd::prelude::*;

verus! {

/// The position `i` as a mathematical integer.
#[verifier::inline]
pub open spec fn pos(i: usize) -> int {
    i as int
}

/// The position of the node above position `i` in the tree that the backing
/// store lays out level by level.
pub open spec fn parent(i: int) -> int {
    (i - 1) / 2
}

/// The number of positions of a store of `n` elements that have a child:
/// the positions before this one do, this one and those after it do not.
pub open spec fn inner_nodes(n: nat) -> int {
    (n / 2) as int
}

/// `s` with the elements at positions `a` and `b` exchanged.
pub open spec fn exchanged<T>(s: Seq<T>, a: int, b: int) -> Seq<T>
    recommends
        0 <= a < s.len(),
        0 <= b < s.len(),
{
    s.update(a, s[b]).update(b, s[a])
}

/// What `s` holds from position `n` on.
pub open spec fn from_position<T>(s: Seq<T>, n: nat) -> Seq<T>
    recommends
        n <= s.len(),
{
    s.subrange(n as int, s.len() as int)
}

/// What a store that held `s` holds once its first element is taken away;
/// for an empty store, nothing changes.
pub open spec fn without_root<T>(s: Seq<T>) -> Multiset<T> {
    if s.len() == 0 {
        s.to_multiset()
    } else {
        s.to_multiset().remove(s[0])
    }
}

/// What a store that held `s` holds once `item` stands in the place of its
/// first element; for an empty store, `item` alone.
pub open spec fn with_root_replaced<T>(s: Seq<T>, item: T) -> Multiset<T> {
    if s.len() == 0 {
        s.to_multiset().insert(item)
    } else {
        s.update(0, item).to_multiset()
    }
}

/// An empty sequence holds the empty multiset.
pub proof fn lemma_nothing_held<T>(s: Seq<T>)
    requires
        s.len() == 0,
    ensures
        s.to_multiset() == Multiset::<T>::empty(),
{
    s.to_multiset_ensures();
    vstd::multiset::lemma_multiset_empty_len(s.to_multiset());
}

/// Exchanging two elements keeps the multiset of elements.
pub proof fn lemma_exchanged_multiset<T>(s: Seq<T>, a: int, b: int)
    requires
        0 <= a < s.len(),
        0 <= b < s.len(),
    ensures
        exchanged(s, a, b).to_multiset() == s.to_multiset(),
        exchanged(s, a, b).len() == s.len(),
{
    broadcast use vstd::seq_lib::to_multiset_update;
    broadcast use vstd::multiset::group_multiset_axioms;

    let mid = s.update(a, s[b]);
    assert(mid.to_multiset() == s.to_multiset().insert(s[b]).remove(s[a]));
    assert(mid[b] == if a == b { s[b] } else { s[b] });
    assert(exchanged(s, a, b).to_multiset() == mid.to_multiset().insert(s[a]).remove(mid[b]));
    s.to_multiset_ensures();
    assert(s.to_multiset().count(s[a]) > 0);
    assert(s.to_multiset().count(s[b]) > 0);
    assert(exchanged(s, a, b).to_multiset() =~= s.to_multiset());
}

/// Calls `<[T]>::swap` of the standard library, which exchanges the elements
/// at two positions of a slice and panics when a position is out of bounds.
/// The contract claims that the two elements trade places and that every
/// other element stays where it is.
#[verifier::external_body]
pub(crate) fn swap_slots<T>(data: &mut Vec<T>, a: usize, b: usize)
    requires
        a < old(data)@.len(),
        b < old(data)@.len(),
    ensures
        final(data)@ == exchanged(old(data)@, a as int, b as int),
{
    data.swap(a, b);
}

/// Halving by a shift is halving by division.
pub proof fn lemma_half(n: usize)
    ensures
        n >> 1 == n / 2,
{
    assert(n >> 1 == n / 2) by (bit_vector);
}

/// The parent of a position below the root, computed by a shift.
pub proof fn lemma_parent_shift(index: usize)
    requires
        index > 0,
    ensures
        ((index - 1) as usize) >> 1 == parent(index as int),
{
    lemma_half((index - 1) as usize);
}

/// The right child of `hole`, computed by a shift, is at `2 * hole + 2`
/// where that position fits.
pub proof fn lemma_right_child(hole: usize)
    requires
        2 * hole + 2 <= usize::MAX,
    ensures
        hole + 1 <= usize::MAX,
        ((hole + 1) as usize) << 1 == 2 * hole + 2,
{
    let n: usize = (hole + 1) as usize;
    assert(n << 1 == (2 * n) as usize) by (bit_vector);
}

} // verus!
