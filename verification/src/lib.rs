//! A binary heap whose priority order is given by a comparison function
//! instead of an ordering that the element type carries itself.
//!
//! The element that the comparison function ranks highest sits at the root.
//! A heap that should hand out the smallest element first is built with a
//! comparison function whose arguments are reversed.

pub mod binary_heap;
pub mod keeping_order;
pub mod laws;
pub mod layout;
pub mod order;
pub mod slots;

pub use binary_heap::BinaryHeap;
pub use binary_heap::HeapIterator;
