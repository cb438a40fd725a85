//! A double-ended priority queue stored as a min-max heap in one vector,
//! optionally capped at a fixed number of elements.
pub mod order;
pub mod index;
pub mod links;
pub mod heap;
pub mod laws;

pub use heap::MinMaxHeap;
pub use order::HeapOrd;
