//! Array-backed binary heaps (priority queues) in max and min order,
//! built on one sift-up / sift-down algorithm parameterised by direction.
pub mod heap;

pub use heap::{levels_from_len, Heap, HeapType, MaxHeap, MinHeap};
