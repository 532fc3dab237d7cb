use super::{Heap, HeapType};
use vstd::prelude::*;

verus! {

/// A heap whose root is its smallest element.
pub struct MinHeap<T: Ord + Copy> {
    item: Vec<T>,
}

impl<T: Ord + Copy> Heap for MinHeap<T> {
    type Item = T;

    open spec fn heap_type() -> HeapType {
        HeapType::MinHeap
    }

    fn kind() -> (r: HeapType) {
        HeapType::MinHeap
    }

    closed spec fn items(&self) -> Seq<T> {
        self.item@
    }

    fn new() -> (r: Self) {
        MinHeap { item: Vec::new() }
    }

    fn item(&self) -> (r: &Vec<T>) {
        &self.item
    }

    fn item_mutable(&mut self) -> (r: &mut Vec<T>) {
        &mut self.item
    }
}

} // verus!
