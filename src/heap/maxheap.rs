use super::{Heap, HeapType};
use vstd::prelude::*;

verus! {

/// A heap whose root is its largest element.
pub struct MaxHeap<T: Ord + Copy> {
    item: Vec<T>,
}

impl<T: Ord + Copy> Heap for MaxHeap<T> {
    type Item = T;

    open spec fn heap_type() -> HeapType {
        HeapType::MaxHeap
    }

    fn kind() -> (r: HeapType) {
        HeapType::MaxHeap
    }

    closed spec fn items(&self) -> Seq<T> {
        self.item@
    }

    fn new() -> (r: Self) {
        MaxHeap { item: Vec::new() }
    }

    fn item(&self) -> (r: &Vec<T>) {
        &self.item
    }

    fn item_mutable(&mut self) -> (r: &mut Vec<T>) {
        &mut self.item
    }
}

} // verus!
