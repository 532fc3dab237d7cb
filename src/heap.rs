use vstd::arithmetic::power2::pow2;
use vstd::laws_cmp::obeys_cmp;
use vstd::prelude::*;

mod laws;
mod maxheap;
mod minheap;
mod order;
mod sift;

pub use laws::{
    count_pops, count_pushes, lemma_drain_sorted, lemma_from_vec_round_trip,
    lemma_push_then_drain_sorted, lemma_size_accounting, lemma_sorted_unique, op_run, pop_run,
    push_run, sorted_by,
};
pub use maxheap::MaxHeap;
pub use minheap::MinHeap;
pub use order::{
    check_dominates, dominates, lemma_dominates_antisym, lemma_dominates_refl,
    lemma_dominates_total, lemma_dominates_trans,
};
pub use sift::{
    heap_except_up, heap_from, heapify_spec, is_heap, sift_down_spec, sift_up_spec, upper_child, lemma_is_heap_from_zero, lemma_root_dominates, parent,
    sift_down, sift_up,
};

verus! {

/// Direction of a heap's ordering: which of two elements belongs nearer the root.
#[derive(Clone, Copy, Debug)]
pub enum HeapType {
    MaxHeap,
    MinHeap,
}

/// End (exclusive) of the array slice that forms level `k` of `s`.
pub open spec fn level_end<T>(s: Seq<T>, k: nat) -> int {
    if pow2(k + 1) - 1 < s.len() {
        pow2(k + 1) - 1
    } else {
        s.len() as int
    }
}

/// Level `k` of the tree stored in `s`: indices `2^k - 1` up to
/// `2^(k+1) - 2`, clipped to the length.
pub open spec fn level_row<T>(s: Seq<T>, k: nat) -> Seq<T> {
    s.subrange(pow2(k) - 1, level_end(s, k))
}

/// One push: `after` holds the elements of `before` and `x`, in heap order.
pub open spec fn push_step<T: Ord>(kind: HeapType, before: Seq<T>, x: T, after: Seq<T>) -> bool {
    &&& after.to_multiset() == before.to_multiset().insert(x)
    &&& is_heap(kind, after)
}

/// One pop: `x` left `before`, dominates everything that stayed, and what
/// stayed is in heap order.
pub open spec fn pop_step<T: Ord>(kind: HeapType, before: Seq<T>, x: T, after: Seq<T>) -> bool {
    &&& before.to_multiset() == after.to_multiset().insert(x)
    &&& forall|j: int| 0 <= j < after.len() ==> #[trigger] dominates(kind, x, after[j])
    &&& is_heap(kind, after)
}

/// Overwriting the root with the last element and dropping the last slot
/// removes exactly the root's value.
proof fn lemma_drop_root_multiset<T>(s: Seq<T>)
    requires
        s.len() > 0,
    ensures
        s.update(0, s[s.len() - 1]).drop_last().to_multiset() == s.to_multiset().remove(s[0]),
{
    broadcast use vstd::seq_lib::group_to_multiset_ensures;
    broadcast use vstd::multiset::group_multiset_axioms;

    let n = s.len();
    let t = s.update(0, s[n - 1]);
    assert(t.to_multiset() == s.to_multiset().insert(s[n - 1]).remove(s[0]));
    assert(t.drop_last() =~= t.remove(n - 1));
    assert(t.remove(n - 1).to_multiset() == t.to_multiset().remove(t[n - 1]));
    assert(t[n - 1] == s[n - 1]);
    assert(s.to_multiset().insert(s[n - 1]).remove(s[0]).remove(s[n - 1]) =~= s.to_multiset().remove(
        s[0],
    ));
}

/// Taking the root out of a heap is a pop step.
proof fn lemma_pop_root<T: Ord>(kind: HeapType, before: Seq<T>, after: Seq<T>)
    requires
        obeys_cmp::<T>(),
        before.len() > 0,
        is_heap(kind, before),
        is_heap(kind, after),
        after.to_multiset() == before.to_multiset().remove(before[0]),
    ensures
        pop_step(kind, before, before[0], after),
{
    broadcast use vstd::seq_lib::group_to_multiset_ensures;
    broadcast use vstd::multiset::group_multiset_axioms;

    assert(before.to_multiset().count(before[0]) > 0);
    assert(before.to_multiset() =~= after.to_multiset().insert(before[0]));
    assert forall|j: int| 0 <= j < after.len() implies #[trigger] dominates(kind, before[0], after[j]) by {
        assert(after.to_multiset().count(after[j]) > 0);
        assert(before.to_multiset().count(after[j]) > 0);
        let idx = choose|idx: int| 0 <= idx < before.len() && before[idx] == after[j];
        lemma_root_dominates(kind, before, idx);
    }
}

/// Heap: a complete binary tree stored densely in a vector (the children of
/// node `i` sit at `2i + 1` and `2i + 2`) in which every node dominates its
/// children under the direction `heap_type()`. No order holds between siblings.
///
/// Every operation that compares elements asks that `Item`'s `Ord` be a total
/// order (`obeys_cmp`), and every operation keeps the heap property.
pub trait Heap: Sized {
    type Item: Ord + Copy;

    /// Direction of this heap, fixed for the type.
    spec fn heap_type() -> HeapType;

    /// Direction of this heap.
    fn kind() -> (r: HeapType)
        ensures
            r == Self::heap_type(),
    ;

    /// The stored elements, in array order.
    spec fn items(&self) -> Seq<Self::Item>;

    /// An empty heap.
    fn new() -> (r: Self)
        ensures
            r.items() == Seq::<Self::Item>::empty(),
    ;

    /// Read access to the backing vector.
    fn item(&self) -> (r: &Vec<Self::Item>)
        ensures
            r@ == self.items(),
    ;

    /// Write access to the backing vector; whoever writes through it answers
    /// for the heap property.
    fn item_mutable(&mut self) -> (r: &mut Vec<Self::Item>)
        ensures
            r@ == old(self).items(),
            final(self).items() == final(r)@,
    ;

    /// Sift-down from the root, as `sift_down_spec` describes: restores the
    /// heap property when only the root may be out of place. An empty heap
    /// stays as it is.
    fn shift_down(&mut self)
        requires
            obeys_cmp::<Self::Item>(),
        ensures
            final(self).items() == sift_down_spec(Self::heap_type(), old(self).items(), 0),
            heap_from(Self::heap_type(), old(self).items(), 1) ==> is_heap(
                Self::heap_type(),
                final(self).items(),
            ),
            final(self).items().to_multiset() == old(self).items().to_multiset(),
            final(self).items().len() == old(self).items().len(),
    {
        let v = self.item_mutable();
        if v.len() == 0 {
            return;
        }
        sift_down(v, Self::kind(), 0);
        proof {
            lemma_is_heap_from_zero(Self::heap_type(), final(self).items());
        }
    }

    /// Sift-up from the last element, as `sift_up_spec` describes: restores
    /// the heap property when only the last element may be out of place. An
    /// empty heap stays as it is.
    fn shift_up(&mut self)
        requires
            obeys_cmp::<Self::Item>(),
        ensures
            final(self).items() == sift_up_spec(
                Self::heap_type(),
                old(self).items(),
                old(self).items().len() - 1,
            ),
            heap_except_up(Self::heap_type(), old(self).items(), old(self).items().len() - 1)
                ==> is_heap(Self::heap_type(), final(self).items()),
            final(self).items().to_multiset() == old(self).items().to_multiset(),
            final(self).items().len() == old(self).items().len(),
    {
        let v = self.item_mutable();
        if v.len() == 0 {
            return;
        }
        let last = v.len() - 1;
        sift_up(v, Self::kind(), last);
    }

    /// Adds `item` as the next leaf and sifts it up.
    fn push(&mut self, item: Self::Item)
        requires
            obeys_cmp::<Self::Item>(),
            is_heap(Self::heap_type(), old(self).items()),
            old(self).items().len() < usize::MAX,
        ensures
            final(self).items() == sift_up_spec(
                Self::heap_type(),
                old(self).items().push(item),
                old(self).items().len() as int,
            ),
            push_step(Self::heap_type(), old(self).items(), item, final(self).items()),
            final(self).items().len() == old(self).items().len() + 1,
    {
        let ghost before = self.items();
        self.item_mutable().push(item);
        proof {
            let s = self.items();
            lemma_is_heap_from_zero(Self::heap_type(), before);
            assert(s =~= before.push(item));
            vstd::seq_lib::to_multiset_build(before, item);
            assert forall|c: int| 0 < c < s.len() && c != s.len() - 1 implies dominates(
                Self::heap_type(),
                s[parent(c)],
                #[trigger] s[c],
            ) by {
                assert(s[c] == before[c]);
                assert(dominates(Self::heap_type(), before[parent(c)], before[c]));
            }
        }
        self.shift_up();
    }

    /// Removes and returns the root, or `None` on an empty heap.
    fn pop(&mut self) -> (r: Option<Self::Item>)
        requires
            obeys_cmp::<Self::Item>(),
            is_heap(Self::heap_type(), old(self).items()),
        ensures
            old(self).items().len() == 0 ==> r is None && final(self).items() == old(self).items(),
            old(self).items().len() > 0 ==> final(self).items() == sift_down_spec(
                Self::heap_type(),
                old(self).items().update(0, old(self).items().last()).drop_last(),
                0,
            ),
            old(self).items().len() > 0 ==> r == Some(old(self).items()[0]) && pop_step(
                Self::heap_type(),
                old(self).items(),
                old(self).items()[0],
                final(self).items(),
            ),
            final(self).items().len() == old(self).items().len() - if r is Some { 1int } else { 0int },
            is_heap(Self::heap_type(), final(self).items()),
    {
        let ghost before = self.items();
        let n = self.item().len();
        if n == 0 {
            return None;
        }
        let v = self.item_mutable();
        let last = v[n - 1];
        let root = v[0];
        v[0] = last;
        v.pop();
        proof {
            let s = v@;
            assert(s =~= before.update(0, before[n - 1]).drop_last());
            lemma_drop_root_multiset(before);
            lemma_is_heap_from_zero(Self::heap_type(), before);
            assert forall|c: int| 0 < c < s.len() && parent(c) >= 1 implies dominates(
                Self::heap_type(),
                s[parent(c)],
                #[trigger] s[c],
            ) by {
                assert(dominates(Self::heap_type(), before[parent(c)], before[c]));
            }
        }
        self.shift_down();
        proof {
            lemma_is_heap_from_zero(Self::heap_type(), self.items());
            lemma_pop_root(Self::heap_type(), before, self.items());
        }
        Some(root)
    }

    /// The root without removing it, or `None` on an empty heap. The root
    /// dominates every element.
    fn peek(&self) -> (r: Option<Self::Item>)
        ensures
            self.items().len() == 0 ==> r is None,
            self.items().len() > 0 ==> r == Some(self.items()[0]),
            obeys_cmp::<Self::Item>() && is_heap(Self::heap_type(), self.items()) ==> (r matches Some(
                x,
            ) ==> forall|j: int|
                0 <= j < self.items().len() ==> #[trigger] dominates(Self::heap_type(), x, self.items()[j])),
    {
        let v = self.item();
        if v.len() == 0 {
            None
        } else {
            proof {
                if obeys_cmp::<Self::Item>() && is_heap(Self::heap_type(), self.items()) {
                    assert forall|j: int| 0 <= j < self.items().len() implies #[trigger] dominates(
                        Self::heap_type(),
                        self.items()[0],
                        self.items()[j],
                    ) by {
                        lemma_root_dominates(Self::heap_type(), self.items(), j);
                    }
                }
            }
            Some(v[0])
        }
    }

    /// Number of elements.
    fn len(&self) -> (r: usize)
        ensures
            r == self.items().len(),
    {
        self.item().len()
    }

    /// Whether the heap holds no element.
    fn is_empty(&self) -> (r: bool)
        ensures
            r == (self.items().len() == 0),
    {
        self.len() == 0
    }

    /// Removes every element.
    fn clear(&mut self)
        ensures
            final(self).items() == Seq::<Self::Item>::empty(),
    {
        self.item_mutable().clear();
    }

    /// A heap holding exactly the elements of `vec`, built bottom-up: each
    /// node that has a child is sifted down, from the last such node to the root.
    fn from_vec(vec: &[Self::Item]) -> (r: Self)
        requires
            obeys_cmp::<Self::Item>(),
        ensures
            r.items() == heapify_spec(Self::heap_type(), vec@, (vec@.len() / 2) as int),
            r.items().to_multiset() == vec@.to_multiset(),
            is_heap(Self::heap_type(), r.items()),
    {
        let mut init = Self::new();
        let v = init.item_mutable();
        let n = vec.len();
        let mut i: usize = 0;
        while i < n
            invariant
                n == vec@.len(),
                i <= n,
                v@ == vec@.subrange(0, i as int),
            decreases n - i,
        {
            v.push(vec[i]);
            i = i + 1;
            assert(v@ =~= vec@.subrange(0, i as int));
        }
        assert(v@ =~= vec@);
        let mut k: usize = n / 2;
        while k > 0
            invariant
                obeys_cmp::<Self::Item>(),
                n == v@.len(),
                k <= n / 2,
                heap_from(Self::heap_type(), v@, k as int),
                heapify_spec(Self::heap_type(), v@, k as int) == heapify_spec(
                    Self::heap_type(),
                    vec@,
                    (n / 2) as int,
                ),
                v@.to_multiset() == vec@.to_multiset(),
            decreases k,
        {
            k = k - 1;
            sift_down(v, Self::kind(), k);
        }
        proof {
            lemma_is_heap_from_zero(Self::heap_type(), v@);
        }
        init
    }

    /// The elements level by level: row `k` holds array indices
    /// `2^k - 1 ..= 2^(k+1) - 2`, clipped to the length; one row per level.
    fn tree_view(&self) -> (rows: Vec<Vec<Self::Item>>)
        ensures
            rows@.len() == levels(self.items().len() as nat),
            forall|k: int| 0 <= k < rows@.len() ==> (#[trigger] rows@[k])@ == level_row(self.items(), k as nat),
    {
        let v = self.item();
        let n = v.len();
        let mut rows: Vec<Vec<Self::Item>> = Vec::new();
        let mut start: usize = 0;
        let mut width: usize = 1;
        proof {
            vstd::arithmetic::power2::lemma2_to64();
        }
        while start < n
            invariant
                n == v@.len(),
                v@ == self.items(),
                start <= n,
                start < n ==> start == pow2(rows@.len()) - 1 && width == pow2(rows@.len()),
                start == n ==> pow2(rows@.len()) - 1 >= n,
                rows@.len() > 0 ==> pow2((rows@.len() - 1) as nat) - 1 < n,
                n == 0 ==> rows@.len() == 0,
                forall|k: int| 0 <= k < rows@.len() ==> (#[trigger] rows@[k])@ == level_row(v@, k as nat),
            decreases n - start,
        {
            let ghost k = rows@.len();
            proof {
                vstd::arithmetic::power2::lemma_pow2_unfold(k + 1);
            }
            let end = if width > n - start {
                n
            } else {
                start + width
            };
            assert(end == level_end(v@, k));
            let mut row: Vec<Self::Item> = Vec::new();
            let mut j: usize = start;
            while j < end
                invariant
                    start <= j <= end <= n,
                    n == v@.len(),
                    row@ == v@.subrange(start as int, j as int),
                decreases end - j,
            {
                row.push(v[j]);
                j = j + 1;
                assert(row@ =~= v@.subrange(start as int, j as int));
            }
            rows.push(row);
            if end < n {
                width = width * 2;
            }
            start = end;
        }
        proof {
            let k = rows@.len();
            if n > 0 {
                lemma_levels_unique(n as nat, k);
            }
        }
        rows
    }
}

/// Number of tree levels a complete binary tree of `n` nodes occupies,
/// defined by halving: each level holds twice the nodes of the one above.
pub open spec fn levels(n: nat) -> nat
    decreases n,
{
    if n == 0 {
        0
    } else {
        1 + levels(n / 2)
    }
}

/// A tree of `n > 0` nodes spans `levels(n)` levels: `2^(levels(n)-1) <= n < 2^levels(n)`.
pub proof fn lemma_levels_bounds(n: nat)
    requires
        n > 0,
    ensures
        levels(n) >= 1,
        pow2((levels(n) - 1) as nat) <= n < pow2(levels(n)),
    decreases n,
{
    vstd::arithmetic::power2::lemma_pow2_unfold(levels(n));
    if n / 2 == 0 {
        assert(levels(n / 2) == 0);
        vstd::arithmetic::power2::lemma2_to64();
    } else {
        lemma_levels_bounds(n / 2);
        vstd::arithmetic::power2::lemma_pow2_unfold((levels(n) - 1) as nat);
    }
}

proof fn lemma_levels_at_most(n: nat)
    ensures
        levels(n) <= n,
    decreases n,
{
    if n > 0 {
        lemma_levels_at_most(n / 2);
    }
}

proof fn lemma_levels_unique(n: nat, k: nat)
    requires
        n > 0,
        k >= 1,
        pow2((k - 1) as nat) <= n < pow2(k),
    ensures
        k == levels(n),
{
    lemma_levels_bounds(n);
    let l = levels(n);
    if k < l {
        if k < l - 1 {
            vstd::arithmetic::power2::lemma_pow2_strictly_increases(k, (l - 1) as nat);
        }
    } else if k > l {
        if l < k - 1 {
            vstd::arithmetic::power2::lemma_pow2_strictly_increases(l, (k - 1) as nat);
        }
    }
}

/// Number of levels of a heap holding `n` elements (0 for an empty heap).
pub fn levels_from_len(n: usize) -> (r: usize)
    ensures
        r == levels(n as nat),
        n == 0 ==> r == 0,
        n > 0 ==> pow2((r - 1) as nat) <= n < pow2(r as nat),
{
    proof {
        lemma_levels_at_most(n as nat);
        if n > 0 {
            lemma_levels_bounds(n as nat);
        }
    }
    let mut m: usize = n;
    let mut k: usize = 0;
    while m > 0
        invariant
            k + levels(m as nat) == levels(n as nat),
            levels(n as nat) <= n,
        decreases m,
    {
        m = m / 2;
        k = k + 1;
    }
    k
}

} // verus!
