//! The heap property over a sequence, and the sift-up / sift-down
//! algorithms that restore it, shared by every heap direction.
use super::order::{
    check_dominates, dominates, lemma_dominates_refl, lemma_dominates_total,
    lemma_dominates_trans,
};
use super::HeapType;
use vstd::laws_cmp::obeys_cmp;
use vstd::prelude::*;

verus! {

broadcast use vstd::seq_lib::group_to_multiset_ensures;

/// Index of the parent of node `c` (for `c > 0`).
pub open spec fn parent(c: int) -> int {
    (c - 1) / 2
}

/// Heap property: every node dominates each of its existing children,
/// which sit at indices `2i + 1` and `2i + 2`.
pub open spec fn is_heap<T: Ord>(kind: HeapType, s: Seq<T>) -> bool {
    forall|i: int, c: int|
        0 <= i < c < s.len() && (c == 2 * i + 1 || c == 2 * i + 2) ==> #[trigger] dominates(
            kind,
            s[i],
            s[c],
        )
}

/// Every edge whose parent lies at index `k` or beyond is ordered.
pub open spec fn heap_from<T: Ord>(kind: HeapType, s: Seq<T>, k: int) -> bool {
    forall|c: int| 0 < c < s.len() && parent(c) >= k ==> dominates(kind, s[parent(c)], #[trigger] s[c])
}

/// State of sift-up at node `i`: every edge but the one above `i` is ordered,
/// and `i`'s parent already dominates `i`'s children.
pub open spec fn heap_except_up<T: Ord>(kind: HeapType, s: Seq<T>, i: int) -> bool {
    &&& forall|c: int| 0 < c < s.len() && c != i ==> dominates(kind, s[parent(c)], #[trigger] s[c])
    &&& i > 0 ==> forall|c: int|
        0 < c < s.len() && parent(c) == i ==> dominates(kind, s[parent(i)], #[trigger] s[c])
}

/// State of sift-down from `k`, now at node `i`: every edge with its parent at `k`
/// or beyond is ordered except those below `i`, and (below `k`) `i`'s parent
/// already dominates `i`'s children.
pub open spec fn heap_except_down<T: Ord>(kind: HeapType, s: Seq<T>, k: int, i: int) -> bool {
    &&& forall|c: int|
        0 < c < s.len() && parent(c) >= k && parent(c) != i ==> dominates(
            kind,
            s[parent(c)],
            #[trigger] s[c],
        )
    &&& i > k ==> forall|c: int|
        0 < c < s.len() && parent(c) == i ==> dominates(kind, s[parent(i)], #[trigger] s[c])
}

/// `s` with the values at `i` and `j` exchanged.
pub open spec fn swapped<T>(s: Seq<T>, i: int, j: int) -> Seq<T> {
    s.update(i, s[j]).update(j, s[i])
}

/// The child form and the parent form of the heap property agree.
pub proof fn lemma_is_heap_from_zero<T: Ord>(kind: HeapType, s: Seq<T>)
    ensures
        is_heap(kind, s) <==> heap_from(kind, s, 0),
{
    if is_heap(kind, s) {
        assert forall|c: int| 0 < c < s.len() && parent(c) >= 0 implies dominates(
            kind,
            s[parent(c)],
            #[trigger] s[c],
        ) by {
            let i = parent(c);
            assert(c == 2 * i + 1 || c == 2 * i + 2);
            assert(dominates(kind, s[i], s[c]));
        }
    }
    if heap_from(kind, s, 0) {
        assert forall|i: int, c: int|
            0 <= i < c < s.len() && (c == 2 * i + 1 || c == 2 * i + 2) implies #[trigger] dominates(
            kind,
            s[i],
            s[c],
        ) by {
            assert(parent(c) == i);
            assert(dominates(kind, s[parent(c)], s[c]));
        }
    }
}

/// In a heap the root dominates every element.
pub proof fn lemma_root_dominates<T: Ord>(kind: HeapType, s: Seq<T>, j: int)
    requires
        obeys_cmp::<T>(),
        is_heap(kind, s),
        0 <= j < s.len(),
    ensures
        dominates(kind, s[0], s[j]),
    decreases j,
{
    if j == 0 {
        lemma_dominates_refl(kind, s[0]);
    } else {
        lemma_is_heap_from_zero(kind, s);
        assert(dominates(kind, s[parent(j)], s[j]));
        lemma_root_dominates(kind, s, parent(j));
        lemma_dominates_trans(kind, s[0], s[parent(j)], s[j]);
    }
}

proof fn lemma_swapped_multiset<T>(s: Seq<T>, i: int, j: int)
    requires
        0 <= i < s.len(),
        0 <= j < s.len(),
    ensures
        swapped(s, i, j).to_multiset() == s.to_multiset(),
        swapped(s, i, j).len() == s.len(),
{
    broadcast use vstd::multiset::group_multiset_axioms;

    let t = s.update(i, s[j]);
    assert(t.to_multiset() == s.to_multiset().insert(s[j]).remove(s[i]));
    assert(swapped(s, i, j).to_multiset() == t.to_multiset().insert(s[i]).remove(t[j]));
    if i == j {
        assert(swapped(s, i, j) =~= s);
    } else {
        assert(t[j] == s[j]);
        assert(s.to_multiset().insert(s[j]).remove(s[i]).insert(s[i]).remove(s[j])
            =~= s.to_multiset());
    }
}

proof fn lemma_sift_up_step<T: Ord>(kind: HeapType, s: Seq<T>, i: int)
    requires
        obeys_cmp::<T>(),
        heap_except_up(kind, s, i),
        0 < i < s.len(),
        !dominates(kind, s[parent(i)], s[i]),
    ensures
        heap_except_up(kind, swapped(s, parent(i), i), parent(i)),
{
    let p = parent(i);
    let t = swapped(s, p, i);
    lemma_dominates_total(kind, s[p], s[i]);
    assert forall|c: int| 0 < c < t.len() && c != p implies dominates(
        kind,
        t[parent(c)],
        #[trigger] t[c],
    ) by {
        if c == i {
        } else if parent(c) == i {
            assert(dominates(kind, s[p], s[c]));
        } else if parent(c) == p {
            assert(dominates(kind, s[p], s[c]));
            lemma_dominates_trans(kind, s[i], s[p], s[c]);
        } else {
            assert(t[c] == s[c]);
            assert(dominates(kind, s[parent(c)], s[c]));
        }
    }
    if p > 0 {
        let pp = parent(p);
        assert(dominates(kind, s[pp], s[p]));
        assert forall|c: int| 0 < c < t.len() && parent(c) == p implies dominates(
            kind,
            t[parent(p)],
            #[trigger] t[c],
        ) by {
            if c == i {
            } else {
                assert(dominates(kind, s[p], s[c]));
                lemma_dominates_trans(kind, s[pp], s[p], s[c]);
            }
        }
    }
}

/// Index of the child of `i` that should sit higher: the right child when it
/// exists and strictly dominates the left one, else the left child.
pub open spec fn upper_child<T: Ord>(kind: HeapType, s: Seq<T>, i: int) -> int {
    if 2 * i + 2 < s.len() && !dominates(kind, s[2 * i + 1], s[2 * i + 2]) {
        2 * i + 2
    } else {
        2 * i + 1
    }
}

/// Sift-up from `i`, one step at a time: while `i` has a parent that the
/// element at `i` strictly dominates, the two swap and sifting goes on from
/// the parent. An equal parent stays.
pub open spec fn sift_up_spec<T: Ord>(kind: HeapType, s: Seq<T>, i: int) -> Seq<T>
    decreases i,
{
    if i <= 0 || i >= s.len() {
        s
    } else if dominates(kind, s[parent(i)], s[i]) {
        s
    } else {
        sift_up_spec(kind, swapped(s, parent(i), i), parent(i))
    }
}

/// Sift-down from `i`, one step at a time: a leaf stops; otherwise, when the
/// child that should sit higher strictly dominates the element at `i`, the two
/// swap and sifting goes on from that child. An equal child stays.
pub open spec fn sift_down_spec<T: Ord>(kind: HeapType, s: Seq<T>, i: int) -> Seq<T>
    decreases s.len() - i,
{
    if i < 0 || 2 * i + 1 >= s.len() {
        s
    } else if dominates(kind, s[i], s[upper_child(kind, s, i)]) {
        s
    } else {
        sift_down_spec(kind, swapped(s, i, upper_child(kind, s, i)), upper_child(kind, s, i))
    }
}

/// Bottom-up construction: sift down from node `k - 1`, then `k - 2`, and so
/// on down to the root.
pub open spec fn heapify_spec<T: Ord>(kind: HeapType, s: Seq<T>, k: int) -> Seq<T>
    decreases k,
{
    if k <= 0 {
        s
    } else {
        heapify_spec(kind, sift_down_spec(kind, s, k - 1), k - 1)
    }
}

/// Moves the element at `i` towards the root while it strictly dominates its
/// parent; an equal parent stays. Restores the heap property when it is broken
/// only on the edge above `i`.
pub fn sift_up<T: Ord + Copy>(v: &mut Vec<T>, kind: HeapType, i: usize)
    requires
        obeys_cmp::<T>(),
        i < old(v)@.len(),
    ensures
        final(v)@ == sift_up_spec(kind, old(v)@, i as int),
        heap_except_up(kind, old(v)@, i as int) ==> is_heap(kind, final(v)@),
        final(v)@.to_multiset() == old(v)@.to_multiset(),
        final(v)@.len() == old(v)@.len(),
{
    let ghost ordered = heap_except_up(kind, old(v)@, i as int);
    let ghost target = sift_up_spec(kind, old(v)@, i as int);
    let mut i = i;
    let mut settled = false;
    while i > 0 && !settled
        invariant
            obeys_cmp::<T>(),
            i < v@.len(),
            ordered ==> heap_except_up(kind, v@, i as int),
            settled ==> ordered ==> heap_from(kind, v@, 0),
            settled ==> v@ == target,
            !settled ==> sift_up_spec(kind, v@, i as int) == target,
            v@.to_multiset() == old(v)@.to_multiset(),
            v@.len() == old(v)@.len(),
        decreases i + if settled { 0int } else { 1int },
    {
        let p = (i - 1) / 2;
        if check_dominates(&kind, &v[p], &v[i]) {
            settled = true;
        } else {
            proof {
                if ordered {
                    lemma_sift_up_step(kind, v@, i as int);
                }
                lemma_swapped_multiset(v@, p as int, i as int);
            }
            let ghost prev = v@;
            let a = v[p];
            let b = v[i];
            v[p] = b;
            v[i] = a;
            assert(v@ =~= swapped(prev, p as int, i as int));
            i = p;
        }
    }
    proof {
        lemma_is_heap_from_zero(kind, v@);
    }
}

proof fn lemma_sift_down_step<T: Ord>(kind: HeapType, s: Seq<T>, k: int, i: int, m: int)
    requires
        obeys_cmp::<T>(),
        heap_except_down(kind, s, k, i),
        0 <= k <= i,
        i < m < s.len(),
        parent(m) == i,
        forall|c: int| 0 < c < s.len() && parent(c) == i ==> dominates(kind, s[m], #[trigger] s[c]),
        !dominates(kind, s[i], s[m]),
    ensures
        heap_except_down(kind, swapped(s, i, m), k, m),
{
    let t = swapped(s, i, m);
    lemma_dominates_total(kind, s[i], s[m]);
    assert forall|c: int| 0 < c < t.len() && parent(c) >= k && parent(c) != m implies dominates(
        kind,
        t[parent(c)],
        #[trigger] t[c],
    ) by {
        if c == m {
        } else if parent(c) == i {
            assert(dominates(kind, s[m], s[c]));
        } else if c == i {
            assert(dominates(kind, s[parent(i)], s[m]));
        } else {
            assert(t[c] == s[c]);
            assert(dominates(kind, s[parent(c)], s[c]));
        }
    }
    assert forall|c: int| 0 < c < t.len() && parent(c) == m implies dominates(
        kind,
        t[parent(m)],
        #[trigger] t[c],
    ) by {
        assert(dominates(kind, s[parent(c)], s[c]));
    }
}

/// Moves the element at `k` towards the leaves, each time below the child
/// that should sit higher, while that child strictly dominates it; an equal
/// child stays. Orders every edge at or below `k` when only the edges out of
/// `k` were out of order.
pub fn sift_down<T: Ord + Copy>(v: &mut Vec<T>, kind: HeapType, k: usize)
    requires
        obeys_cmp::<T>(),
        k < old(v)@.len(),
    ensures
        final(v)@ == sift_down_spec(kind, old(v)@, k as int),
        heap_from(kind, old(v)@, k + 1) ==> heap_from(kind, final(v)@, k as int),
        final(v)@.to_multiset() == old(v)@.to_multiset(),
        final(v)@.len() == old(v)@.len(),
{
    let ghost ordered = heap_from(kind, old(v)@, k + 1);
    let ghost target = sift_down_spec(kind, old(v)@, k as int);
    let len = v.len();
    let mut i = k;
    let mut settled = false;
    while !settled
        invariant
            obeys_cmp::<T>(),
            len == v@.len(),
            k <= i < len,
            ordered ==> heap_except_down(kind, v@, k as int, i as int),
            settled ==> ordered ==> heap_from(kind, v@, k as int),
            settled ==> v@ == target,
            !settled ==> sift_down_spec(kind, v@, i as int) == target,
            v@.to_multiset() == old(v)@.to_multiset(),
        decreases len - i + if settled { 0int } else { 1int },
    {
        if len < 2 || i > (len - 2) / 2 {
            settled = true;
        } else {
            let l = 2 * i + 1;
            let r = l + 1;
            let m = if r < len && !check_dominates(&kind, &v[l], &v[r]) {
                r
            } else {
                l
            };
            assert(m == upper_child(kind, v@, i as int));
            proof {
                lemma_dominates_refl(kind, v@[m as int]);
                if r < len {
                    lemma_dominates_total(kind, v@[l as int], v@[r as int]);
                }
                assert forall|c: int| 0 < c < len && parent(c) == i implies dominates(
                    kind,
                    v@[m as int],
                    #[trigger] v@[c],
                ) by {
                    assert(c == l || c == r);
                }
            }
            if check_dominates(&kind, &v[i], &v[m]) {
                proof {
                    assert forall|c: int| 0 < c < len && parent(c) == i implies dominates(
                        kind,
                        v@[parent(c)],
                        #[trigger] v@[c],
                    ) by {
                        lemma_dominates_trans(kind, v@[i as int], v@[m as int], v@[c]);
                    }
                }
                settled = true;
            } else {
                proof {
                    if ordered {
                        lemma_sift_down_step(kind, v@, k as int, i as int, m as int);
                    }
                    lemma_swapped_multiset(v@, i as int, m as int);
                }
                let ghost prev = v@;
                let a = v[i];
                let b = v[m];
                v[i] = b;
                v[m] = a;
                assert(v@ =~= swapped(prev, i as int, m as int));
                i = m;
            }
        }
    }
}

} // verus!
