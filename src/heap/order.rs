//! The dominance relation of a heap direction over a type whose `Ord`
//! is a total order, and the facts about it that the heap proofs use.
use super::HeapType;
use std::cmp::Ordering;
use vstd::laws_cmp::{
    obeys_cmp, obeys_cmp_ord, obeys_cmp_partial_ord, obeys_partial_cmp_spec_properties,
};
use vstd::laws_eq::{obeys_concrete_eq, obeys_eq_spec_properties};
use vstd::prelude::*;
use vstd::std_specs::cmp::{OrdSpec, PartialOrdSpec};

verus! {

/// `a` may sit above `b` in a heap of direction `kind`: for a max-heap
/// `a >= b`, for a min-heap `a <= b`.
pub open spec fn dominates<T: Ord>(kind: HeapType, a: T, b: T) -> bool {
    match kind {
        HeapType::MaxHeap => a.cmp_spec(&b) != Ordering::Less,
        HeapType::MinHeap => a.cmp_spec(&b) != Ordering::Greater,
    }
}

/// The three-way comparison of a lawful `Ord` is reflexive, antisymmetric and
/// transitive (in its non-strict form).
pub proof fn lemma_cmp_order<T: Ord>(a: T, b: T, c: T)
    requires
        obeys_cmp::<T>(),
    ensures
        T::obeys_cmp_spec(),
        a.cmp_spec(&a) == Ordering::Equal,
        a.cmp_spec(&b) == Ordering::Less <==> b.cmp_spec(&a) == Ordering::Greater,
        a.cmp_spec(&b) == Ordering::Equal <==> b.cmp_spec(&a) == Ordering::Equal,
        a.cmp_spec(&b) != Ordering::Greater && b.cmp_spec(&c) != Ordering::Greater
            ==> a.cmp_spec(&c) != Ordering::Greater,
        a.cmp_spec(&b) != Ordering::Less && b.cmp_spec(&c) != Ordering::Less
            ==> a.cmp_spec(&c) != Ordering::Less,
{
    reveal(obeys_cmp_ord);
    reveal(obeys_cmp_partial_ord);
    reveal(obeys_partial_cmp_spec_properties);
    reveal(obeys_eq_spec_properties);
    assert(a.partial_cmp_spec(&a) == Some(a.cmp_spec(&a)));
    assert(a.partial_cmp_spec(&b) == Some(a.cmp_spec(&b)));
    assert(b.partial_cmp_spec(&a) == Some(b.cmp_spec(&a)));
    assert(b.partial_cmp_spec(&c) == Some(b.cmp_spec(&c)));
    assert(a.partial_cmp_spec(&c) == Some(a.cmp_spec(&c)));
    assert(c.partial_cmp_spec(&a) == Some(c.cmp_spec(&a)));
    assert(c.partial_cmp_spec(&b) == Some(c.cmp_spec(&b)));
}

/// Every element dominates itself.
pub proof fn lemma_dominates_refl<T: Ord>(kind: HeapType, a: T)
    requires
        obeys_cmp::<T>(),
    ensures
        dominates(kind, a, a),
{
    lemma_cmp_order(a, a, a);
}

/// Of two elements, one dominates the other.
pub proof fn lemma_dominates_total<T: Ord>(kind: HeapType, a: T, b: T)
    requires
        obeys_cmp::<T>(),
    ensures
        dominates(kind, a, b) || dominates(kind, b, a),
        !dominates(kind, a, b) ==> dominates(kind, b, a),
{
    lemma_cmp_order(a, b, a);
}

/// Dominance is transitive.
pub proof fn lemma_dominates_trans<T: Ord>(kind: HeapType, a: T, b: T, c: T)
    requires
        obeys_cmp::<T>(),
        dominates(kind, a, b),
        dominates(kind, b, c),
    ensures
        dominates(kind, a, c),
{
    lemma_cmp_order(a, b, c);
}

/// Two elements that dominate each other are equal, when `==` of `T` is identity.
pub proof fn lemma_dominates_antisym<T: Ord>(kind: HeapType, a: T, b: T)
    requires
        obeys_cmp::<T>(),
        obeys_concrete_eq::<T>(),
        dominates(kind, a, b),
        dominates(kind, b, a),
    ensures
        a == b,
{
    lemma_cmp_order(a, b, a);
    reveal(obeys_cmp_ord);
    reveal(obeys_cmp_partial_ord);
    reveal(obeys_concrete_eq);
    assert(a.partial_cmp_spec(&b) == Some(a.cmp_spec(&b)));
}

/// Decides `dominates(kind, a, b)` with one call of `cmp`.
pub fn check_dominates<T: Ord>(kind: &HeapType, a: &T, b: &T) -> (r: bool)
    requires
        obeys_cmp::<T>(),
    ensures
        r == dominates(*kind, *a, *b),
{
    proof {
        lemma_cmp_order(*a, *b, *b);
    }
    let o = a.cmp(b);
    match kind {
        HeapType::MaxHeap => match o {
            Ordering::Less => false,
            _ => true,
        },
        HeapType::MinHeap => match o {
            Ordering::Greater => false,
            _ => true,
        },
    }
}

} // verus!
