//! Properties of whole runs of heap operations, stated over the same
//! `push_step` / `pop_step` relations that `Heap::push` and `Heap::pop` ensure.
use super::order::{dominates, lemma_dominates_antisym};
use super::{pop_step, push_step, HeapType};
use vstd::laws_cmp::obeys_cmp;
use vstd::laws_eq::obeys_concrete_eq;
use vstd::prelude::*;

verus! {

broadcast use vstd::seq_lib::group_to_multiset_ensures;

/// `heaps[0]` took `ins[0]`, `ins[1]`, ... by successive pushes, passing
/// through `heaps[1]`, `heaps[2]`, ...
pub open spec fn push_run<T: Ord>(kind: HeapType, heaps: Seq<Seq<T>>, ins: Seq<T>) -> bool {
    &&& heaps.len() == ins.len() + 1
    &&& forall|i: int| 0 <= i < ins.len() ==> #[trigger] push_step(kind, heaps[i], ins[i], heaps[i + 1])
}

/// Successive pops of `heaps[0]` returned `outs[0]`, `outs[1]`, ..., passing
/// through `heaps[1]`, `heaps[2]`, ...
pub open spec fn pop_run<T: Ord>(kind: HeapType, heaps: Seq<Seq<T>>, outs: Seq<T>) -> bool {
    &&& heaps.len() == outs.len() + 1
    &&& forall|i: int| 0 <= i < outs.len() ==> #[trigger] pop_step(kind, heaps[i], outs[i], heaps[i + 1])
}

/// A mix of pushes (`Some(x)`) and pops (`None`): step `i` pushes `x` or pops
/// `popped[i]`, from `heaps[i]` to `heaps[i + 1]`.
pub open spec fn op_run<T: Ord>(
    kind: HeapType,
    heaps: Seq<Seq<T>>,
    ops: Seq<Option<T>>,
    popped: Seq<T>,
) -> bool {
    &&& heaps.len() == ops.len() + 1
    &&& popped.len() == ops.len()
    &&& forall|i: int|
        0 <= i < ops.len() ==> match #[trigger] ops[i] {
            Some(x) => push_step(kind, heaps[i], x, heaps[i + 1]),
            None => pop_step(kind, heaps[i], popped[i], heaps[i + 1]),
        }
}

/// Number of pushes among `ops`.
pub open spec fn count_pushes<T>(ops: Seq<Option<T>>) -> nat
    decreases ops.len(),
{
    if ops.len() == 0 {
        0
    } else {
        count_pushes(ops.drop_last()) + if ops.last() is Some { 1nat } else { 0nat }
    }
}

/// Number of pops among `ops`.
pub open spec fn count_pops<T>(ops: Seq<Option<T>>) -> nat
    decreases ops.len(),
{
    if ops.len() == 0 {
        0
    } else {
        count_pops(ops.drop_last()) + if ops.last() is None { 1nat } else { 0nat }
    }
}

/// Each element of `xs` dominates every later one: descending for a
/// max-heap, ascending for a min-heap.
pub open spec fn sorted_by<T: Ord>(kind: HeapType, xs: Seq<T>) -> bool {
    forall|i: int, j: int| 0 <= i < j < xs.len() ==> #[trigger] dominates(kind, xs[i], xs[j])
}

proof fn lemma_push_run_contents<T: Ord>(kind: HeapType, heaps: Seq<Seq<T>>, ins: Seq<T>, i: int)
    requires
        push_run(kind, heaps, ins),
        heaps[0].len() == 0,
        0 <= i <= ins.len(),
    ensures
        heaps[i].to_multiset() == ins.subrange(0, i).to_multiset(),
    decreases i,
{
    if i == 0 {
        assert(heaps[0] =~= Seq::<T>::empty());
        assert(ins.subrange(0, 0) =~= Seq::<T>::empty());
    } else {
        lemma_push_run_contents(kind, heaps, ins, i - 1);
        let j = i - 1;
        assert(push_step(kind, heaps[j], ins[j], heaps[j + 1]));
        assert(ins.subrange(0, i) =~= ins.subrange(0, i - 1).push(ins[i - 1]));
    }
}

proof fn lemma_pop_run_contents<T: Ord>(kind: HeapType, heaps: Seq<Seq<T>>, outs: Seq<T>, i: int)
    requires
        pop_run(kind, heaps, outs),
        heaps.last().len() == 0,
        0 <= i <= outs.len(),
    ensures
        heaps[i].to_multiset() == outs.subrange(i, outs.len() as int).to_multiset(),
    decreases outs.len() - i,
{
    let n = outs.len() as int;
    if i == n {
        assert(heaps[n] =~= Seq::<T>::empty());
        assert(outs.subrange(n, n) =~= Seq::<T>::empty());
    } else {
        lemma_pop_run_contents(kind, heaps, outs, i + 1);
        assert(pop_step(kind, heaps[i], outs[i], heaps[i + 1]));
        assert(outs.subrange(i, n) =~= outs.subrange(i + 1, n).insert(0, outs[i]));
    }
}

/// Popping a heap until it is empty returns each of its elements once, in
/// order: descending for a max-heap, ascending for a min-heap.
pub proof fn lemma_drain_sorted<T: Ord>(kind: HeapType, heaps: Seq<Seq<T>>, outs: Seq<T>)
    requires
        pop_run(kind, heaps, outs),
        heaps.last().len() == 0,
    ensures
        sorted_by(kind, outs),
        outs.to_multiset() == heaps[0].to_multiset(),
{
    let n = outs.len() as int;
    lemma_pop_run_contents(kind, heaps, outs, 0);
    assert(outs.subrange(0, n) =~= outs);
    assert forall|i: int, j: int| 0 <= i < j < n implies #[trigger] dominates(kind, outs[i], outs[j]) by {
        lemma_pop_run_contents(kind, heaps, outs, i + 1);
        let rest = outs.subrange(i + 1, n);
        assert(rest[j - i - 1] == outs[j]);
        assert(rest.contains(outs[j]));
        assert(heaps[i + 1].to_multiset().count(outs[j]) > 0);
        let hs = heaps[i + 1];
        let idx = choose|idx: int| 0 <= idx < hs.len() && #[trigger] hs[idx] == outs[j];
        assert(pop_step(kind, heaps[i], outs[i], heaps[i + 1]));
        assert(dominates(kind, outs[i], heaps[i + 1][idx]));
    }
}

/// Pushing the values `ins` into an empty heap and then popping until it is
/// empty returns exactly those values, sorted for the heap's direction.
pub proof fn lemma_push_then_drain_sorted<T: Ord>(
    kind: HeapType,
    ins: Seq<T>,
    push_heaps: Seq<Seq<T>>,
    outs: Seq<T>,
    pop_heaps: Seq<Seq<T>>,
)
    requires
        push_run(kind, push_heaps, ins),
        push_heaps[0].len() == 0,
        pop_run(kind, pop_heaps, outs),
        pop_heaps[0] == push_heaps.last(),
        pop_heaps.last().len() == 0,
    ensures
        sorted_by(kind, outs),
        outs.to_multiset() == ins.to_multiset(),
{
    lemma_push_run_contents(kind, push_heaps, ins, ins.len() as int);
    assert(ins.subrange(0, ins.len() as int) =~= ins);
    lemma_drain_sorted(kind, pop_heaps, outs);
}

/// Two sequences sorted for the same direction and holding the same
/// elements are equal, when `==` of `T` is identity.
pub proof fn lemma_sorted_unique<T: Ord>(kind: HeapType, xs: Seq<T>, ys: Seq<T>)
    requires
        obeys_cmp::<T>(),
        obeys_concrete_eq::<T>(),
        sorted_by(kind, xs),
        sorted_by(kind, ys),
        xs.to_multiset() == ys.to_multiset(),
    ensures
        xs == ys,
    decreases xs.len(),
{
    broadcast use vstd::multiset::group_multiset_axioms;

    if xs.len() == 0 {
        assert(ys.len() == 0);
        assert(xs =~= ys);
    } else {
        assert(xs.to_multiset().len() == xs.len());
        assert(ys.to_multiset().len() == ys.len());
        assert(ys.len() > 0);
        assert(xs.contains(xs[0]));
        assert(ys.to_multiset().count(xs[0]) > 0);
        let iy = choose|iy: int| 0 <= iy < ys.len() && ys[iy] == xs[0];
        assert(ys.contains(ys[0]));
        assert(xs.to_multiset().count(ys[0]) > 0);
        let ix = choose|ix: int| 0 <= ix < xs.len() && xs[ix] == ys[0];
        if ix > 0 {
            assert(dominates(kind, xs[0], xs[ix]));
        } else {
            super::order::lemma_dominates_refl(kind, xs[0]);
        }
        if iy > 0 {
            assert(dominates(kind, ys[0], ys[iy]));
        } else {
            super::order::lemma_dominates_refl(kind, ys[0]);
        }
        lemma_dominates_antisym(kind, xs[0], ys[0]);
        let xt = xs.drop_first();
        let yt = ys.drop_first();
        assert(xs.drop_first() =~= xs.remove(0));
        assert(ys.drop_first() =~= ys.remove(0));
        assert(xt.to_multiset() == yt.to_multiset());
        assert forall|i: int, j: int| 0 <= i < j < xt.len() implies #[trigger] dominates(kind, xt[i], xt[j]) by {
            assert(dominates(kind, xs[i + 1], xs[j + 1]));
        }
        assert forall|i: int, j: int| 0 <= i < j < yt.len() implies #[trigger] dominates(kind, yt[i], yt[j]) by {
            assert(dominates(kind, ys[i + 1], ys[j + 1]));
        }
        lemma_sorted_unique(kind, xt, yt);
        assert(xs =~= seq![xs[0]] + xt);
        assert(ys =~= seq![ys[0]] + yt);
    }
}

/// Draining a heap built by `from_vec(v)` returns the same sequence as
/// draining a heap that took the elements of `v` by one push each, when `==`
/// of `T` is identity.
pub proof fn lemma_from_vec_round_trip<T: Ord>(
    kind: HeapType,
    v: Seq<T>,
    built: Seq<T>,
    push_heaps: Seq<Seq<T>>,
    built_heaps: Seq<Seq<T>>,
    built_outs: Seq<T>,
    pushed_heaps: Seq<Seq<T>>,
    pushed_outs: Seq<T>,
)
    requires
        obeys_cmp::<T>(),
        obeys_concrete_eq::<T>(),
        built.to_multiset() == v.to_multiset(),
        push_run(kind, push_heaps, v),
        push_heaps[0].len() == 0,
        pop_run(kind, built_heaps, built_outs),
        built_heaps[0] == built,
        built_heaps.last().len() == 0,
        pop_run(kind, pushed_heaps, pushed_outs),
        pushed_heaps[0] == push_heaps.last(),
        pushed_heaps.last().len() == 0,
    ensures
        built_outs == pushed_outs,
{
    lemma_drain_sorted(kind, built_heaps, built_outs);
    lemma_push_then_drain_sorted(kind, v, push_heaps, pushed_outs, pushed_heaps);
    lemma_sorted_unique(kind, built_outs, pushed_outs);
}

proof fn lemma_step_len<T: Ord>(kind: HeapType, heaps: Seq<Seq<T>>, ops: Seq<Option<T>>, popped: Seq<T>, i: int)
    requires
        op_run(kind, heaps, ops, popped),
        0 <= i <= ops.len(),
    ensures
        heaps[i].len() + count_pops(ops.subrange(0, i)) == heaps[0].len() + count_pushes(ops.subrange(0, i)),
    decreases i,
{
    if i > 0 {
        lemma_step_len(kind, heaps, ops, popped, i - 1);
        let pre = ops.subrange(0, i);
        assert(pre.drop_last() =~= ops.subrange(0, i - 1));
        let j = i - 1;
        let a = heaps[j];
        let b = heaps[j + 1];
        match ops[j] {
            Some(x) => {
                assert(push_step(kind, a, x, b));
                assert(b.to_multiset().len() == a.to_multiset().len() + 1);
            },
            None => {
                assert(pop_step(kind, a, popped[j], b));
                assert(a.to_multiset().len() == b.to_multiset().len() + 1);
            },
        }
    }
}

/// Starting from an empty heap, after `n` pushes and `m` pops, each pop
/// removing an element, the heap holds `n - m` elements.
pub proof fn lemma_size_accounting<T: Ord>(
    kind: HeapType,
    heaps: Seq<Seq<T>>,
    ops: Seq<Option<T>>,
    popped: Seq<T>,
)
    requires
        op_run(kind, heaps, ops, popped),
        heaps[0].len() == 0,
    ensures
        count_pops(ops) <= count_pushes(ops),
        heaps.last().len() == count_pushes(ops) - count_pops(ops),
{
    lemma_step_len(kind, heaps, ops, popped, ops.len() as int);
    assert(ops.subrange(0, ops.len() as int) =~= ops);
}

} // verus!
