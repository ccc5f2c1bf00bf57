//! Properties that relate several tensor operations, stated over the spec
//! functions that the operations' contracts use.
use vstd::prelude::*;
use crate::shape::{
    broadcast_source, broadcastable,
    flat_index, index_in, lemma_flat_bound, lemma_flat_unflat, lemma_reversed_is_permutation,
    lemma_size_2d,
    lemma_unflat, lists, permuted, position_of, reversed_axes, row_size, shape_size, unflat_index, unpermuted,
};
use crate::tensor::{concat_values, permuted_values, Tensor};

verus! {

/// Reading a reversed multi-index back through the reversal reverses it again.
proof fn lemma_unpermuted_reversed(o: Seq<usize>)
    requires
        o.len() <= usize::MAX,
    ensures
        unpermuted(o, reversed_axes(o.len())) == permuted(o, reversed_axes(o.len())),
{
    let n = o.len();
    let r = reversed_axes(n);
    lemma_reversed_is_permutation(n);
    assert forall|a: int| 0 <= a < n implies #[trigger] unpermuted(o, r)[a] == permuted(o, r)[a] by {
        assert(lists(r, a));
        let k = position_of(r, a);
        assert(r[k] == a);
        assert(r[n - 1 - a] == a);
        assert(k == n - 1 - a);
    }
}

/// Transposing a rank-2 tensor twice gives back its shape and its elements.
pub proof fn law_transpose_twice<T>(values: Seq<T>, dims: Seq<usize>)
    requires
        dims.len() == 2,
        values.len() == shape_size(dims),
    ensures
        ({
            let r = reversed_axes(2);
            let d1 = permuted(dims, r);
            let v1 = permuted_values(values, dims, r);
            &&& permuted(d1, r) == dims
            &&& permuted_values(v1, d1, r) == values
        }),
{
    let r = reversed_axes(2);
    lemma_reversed_is_permutation(2);
    let d1 = permuted(dims, r);
    let v1 = permuted_values(values, dims, r);
    assert(d1 == seq![dims[1], dims[0]]);
    assert(permuted(d1, r) == dims);
    assert(shape_size(d1) == shape_size(dims)) by {
        lemma_size_2d(dims);
        lemma_size_2d(d1);
        let a = dims[0] as nat;
        let b = dims[1] as nat;
        assert(a * b == b * a) by (nonlinear_arith);
    }
    let v2 = permuted_values(v1, d1, r);
    assert forall|j: int| 0 <= j < values.len() implies #[trigger] v2[j] == values[j] by {
        let idx = unflat_index(j as nat, dims);
        lemma_unflat(j as nat, dims);
        lemma_unpermuted_reversed(idx);
        let u = unpermuted(idx, r);
        assert(u == permuted(idx, r));
        assert(index_in(u, d1));
        let q = flat_index(u, d1);
        lemma_flat_bound(u, d1);
        lemma_flat_unflat(u, d1);
        assert(unflat_index(q, d1) == u);
        lemma_unpermuted_reversed(u);
        assert(unpermuted(u, r) == permuted(u, r));
        assert(permuted(u, r) == idx);
        assert(v1[q as int] == values[flat_index(idx, dims) as int]);
    }
    assert(v2 == values);
}

/// Broadcasting to a tensor's own shape is allowed and reads every element
/// from its own position, so the tensor is unchanged.
pub proof fn law_broadcast_same_shape(dims: Seq<usize>)
    ensures
        broadcastable(dims, dims),
        forall|idx: Seq<usize>| index_in(idx, dims) ==> #[trigger] broadcast_source(idx, dims) == idx,
{
    assert forall|idx: Seq<usize>| index_in(idx, dims) implies #[trigger] broadcast_source(idx, dims) == idx by {
        assert forall|k: int| 0 <= k < dims.len() implies #[trigger] broadcast_source(idx, dims)[k] == idx[k] by {
            assert(idx[k] < dims[k]);
        }
        assert(broadcast_source(idx, dims) == idx);
    }
}

/// What is left of a tensor's values and shape after `i` splits at row 1,
/// each keeping the part after the first row.
pub open spec fn peel<T>(values: Seq<T>, dims: Seq<usize>, i: nat) -> (Seq<T>, Seq<usize>)
    decreases i,
{
    if i == 0 {
        (values, dims)
    } else {
        let (v, d) = peel(values, dims, (i - 1) as nat);
        (v.subrange(row_size(d) as int, v.len() as int), d.update(0, (d[0] - 1) as usize))
    }
}

/// The first part of a split at row 1: the first row, under a leading extent of 1.
pub open spec fn first_row<T>(values: Seq<T>, dims: Seq<usize>) -> (Seq<T>, Seq<usize>) {
    (values.subrange(0, row_size(dims) as int), dims.update(0, 1))
}

proof fn lemma_peel<T>(ts: Seq<Tensor<T>>, s: Seq<usize>, i: nat)
    requires
        i <= ts.len(),
        forall|j: int| 0 <= j < ts.len() ==> (#[trigger] ts[j]).dims() == s,
        forall|j: int| 0 <= j < ts.len() ==> (#[trigger] ts[j]).values().len() == shape_size(s),
        ts.len() <= usize::MAX,
    ensures
        peel(concat_values(ts), seq![ts.len() as usize] + s, i)
            == (concat_values(ts.skip(i as int)), seq![(ts.len() - i) as usize] + s),
    decreases i,
{
    if i == 0 {
        assert(ts.skip(0) == ts);
    } else {
        lemma_peel(ts, s, (i - 1) as nat);
        let rest = ts.skip(i - 1);
        let d = seq![(ts.len() - (i - 1)) as usize] + s;
        assert(d.skip(1) == s);
        assert(rest[0] == ts[i - 1]);
        assert(rest.drop_first() == ts.skip(i as int));
        let v = concat_values(rest);
        assert(v == rest[0].values() + concat_values(rest.drop_first()));
        assert(v.subrange(row_size(d) as int, v.len() as int) == concat_values(ts.skip(i as int)));
        assert(d.update(0, (d[0] - 1) as usize) == seq![(ts.len() - i) as usize] + s);
    }
}

/// Stacking tensors of one shape and then splitting at row 1 again and
/// again gives back each tensor in turn, under a leading axis of extent 1.
pub proof fn law_stack_split<T>(ts: Seq<Tensor<T>>, i: nat)
    requires
        ts.len() >= 1,
        ts.len() <= usize::MAX,
        forall|j: int| 0 <= j < ts.len() ==> (#[trigger] ts[j]).dims() == ts[0].dims(),
        forall|j: int| 0 <= j < ts.len() ==> (#[trigger] ts[j]).values().len() == shape_size(ts[j].dims()),
        i < ts.len(),
    ensures
        ({
            let (v, d) = peel(concat_values(ts), seq![ts.len() as usize] + ts[0].dims(), i);
            first_row(v, d) == (ts[i as int].values(), seq![1usize] + ts[0].dims())
        }),
{
    let s = ts[0].dims();
    assert forall|j: int| 0 <= j < ts.len() implies (#[trigger] ts[j]).values().len() == shape_size(s) by {
        assert(ts[j].dims() == s);
    }
    lemma_peel(ts, s, i);
    let rest = ts.skip(i as int);
    let d = seq![(ts.len() - i) as usize] + s;
    assert(d.skip(1) == s);
    assert(rest[0] == ts[i as int]);
    let v = concat_values(rest);
    assert(v == rest[0].values() + concat_values(rest.drop_first()));
    assert(v.subrange(0, row_size(d) as int) == ts[i as int].values());
    assert(d.update(0, 1) == seq![1usize] + s);
}

} // verus!
