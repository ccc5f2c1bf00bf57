//! The tensor type: an owned row-major buffer together with its shape.
use vstd::prelude::*;
use vstd::std_specs::cmp::{PartialEqSpec, PartialOrdSpec};
use vstd::std_specs::ops::{AddSpec, DivSpec, MulSpec, SubSpec};
use vstd::arithmetic::div_mod::lemma_fundamental_div_mod_converse;
use crate::error::TensorError;
use crate::shape::{
    broadcast_source, broadcastable, checked_size, flat_index, index_in, is_permutation,
    lemma_axis_sizes, lemma_div_lt, lemma_flat_bound, lemma_flat_unflat,
    lemma_reversed_is_permutation, lemma_row_end, lemma_size_2d, lemma_size_le, lemma_size_permuted,
    lemma_size_rows, lemma_unpermuted_in, lists, permuted, position_of, ravel, reversed_axes,
    row_size, shape_size, unflat_index, unpermuted, unravel,
};

verus! {

/// A dense tensor. Its buffer always holds exactly `shape_size(shape)`
/// elements, laid out in row-major order.
pub struct Tensor<T> {
    data: Vec<T>,
    shape: Vec<usize>,
}

impl<T> Tensor<T> {
    /// The elements, in row-major order.
    pub closed spec fn values(&self) -> Seq<T> {
        self.data@
    }

    /// The extents of the axes.
    pub closed spec fn dims(&self) -> Seq<usize> {
        self.shape@
    }

    #[verifier::type_invariant]
    spec fn well_formed(&self) -> bool {
        self.data@.len() == shape_size(self.shape@)
    }

    /// Every tensor holds as many elements as its shape describes. This
    /// hands the fact to verified callers; it does nothing at run time.
    pub fn size_invariant(&self)
        ensures
            self.values().len() == shape_size(self.dims()),
    {
        proof { use_type_invariant(self); }
    }
}

impl<T: Copy> Tensor<T> {
    /// Builds a tensor from a row-major buffer and a shape; fails unless the
    /// buffer holds exactly as many elements as the shape describes.
    pub fn new(data: Vec<T>, shape: Vec<usize>) -> (r: Result<Tensor<T>, TensorError>)
        ensures
            r is Ok <==> data@.len() == shape_size(shape@),
            r matches Ok(t) ==> t.values() == data@ && t.dims() == shape@,
            r matches Err(e) ==> e == TensorError::ShapeMismatch,
    {
        let len = data.len();
        match checked_size(&shape) {
            Some(n) => {
                if n == len {
                    Ok(Tensor { data, shape })
                } else {
                    Err(TensorError::ShapeMismatch)
                }
            },
            None => Err(TensorError::ShapeMismatch),
        }
    }

    /// A tensor of the given shape with every element equal to `value`.
    pub fn full(shape: Vec<usize>, value: T) -> (r: Result<Tensor<T>, TensorError>)
        ensures
            r is Ok <==> shape_size(shape@) <= usize::MAX,
            r matches Ok(t) ==> t.dims() == shape@ && t.values() == Seq::new(shape_size(shape@), |i: int| value),
            r matches Err(e) ==> e == TensorError::TooLarge,
    {
        let n = match checked_size(&shape) {
            Some(n) => n,
            None => {
                return Err(TensorError::TooLarge);
            },
        };
        let mut data: Vec<T> = Vec::with_capacity(n);
        let mut i: usize = 0;
        while i < n
            invariant
                i <= n,
                data@ == Seq::new(i as nat, |j: int| value),
            decreases n - i,
        {
            data.push(value);
            i = i + 1;
        }
        Ok(Tensor { data, shape })
    }

    /// The extents of the axes.
    pub fn shape(&self) -> (r: Vec<usize>)
        ensures
            r@ == self.dims(),
    {
        self.shape.clone()
    }

    /// The number of axes.
    pub fn ndim(&self) -> (r: usize)
        ensures
            r == self.dims().len(),
    {
        self.shape.len()
    }

    /// The number of elements.
    pub fn len(&self) -> (r: usize)
        ensures
            r == self.values().len(),
    {
        self.data.len()
    }

    /// The elements as a flat row-major vector.
    pub fn to_vec(&self) -> (r: Vec<T>)
        ensures
            r@ == self.values(),
    {
        let mut r: Vec<T> = Vec::with_capacity(self.data.len());
        let mut i: usize = 0;
        while i < self.data.len()
            invariant
                i <= self.data.len(),
                r@ == self.data@.take(i as int),
            decreases self.data.len() - i,
        {
            r.push(self.data[i]);
            i = i + 1;
            assert(self.data@.take(i as int) == self.data@.take(i as int - 1).push(self.data@[i - 1]));
        }
        assert(self.data@.take(i as int) == self.data@);
        r
    }

    /// The same elements, in the same order, under another shape with the
    /// same number of elements.
    pub fn reshape(&self, shape: Vec<usize>) -> (r: Result<Tensor<T>, TensorError>)
        ensures
            r is Ok <==> shape_size(shape@) == self.values().len(),
            r matches Ok(t) ==> t.values() == self.values() && t.dims() == shape@,
            r matches Err(e) ==> e == TensorError::ShapeMismatch,
    {
        Tensor::new(self.to_vec(), shape)
    }

    /// The same elements under a single axis.
    pub fn flatten(&self) -> (r: Tensor<T>)
        ensures
            r.values() == self.values(),
            r.dims() == seq![self.values().len() as usize],
    {
        let data = self.to_vec();
        let shape: Vec<usize> = vec![data.len()];
        proof {
            assert(shape@.len() == 1);
            assert(shape@.last() == data@.len());
            assert(shape@.drop_last() == Seq::<usize>::empty());
            assert(shape_size(shape@.drop_last()) == 1);
            assert(shape_size(shape@) == 1 * (data@.len() as nat));
        }
        Tensor { data, shape }
    }

    /// Applies `f` to every element.
    pub fn map<F: Fn(T) -> T>(&self, f: F) -> (r: Tensor<T>)
        requires
            forall|i: int| 0 <= i < self.values().len() ==> f.requires((#[trigger] self.values()[i],)),
        ensures
            r.dims() == self.dims(),
            r.values().len() == self.values().len(),
            forall|i: int| 0 <= i < self.values().len() ==> f.ensures((self.values()[i],), #[trigger] r.values()[i]),
    {
        proof { use_type_invariant(self); }
        let n = self.data.len();
        let mut data: Vec<T> = Vec::with_capacity(n);
        let mut i: usize = 0;
        while i < n
            invariant
                n == self.data@.len(),
                i <= n,
                data@.len() == i,
                forall|j: int| 0 <= j < n ==> f.requires((#[trigger] self.values()[j],)),
                forall|j: int| 0 <= j < i ==> f.ensures((self.values()[j],), #[trigger] data@[j]),
            decreases n - i,
        {
            assert(f.requires((self.values()[i as int],)));
            let y = f(self.data[i]);
            data.push(y);
            i = i + 1;
        }
        Tensor { data, shape: self.shape.clone() }
    }
}

impl<T: Copy> Tensor<T> {
    /// Expands the tensor to `target`: trailing axes are aligned, missing
    /// leading axes count as extent 1, and every axis of extent 1 is repeated
    /// along the matching target axis.
    pub fn broadcast(&self, target: &Vec<usize>) -> (r: Result<Tensor<T>, TensorError>)
        ensures
            r is Ok <==> broadcastable(self.dims(), target@) && shape_size(target@) <= usize::MAX,
            r matches Ok(t) ==> {
                &&& t.dims() == target@
                &&& forall|idx: Seq<usize>| index_in(idx, target@) ==>
                    t.values()[flat_index(idx, target@) as int]
                        == self.values()[flat_index(broadcast_source(idx, self.dims()), self.dims()) as int]
            },
            r matches Err(e) ==> {
                &&& !broadcastable(self.dims(), target@) ==> e == TensorError::ShapeMismatch
                &&& broadcastable(self.dims(), target@) ==> e == TensorError::TooLarge
            },
    {
        proof { use_type_invariant(self); }
        let rank = self.shape.len();
        if rank > target.len() {
            return Err(TensorError::ShapeMismatch);
        }
        let off = target.len() - rank;
        let mut k: usize = 0;
        while k < rank
            invariant
                rank == self.shape.len(),
                off + rank == target.len(),
                k <= rank,
                forall|j: int| 0 <= j < k ==> {
                    let t = #[trigger] target@[j + target.len() - rank];
                    self.shape@[j] == t || self.shape@[j] == 1
                },
            decreases rank - k,
        {
            if self.shape[k] != target[k + off] && self.shape[k] != 1 {
                assert(!broadcastable(self.dims(), target@)) by {
                    let t = target@[k + target.len() - rank];
                }
                return Err(TensorError::ShapeMismatch);
            }
            k = k + 1;
        }
        let n = match checked_size(target) {
            Some(n) => n,
            None => {
                return Err(TensorError::TooLarge);
            },
        };
        let len = self.data.len();
        let mut out: Vec<T> = Vec::with_capacity(n);
        let mut j: usize = 0;
        while j < n
            invariant
                rank == self.shape.len(),
                len == self.data@.len(),
                off + rank == target.len(),
                n == shape_size(target@),
                self.data@.len() == shape_size(self.shape@),
                broadcastable(self.shape@, target@),
                j <= n,
                out@.len() == j,
                forall|q: int| 0 <= q < j ==> #[trigger] out@[q] == self.data@[
                    flat_index(broadcast_source(unflat_index(q as nat, target@), self.shape@), self.shape@) as int],
            decreases n - j,
        {
            let t = unravel(j, target);
            let mut src: Vec<usize> = Vec::with_capacity(rank);
            let mut k: usize = 0;
            while k < rank
                invariant
                    rank == self.shape.len(),
                    off + rank == target.len(),
                    t@.len() == target.len(),
                    index_in(t@, target@),
                    broadcastable(self.shape@, target@),
                    k <= rank,
                    src@.len() == k,
                    forall|q: int| 0 <= q < k ==> #[trigger] src@[q]
                        == broadcast_source(t@, self.shape@)[q],
                    forall|q: int| 0 <= q < k ==> #[trigger] src@[q] < self.shape@[q],
                decreases rank - k,
            {
                if self.shape[k] == 1 {
                    src.push(0);
                } else {
                    assert(t@[k + off] < target@[k + off]);
                    assert(self.shape@[k as int] == target@[k + target.len() - rank] || self.shape@[k as int] == 1);
                    src.push(t[k + off]);
                }
                k = k + 1;
            }
            assert(src@ == broadcast_source(t@, self.shape@));
            let p = ravel(&src, &self.shape);
            proof { lemma_flat_bound(src@, self.shape@); }
            out.push(self.data[p]);
            j = j + 1;
        }
        let r = Tensor { data: out, shape: target.clone() };
        assert forall|idx: Seq<usize>| index_in(idx, target@) implies
            r.values()[flat_index(idx, target@) as int]
                == self.values()[flat_index(broadcast_source(idx, self.dims()), self.dims()) as int] by {
            lemma_flat_bound(idx, target@);
            lemma_flat_unflat(idx, target@);
        }
        Ok(r)
    }
}

/// Row `q` of a row-major buffer whose rows hold `row` elements.
pub open spec fn row_of<T>(s: Seq<T>, row: nat, q: int) -> Seq<T> {
    s.subrange(q * row, q * row + row)
}

/// The values of several tensors, one after another.
pub open spec fn concat_values<T>(ts: Seq<Tensor<T>>) -> Seq<T>
    decreases ts.len(),
{
    if ts.len() == 0 {
        Seq::empty()
    } else {
        ts[0].values() + concat_values(ts.drop_first())
    }
}

/// Appends `src[start..end]` to `dst`.
fn extend_range<T: Copy>(dst: &mut Vec<T>, src: &Vec<T>, start: usize, end: usize)
    requires
        start <= end <= src@.len(),
    ensures
        final(dst)@ == old(dst)@ + src@.subrange(start as int, end as int),
{
    let ghost init = dst@;
    let mut i: usize = start;
    while i < end
        invariant
            start <= i <= end <= src@.len(),
            dst@ == init + src@.subrange(start as int, i as int),
        decreases end - i,
    {
        dst.push(src[i]);
        i = i + 1;
        assert(src@.subrange(start as int, i as int) == src@.subrange(start as int, i - 1) + seq![src@[i - 1]]);
    }
}

impl<T: Copy> Tensor<T> {
    /// Gathers whole slices along axis 0, in the order of `indices`; indices
    /// may repeat.
    pub fn take(&self, indices: &Vec<usize>) -> (r: Result<Tensor<T>, TensorError>)
        ensures
            r is Ok <==> {
                &&& self.dims().len() >= 1
                &&& forall|q: int| 0 <= q < indices@.len() ==> #[trigger] indices@[q] < self.dims()[0]
                &&& indices@.len() * row_size(self.dims()) <= usize::MAX
            },
            r matches Ok(t) ==> {
                &&& t.dims() == self.dims().update(0, indices@.len() as usize)
                &&& t.values().len() == indices@.len() * row_size(self.dims())
                &&& forall|q: int| 0 <= q < indices@.len() ==>
                    #[trigger] row_of(t.values(), row_size(self.dims()), q)
                        == row_of(self.values(), row_size(self.dims()), indices@[q] as int)
            },
            r matches Err(e) ==> {
                &&& self.dims().len() == 0 ==> e == TensorError::RankTooLow
                &&& self.dims().len() >= 1 && (exists|q: int| 0 <= q < indices@.len() && indices@[q] >= self.dims()[0])
                    ==> e == TensorError::IndexOutOfBounds
            },
    {
        proof { use_type_invariant(self); }
        if self.shape.len() == 0 {
            return Err(TensorError::RankTooLow);
        }
        let len = self.data.len();
        let rows = self.shape[0];
        let k = indices.len();
        let mut q: usize = 0;
        while q < k
            invariant
                q <= k == indices@.len(),
                self.shape@.len() >= 1,
                rows == self.shape@[0],
                forall|j: int| 0 <= j < q ==> #[trigger] indices@[j] < rows,
            decreases k - q,
        {
            if indices[q] >= rows {
                return Err(TensorError::IndexOutOfBounds);
            }
            q = q + 1;
        }
        let mut new_shape = self.shape.clone();
        new_shape.set(0, k);
        proof {
            lemma_size_rows(self.shape@);
            lemma_size_rows(new_shape@);
            assert(new_shape@.skip(1) == self.shape@.skip(1));
        }
        if k == 0 {
            let out: Vec<T> = Vec::new();
            proof {
                assert(0 * row_size(self.shape@) == 0);
            }
            return Ok(Tensor { data: out, shape: new_shape });
        }
        assert(indices@[0] < rows);
        let row = len / rows;
        proof {
            assert(len as int == row_size(self.shape@) * rows + 0) by (nonlinear_arith)
                requires
                    len as int == rows * row_size(self.shape@),
            ;
            lemma_fundamental_div_mod_converse(len as int, rows as int, row_size(self.shape@) as int, 0);
        }
        let total = match k.checked_mul(row) {
            Some(n) => n,
            None => {
                return Err(TensorError::TooLarge);
            },
        };
        let ghost rs = row as nat;
        let mut out: Vec<T> = Vec::with_capacity(total);
        let mut q: usize = 0;
        while q < k
            invariant
                q <= k == indices@.len(),
                self.shape@.len() >= 1,
                rows == self.shape@[0],
                row as nat == row_size(self.shape@),
                rs == row as nat,
                len == self.data@.len(),
                len as nat == rows as nat * rs,
                total as nat == k as nat * rs,
                forall|j: int| 0 <= j < k ==> #[trigger] indices@[j] < rows,
                out@.len() == q as nat * rs,
                forall|j: int| 0 <= j < q ==>
                    #[trigger] row_of(out@, rs, j) == row_of(self.data@, rs, indices@[j] as int),
            decreases k - q,
        {
            let ghost before = out@;
            let src = indices[q];
            proof {
                lemma_row_end(src as nat, rs, rows as nat);
                lemma_row_end(q as nat, rs, k as nat);
            }
            let base = src * row;
            extend_range(&mut out, &self.data, base, base + row);
            proof {
                assert forall|j: int| 0 <= j < q + 1 implies
                    #[trigger] row_of(out@, rs, j) == row_of(self.data@, rs, indices@[j] as int) by {
                    if j < q {
                        lemma_row_end(j as nat, rs, q as nat);
                        assert(row_of(out@, rs, j) == row_of(before, rs, j));
                    } else {
                        assert(row_of(out@, rs, j) == self.data@.subrange(base as int, base + row));
                    }
                }
                assert((q as nat + 1) * rs == q as nat * rs + rs) by (nonlinear_arith);
            }
            q = q + 1;
        }
        Ok(Tensor { data: out, shape: new_shape })
    }
}

/// The values of the first `i + 1` tensors are those of the first `i`
/// followed by those of tensor `i`.
pub proof fn lemma_concat_take<T>(ts: Seq<Tensor<T>>, i: int)
    requires
        0 <= i < ts.len(),
    ensures
        concat_values(ts.take(i + 1)) == concat_values(ts.take(i)) + ts[i].values(),
    decreases i,
{
    if i == 0 {
        assert(ts.take(1).drop_first() == Seq::<Tensor<T>>::empty());
        assert(ts.take(0) == Seq::<Tensor<T>>::empty());
        assert(concat_values(ts.take(1)) == ts[0].values() + Seq::<T>::empty());
        assert(ts[0].values() + Seq::<T>::empty() == ts[0].values());
        assert(Seq::<T>::empty() + ts[0].values() == ts[0].values());
    } else {
        lemma_concat_take(ts.drop_first(), i - 1);
        assert(ts.take(i + 1).drop_first() == ts.drop_first().take(i));
        assert(ts.take(i).drop_first() == ts.drop_first().take(i - 1));
        assert(ts.drop_first()[i - 1] == ts[i]);
        assert(concat_values(ts.take(i + 1)) == ts[0].values() + concat_values(ts.drop_first().take(i)));
        assert(concat_values(ts.take(i)) == ts[0].values() + concat_values(ts.drop_first().take(i - 1)));
        assert(ts[0].values() + (concat_values(ts.drop_first().take(i - 1)) + ts[i].values())
            == (ts[0].values() + concat_values(ts.drop_first().take(i - 1))) + ts[i].values());
    }
}

impl<T: Copy> Tensor<T> {
    /// Splits along axis 0 into the rows before `index` and the rows from
    /// `index` on.
    pub fn split_at(&self, index: usize) -> (r: Result<(Tensor<T>, Tensor<T>), TensorError>)
        ensures
            r is Ok <==> self.dims().len() >= 2 && index <= self.dims()[0],
            r matches Ok((a, b)) ==> {
                &&& a.dims() == self.dims().update(0, index)
                &&& b.dims() == self.dims().update(0, (self.dims()[0] - index) as usize)
                &&& a.values() == self.values().subrange(0, index * row_size(self.dims()))
                &&& b.values() == self.values().subrange(index * row_size(self.dims()), self.values().len() as int)
            },
            r matches Err(e) ==> {
                &&& self.dims().len() < 2 ==> e == TensorError::RankTooLow
                &&& self.dims().len() >= 2 ==> e == TensorError::IndexOutOfBounds
            },
    {
        proof { use_type_invariant(self); }
        if self.shape.len() < 2 {
            return Err(TensorError::RankTooLow);
        }
        let rows = self.shape[0];
        if index > rows {
            return Err(TensorError::IndexOutOfBounds);
        }
        let len = self.data.len();
        let ghost rs = row_size(self.shape@);
        proof { lemma_size_rows(self.shape@); }
        let mut sa = self.shape.clone();
        sa.set(0, index);
        let mut sb = self.shape.clone();
        sb.set(0, rows - index);
        proof {
            lemma_size_rows(sa@);
            lemma_size_rows(sb@);
            assert(sa@.skip(1) == self.shape@.skip(1));
            assert(sb@.skip(1) == self.shape@.skip(1));
            assert(index as nat * rs + (rows - index) as nat * rs == rows as nat * rs) by (nonlinear_arith)
                requires
                    index <= rows,
            ;
            assert(index as nat * rs <= rows as nat * rs) by (nonlinear_arith)
                requires
                    index <= rows,
            ;
        }
        let cut = if rows == 0 {
            0
        } else {
            proof {
                assert(len as int == rs * rows + 0) by (nonlinear_arith)
                    requires
                        len as int == rows * rs,
                ;
                lemma_fundamental_div_mod_converse(len as int, rows as int, rs as int, 0);
            }
            index * (len / rows)
        };
        proof {
            if rows == 0 {
                assert(index as nat * rs == 0) by (nonlinear_arith)
                    requires
                        index == 0,
                ;
            }
        }
        let mut da: Vec<T> = Vec::with_capacity(cut);
        extend_range(&mut da, &self.data, 0, cut);
        let mut db: Vec<T> = Vec::with_capacity(len - cut);
        extend_range(&mut db, &self.data, cut, len);
        assert(da@ == self.data@.subrange(0, cut as int));
        assert(db@ == self.data@.subrange(cut as int, len as int));
        Ok((Tensor { data: da, shape: sa }, Tensor { data: db, shape: sb }))
    }

    /// The rows `start..end` along axis 0.
    pub fn rows(&self, start: usize, end: usize) -> (r: Result<Tensor<T>, TensorError>)
        ensures
            r is Ok <==> self.dims().len() >= 1 && start <= end <= self.dims()[0],
            r matches Ok(t) ==> {
                &&& t.dims() == self.dims().update(0, (end - start) as usize)
                &&& t.values() == self.values().subrange(start * row_size(self.dims()), end * row_size(self.dims()))
            },
            r matches Err(e) ==> {
                &&& self.dims().len() == 0 ==> e == TensorError::RankTooLow
                &&& self.dims().len() >= 1 ==> e == TensorError::IndexOutOfBounds
            },
    {
        proof { use_type_invariant(self); }
        if self.shape.len() == 0 {
            return Err(TensorError::RankTooLow);
        }
        let total = self.shape[0];
        if start > end || end > total {
            return Err(TensorError::IndexOutOfBounds);
        }
        let len = self.data.len();
        let ghost rs = row_size(self.shape@);
        proof { lemma_size_rows(self.shape@); }
        let mut sr = self.shape.clone();
        sr.set(0, end - start);
        proof {
            lemma_size_rows(sr@);
            assert(sr@.skip(1) == self.shape@.skip(1));
            assert((end - start) as nat * rs == end as nat * rs - start as nat * rs) by (nonlinear_arith)
                requires
                    start <= end,
            ;
            assert(start as nat * rs <= end as nat * rs && end as nat * rs <= total as nat * rs) by (nonlinear_arith)
                requires
                    start <= end <= total,
            ;
        }
        let (lo, hi) = if total == 0 {
            (0, 0)
        } else {
            proof {
                assert(len as int == rs * total + 0) by (nonlinear_arith)
                    requires
                        len as int == total * rs,
                ;
                lemma_fundamental_div_mod_converse(len as int, total as int, rs as int, 0);
            }
            let row = len / total;
            (start * row, end * row)
        };
        proof {
            if total == 0 {
                assert(start as nat * rs == 0 && end as nat * rs == 0) by (nonlinear_arith)
                    requires
                        start == 0,
                        end == 0,
                ;
            }
        }
        let mut out: Vec<T> = Vec::with_capacity(hi - lo);
        extend_range(&mut out, &self.data, lo, hi);
        assert(out@ == self.data@.subrange(lo as int, hi as int));
        Ok(Tensor { data: out, shape: sr })
    }

    /// Stacks tensors of one shape along a new leading axis.
    pub fn stack(tensors: &[Tensor<T>]) -> (r: Result<Tensor<T>, TensorError>)
        ensures
            r is Ok <==> {
                &&& tensors@.len() >= 1
                &&& forall|i: int| 0 <= i < tensors@.len() ==> #[trigger] tensors@[i].dims() == tensors@[0].dims()
                &&& tensors@.len() * shape_size(tensors@[0].dims()) <= usize::MAX
            },
            r matches Ok(t) ==> {
                &&& t.dims() == seq![tensors@.len() as usize] + tensors@[0].dims()
                &&& t.values() == concat_values(tensors@)
            },
            r matches Err(e) ==> {
                &&& tensors@.len() == 0 ==> e == TensorError::EmptyInput
                &&& (tensors@.len() >= 1 && exists|i: int| 0 <= i < tensors@.len() && #[trigger] tensors@[i].dims() != tensors@[0].dims())
                    ==> e == TensorError::ShapeMismatch
            },
    {
        let n = tensors.len();
        if n == 0 {
            return Err(TensorError::EmptyInput);
        }
        let first = &tensors[0];
        proof { use_type_invariant(first); }
        let mut i: usize = 1;
        while i < n
            invariant
                n == tensors@.len(),
                1 <= i <= n,
                *first == tensors@[0],
                forall|j: int| 0 <= j < i ==> #[trigger] tensors@[j].dims() == tensors@[0].dims(),
            decreases n - i,
        {
            if !same_shape(&tensors[i].shape, &first.shape) {
                assert(tensors@[i as int].dims() != tensors@[0].dims());
                return Err(TensorError::ShapeMismatch);
            }
            i = i + 1;
        }
        let len0 = first.data.len();
        let total = match n.checked_mul(len0) {
            Some(t) => t,
            None => {
                return Err(TensorError::TooLarge);
            },
        };
        let mut out: Vec<T> = Vec::with_capacity(total);
        let mut i: usize = 0;
        while i < n
            invariant
                n == tensors@.len(),
                i <= n,
                *first == tensors@[0],
                len0 as nat == shape_size(first.dims()),
                total as nat == n as nat * len0 as nat,
                forall|j: int| 0 <= j < n ==> #[trigger] tensors@[j].dims() == tensors@[0].dims(),
                out@ == concat_values(tensors@.take(i as int)),
                out@.len() == i as nat * len0 as nat,
            decreases n - i,
        {
            let t = &tensors[i];
            proof {
                use_type_invariant(t);
                assert(tensors@[i as int].dims() == tensors@[0].dims());
                lemma_concat_take(tensors@, i as int);
                assert((i as nat + 1) * len0 as nat == i as nat * len0 as nat + len0 as nat) by (nonlinear_arith);
            }
            extend_range(&mut out, &t.data, 0, t.data.len());
            assert(t.data@.subrange(0, t.data@.len() as int) == t.values());
            i = i + 1;
        }
        assert(tensors@.take(n as int) == tensors@);
        let mut shape: Vec<usize> = vec![n];
        let mut rest = first.shape.clone();
        shape.append(&mut rest);
        proof {
            assert(shape@ == seq![n] + first.dims());
            lemma_size_rows(shape@);
            assert(shape@.skip(1) == first.dims());
        }
        Ok(Tensor { data: out, shape })
    }
}

/// The elements that a reduction along an axis of extent `n` collapses into
/// output position `p`, where `inner` is the size of the axes after it.
pub open spec fn fibre<T>(s: Seq<T>, n: nat, inner: nat, p: nat) -> Seq<T> {
    Seq::new(n, |k: int| s[(p / inner) as int * (n * inner) + k * inner + (p % inner) as int])
}

/// `x` compares greater than `y`.
pub open spec fn greater<T: PartialOrd>(x: T, y: T) -> bool {
    x.partial_cmp_spec(&y) == Some(core::cmp::Ordering::Greater)
}

/// The index that a left-to-right scan for the largest element settles on:
/// a later element replaces the current one only if it compares greater, so
/// among equal maxima the first wins.
pub open spec fn max_index<T: PartialOrd>(s: Seq<T>) -> nat
    decreases s.len(),
{
    if s.len() <= 1 {
        0
    } else {
        let m = max_index(s.drop_last());
        if greater(s.last(), s[m as int]) {
            (s.len() - 1) as nat
        } else {
            m
        }
    }
}

/// Comparison on `T` is a strict total order: `greater` is asymmetric and
/// transitive, and any two different values are ordered.
pub open spec fn is_total_order<T: PartialOrd>() -> bool {
    &&& forall|x: T, y: T| #[trigger] greater(x, y) ==> !greater(y, x)
    &&& forall|x: T, y: T, z: T| #[trigger] greater(x, y) && #[trigger] greater(y, z) ==> greater(x, z)
    &&& forall|x: T, y: T| x != y ==> #[trigger] greater(x, y) || greater(y, x)
}

/// Comparison on `i64` is a total order.
pub proof fn lemma_i64_total_order()
    ensures
        is_total_order::<i64>(),
{
}

/// Under a total order, `max_index` names a largest element, and the first
/// one: no element is greater, and every element before it is smaller.
pub proof fn lemma_max_index_is_first_max<T: PartialOrd>(s: Seq<T>)
    requires
        is_total_order::<T>(),
        s.len() > 0,
    ensures
        max_index(s) < s.len(),
        forall|j: int| 0 <= j < s.len() ==> !greater(#[trigger] s[j], s[max_index(s) as int]),
        forall|j: int| 0 <= j < max_index(s) ==> greater(s[max_index(s) as int], #[trigger] s[j]),
    decreases s.len(),
{
    if s.len() > 1 {
        let t = s.drop_last();
        lemma_max_index_is_first_max(t);
        let m = max_index(t);
        let x = s.last();
        assert(t[m as int] == s[m as int]);
        if greater(x, s[m as int]) {
            assert forall|j: int| 0 <= j < s.len() implies !greater(#[trigger] s[j], x) by {
                if j < s.len() - 1 {
                    assert(t[j] == s[j]);
                    assert(!greater(t[j], t[m as int]));
                    if greater(s[j], x) {
                        assert(greater(s[j], s[m as int]));
                    }
                }
            }
            assert forall|j: int| 0 <= j < s.len() - 1 implies greater(x, #[trigger] s[j]) by {
                assert(t[j] == s[j]);
                assert(!greater(t[j], t[m as int]));
                if s[j] != s[m as int] {
                    assert(greater(s[m as int], s[j]));
                }
            }
        } else {
            assert forall|j: int| 0 <= j < s.len() implies !greater(#[trigger] s[j], s[m as int]) by {
                if j < s.len() - 1 {
                    assert(t[j] == s[j]);
                }
            }
            assert forall|j: int| 0 <= j < m implies greater(s[m as int], #[trigger] s[j]) by {
                assert(t[j] == s[j]);
            }
        }
    }
}

/// The sum of a non-empty sequence, added from left to right.
pub open spec fn sum_of<T: core::ops::Add<Output = T>>(s: Seq<T>) -> T
    decreases s.len(),
{
    if s.len() <= 1 {
        s[0]
    } else {
        sum_of(s.drop_last()).add_spec(s.last())
    }
}

/// Entry `(i, j)` of the product of a matrix `a` with `k` columns and a
/// matrix `b` with `n` columns, summing the first `len` terms.
pub open spec fn dot<T: core::ops::Add<Output = T> + core::ops::Mul<Output = T>>(
    a: Seq<T>,
    b: Seq<T>,
    k: nat,
    n: nat,
    i: nat,
    j: nat,
    len: nat,
) -> T
    decreases len,
{
    if len <= 1 {
        a[(i * k) as int].mul_spec(b[j as int])
    } else {
        dot(a, b, k, n, i, j, (len - 1) as nat).add_spec(
            a[(i * k + len - 1) as int].mul_spec(b[((len - 1) * n + j) as int]),
        )
    }
}

/// Step `l` of the dot product for entry `(i, j)` stays within the element
/// type's arithmetic: the product is defined, and so is adding it to the
/// sum of the earlier steps.
pub open spec fn dot_step_fits<T: core::ops::Add<Output = T> + core::ops::Mul<Output = T>>(
    a: Seq<T>,
    b: Seq<T>,
    k: nat,
    n: nat,
    i: nat,
    j: nat,
    l: nat,
) -> bool {
    &&& a[(i * k + l) as int].mul_req(b[(l * n + j) as int])
    &&& l >= 1 ==> dot(a, b, k, n, i, j, l).add_req(a[(i * k + l) as int].mul_spec(b[(l * n + j) as int]))
}

/// The product of an `m x k` matrix `a` and a `k x n` matrix `b` can be
/// computed: where the element type's `+` and `*` follow their specs, every
/// product and partial sum that the product needs is defined (for machine
/// integers: does not overflow); otherwise `+` and `*` must be defined on
/// all values.
pub open spec fn matmul_fits<T: core::ops::Add<Output = T> + core::ops::Mul<Output = T>>(
    a: Seq<T>,
    b: Seq<T>,
    m: nat,
    k: nat,
    n: nat,
) -> bool {
    if T::obeys_add_spec() && T::obeys_mul_spec() {
        forall|i: nat, j: nat, l: nat| i < m && j < n && l < k ==> #[trigger] dot_step_fits(a, b, k, n, i, j, l)
    } else {
        &&& forall|x: T, y: T| #[trigger] x.add_req(y)
        &&& forall|x: T, y: T| #[trigger] x.mul_req(y)
    }
}

/// The left-to-right sum of `s` can be computed: where the element type's
/// `+` follows its spec, adding each element to the sum before it is defined
/// (for machine integers: does not overflow); otherwise `+` must be defined
/// on all values.
pub open spec fn sum_fits<T: core::ops::Add<Output = T>>(s: Seq<T>) -> bool {
    if T::obeys_add_spec() {
        forall|k: int| 1 <= k < s.len() ==> #[trigger] sum_of(s.take(k)).add_req(s[k])
    } else {
        forall|x: T, y: T| #[trigger] x.add_req(y)
    }
}

/// The extents `shape[start..end]`.
fn sub_shape(shape: &Vec<usize>, start: usize, end: usize) -> (r: Vec<usize>)
    requires
        start <= end <= shape@.len(),
    ensures
        r@ == shape@.subrange(start as int, end as int),
{
    let mut r: Vec<usize> = Vec::new();
    extend_range(&mut r, shape, start, end);
    r
}

/// The sizes of the axes before and after `axis`, given that removing the
/// axis leaves `m > 0` elements.
fn outer_inner(shape: &Vec<usize>, axis: usize, m: usize) -> (r: (usize, usize))
    requires
        axis < shape@.len(),
        m as nat == shape_size(shape@.remove(axis as int)),
        m > 0,
    ensures
        r.0 as nat == shape_size(shape@.take(axis as int)),
        r.1 as nat == shape_size(shape@.skip(axis as int + 1)),
        r.0 as nat * r.1 as nat == m as nat,
        r.0 > 0,
        r.1 > 0,
{
    proof { lemma_axis_sizes(shape@, axis as int); }
    let ghost a = shape_size(shape@.take(axis as int));
    let ghost c = shape_size(shape@.skip(axis as int + 1));
    assert(a > 0 && c > 0) by (nonlinear_arith)
        requires
            a * c == m as nat,
            m > 0,
    ;
    assert(a <= m && c <= m) by (nonlinear_arith)
        requires
            a * c == m as nat,
            a > 0,
            c > 0,
    ;
    let pre = sub_shape(shape, 0, axis);
    let rank = shape.len();
    let post = sub_shape(shape, axis + 1, rank);
    assert(pre@ == shape@.take(axis as int));
    assert(post@ == shape@.skip(axis as int + 1));
    let outer = match checked_size(&pre) {
        Some(x) => x,
        None => {
            // cannot happen: the axes before `axis` hold at most `m` elements
            assert(false);
            0
        },
    };
    let inner = match checked_size(&post) {
        Some(x) => x,
        None => {
            // cannot happen: the axes after `axis` hold at most `m` elements
            assert(false);
            0
        },
    };
    (outer, inner)
}

impl<T: Copy + PartialOrd> Tensor<T> {
    /// For every position of the other axes, the index along `axis` of the
    /// largest element (see `max_index`).
    pub fn argmax(&self, axis: usize) -> (r: Result<Tensor<usize>, TensorError>)
        ensures
            r is Ok <==> axis < self.dims().len()
                && (self.dims()[axis as int] > 0 || shape_size(self.dims().remove(axis as int)) == 0),
            r matches Ok(t) ==> {
                &&& t.dims() == self.dims().remove(axis as int)
                &&& t.values().len() == shape_size(self.dims().remove(axis as int))
                &&& forall|p: int| 0 <= p < t.values().len() ==> {
                    let f = fibre(self.values(), self.dims()[axis as int] as nat,
                        shape_size(self.dims().skip(axis + 1)), p as nat);
                    &&& #[trigger] t.values()[p] < self.dims()[axis as int]
                    &&& T::obeys_partial_cmp_spec() ==> t.values()[p] == max_index(f)
                }
            },
            r matches Err(e) ==> {
                &&& axis >= self.dims().len() ==> e == TensorError::AxisOutOfBounds
                &&& axis < self.dims().len() ==> e == TensorError::EmptyInput
            },
    {
        proof { use_type_invariant(self); }
        if axis >= self.shape.len() {
            return Err(TensorError::AxisOutOfBounds);
        }
        let n = self.shape[axis];
        let len = self.data.len();
        let mut rs = self.shape.clone();
        rs.remove(axis);
        if n == 0 {
            return match checked_size(&rs) {
                Some(0) => Ok(Tensor { data: Vec::new(), shape: rs }),
                _ => Err(TensorError::EmptyInput),
            };
        }
        proof { lemma_axis_sizes(self.shape@, axis as int); }
        let ghost a = shape_size(self.shape@.take(axis as int));
        let ghost c = shape_size(self.shape@.skip(axis as int + 1));
        assert(a * c <= a * (n * c)) by (nonlinear_arith)
            requires
                n >= 1,
        ;
        let m = match checked_size(&rs) {
            Some(x) => x,
            None => {
                // cannot happen: with a non-zero axis the result is no larger than the tensor
                assert(false);
                0
            },
        };
        if m == 0 {
            return Ok(Tensor { data: Vec::new(), shape: rs });
        }
        let (outer, inner) = outer_inner(&self.shape, axis, m);
        assert(n as nat * inner as nat <= outer as nat * (n as nat * inner as nat)) by (nonlinear_arith)
            requires
                outer >= 1,
        ;
        let block = n * inner;
        let mut out: Vec<usize> = Vec::with_capacity(m);
        let mut p: usize = 0;
        while p < m
            invariant
                p <= m,
                m as nat == outer as nat * inner as nat,
                len == self.data@.len(),
                len as nat == outer as nat * (n as nat * inner as nat),
                block as nat == n as nat * inner as nat,
                n == self.shape@[axis as int],
                n > 0,
                axis < self.shape@.len(),
                inner as nat == shape_size(self.shape@.skip(axis + 1)),
                out@.len() == p,
                forall|q: int| 0 <= q < p ==> {
                    let f = fibre(self.data@, n as nat, inner as nat, q as nat);
                    &&& #[trigger] out@[q] < n
                    &&& T::obeys_partial_cmp_spec() ==> out@[q] == max_index(f)
                },
            decreases m - p,
        {
            proof {
                lemma_div_lt(p as nat, inner as nat, outer as nat);
            }
            let o = p / inner;
            let i = p % inner;
            proof {
                lemma_row_end(o as nat, block as nat, outer as nat);
                lemma_row_end(0, inner as nat, n as nat);
            }
            let base = o * block + i;
            let ghost f = fibre(self.data@, n as nat, inner as nat, p as nat);
            let mut best: usize = 0;
            let mut k: usize = 1;
            assert(f.take(1).len() == 1);
            while k < n
                invariant
                    1 <= k <= n,
                    best < k,
                    base as nat == o as nat * block as nat + i as nat,
                    o as nat * block as nat + block as nat <= len as nat,
                    block as nat == n as nat * inner as nat,
                    i < inner,
                    len == self.data@.len(),
                    f == fibre(self.data@, n as nat, inner as nat, p as nat),
                    o == p / inner,
                    i == p % inner,
                    T::obeys_partial_cmp_spec() ==> best == max_index(f.take(k as int)),
                decreases n - k,
            {
                proof {
                    lemma_row_end(k as nat, inner as nat, n as nat);
                    lemma_row_end(best as nat, inner as nat, n as nat);
                    assert(f.take(k + 1).drop_last() == f.take(k as int));
                    assert(f.take(k + 1).last() == f[k as int]);
                    assert(f.take(k + 1)[best as int] == f[best as int]);
                }
                let cand = base + k * inner;
                let cur = base + best * inner;
                assert(f[k as int] == self.data@[cand as int]);
                assert(f[best as int] == self.data@[cur as int]);
                if self.data[cand] > self.data[cur] {
                    best = k;
                }
                k = k + 1;
            }
            assert(f.take(n as int) == f);
            out.push(best);
            p = p + 1;
        }
        Ok(Tensor { data: out, shape: rs })
    }

    /// The largest element of a non-empty tensor (see `max_index`).
    pub fn max(&self) -> (r: Result<T, TensorError>)
        ensures
            r is Ok <==> self.values().len() > 0,
            r matches Ok(x) ==> {
                &&& exists|i: int| 0 <= i < self.values().len() && x == #[trigger] self.values()[i]
                &&& T::obeys_partial_cmp_spec() ==> x == self.values()[max_index(self.values()) as int]
            },
            r matches Err(e) ==> e == TensorError::EmptyInput,
    {
        let n = self.data.len();
        if n == 0 {
            return Err(TensorError::EmptyInput);
        }
        let mut best: usize = 0;
        let mut k: usize = 1;
        while k < n
            invariant
                1 <= k <= n,
                n == self.data@.len(),
                best < k,
                T::obeys_partial_cmp_spec() ==> best == max_index(self.data@.take(k as int)),
            decreases n - k,
        {
            proof {
                let s = self.data@.take(k + 1);
                assert(s.drop_last() == self.data@.take(k as int));
                assert(s.last() == self.data@[k as int]);
                assert(s[best as int] == self.data@[best as int]);
            }
            if self.data[k] > self.data[best] {
                best = k;
            }
            k = k + 1;
        }
        assert(self.data@.take(n as int) == self.data@);
        assert(self.values()[best as int] == self.data@[best as int]);
        Ok(self.data[best])
    }
}

/// `count` copies of `T::default()`.
fn defaults<T: Copy + Default>(count: usize) -> (r: Vec<T>)
    ensures
        r@.len() == count,
        forall|q: int| 0 <= q < count ==> call_ensures(T::default, (), #[trigger] r@[q]),
        forall|p: int, q: int| 0 <= p < count && 0 <= q < count ==> #[trigger] r@[p] == #[trigger] r@[q],
{
    let d = T::default();
    let mut r: Vec<T> = Vec::with_capacity(count);
    let mut q: usize = 0;
    while q < count
        invariant
            q <= count,
            r@.len() == q,
            call_ensures(T::default, (), d),
            forall|j: int| 0 <= j < q ==> #[trigger] r@[j] == d,
        decreases count - q,
    {
        r.push(d);
        q = q + 1;
    }
    r
}

impl<T: Copy + Default + core::ops::Add<Output = T>> Tensor<T> {
    /// Collapses `axis` by summation; an axis of extent 0 sums to `T::default()`.
    pub fn sum_along_axis(&self, axis: usize) -> (r: Result<Tensor<T>, TensorError>)
        requires
            axis < self.dims().len() ==> forall|p: int| 0 <= p < shape_size(self.dims().remove(axis as int))
                ==> #[trigger] sum_fits(fibre(self.values(), self.dims()[axis as int] as nat,
                    shape_size(self.dims().skip(axis + 1)), p as nat)),
        ensures
            r is Ok <==> axis < self.dims().len() && shape_size(self.dims().remove(axis as int)) <= usize::MAX,
            r matches Ok(t) ==> {
                &&& t.dims() == self.dims().remove(axis as int)
                &&& t.values().len() == shape_size(self.dims().remove(axis as int))
                &&& self.dims()[axis as int] == 0 ==> forall|p: int| 0 <= p < t.values().len()
                    ==> call_ensures(T::default, (), #[trigger] t.values()[p])
                &&& self.dims()[axis as int] == 0 ==> forall|p: int, q: int|
                    0 <= p < t.values().len() && 0 <= q < t.values().len()
                    ==> #[trigger] t.values()[p] == #[trigger] t.values()[q]
                &&& self.dims()[axis as int] > 0 && T::obeys_add_spec() ==> forall|p: int| 0 <= p < t.values().len()
                    ==> #[trigger] t.values()[p] == sum_of(fibre(self.values(), self.dims()[axis as int] as nat,
                        shape_size(self.dims().skip(axis + 1)), p as nat))
            },
            r matches Err(e) ==> {
                &&& axis >= self.dims().len() ==> e == TensorError::AxisOutOfBounds
                &&& axis < self.dims().len() ==> e == TensorError::TooLarge
            },
    {
        proof { use_type_invariant(self); }
        if axis >= self.shape.len() {
            return Err(TensorError::AxisOutOfBounds);
        }
        let n = self.shape[axis];
        let len = self.data.len();
        let mut rs = self.shape.clone();
        rs.remove(axis);
        proof { lemma_axis_sizes(self.shape@, axis as int); }
        let m = match checked_size(&rs) {
            Some(x) => x,
            None => {
                return Err(TensorError::TooLarge);
            },
        };
        if n == 0 {
            return Ok(Tensor { data: defaults(m), shape: rs });
        }
        if m == 0 {
            return Ok(Tensor { data: Vec::new(), shape: rs });
        }
        let (outer, inner) = outer_inner(&self.shape, axis, m);
        assert(n as nat * inner as nat <= outer as nat * (n as nat * inner as nat)) by (nonlinear_arith)
            requires
                outer >= 1,
        ;
        assert forall|q: int| 0 <= q < m implies #[trigger] sum_fits(fibre(self.data@, n as nat, inner as nat, q as nat)) by {
            assert(sum_fits(fibre(self.values(), self.dims()[axis as int] as nat,
                shape_size(self.dims().skip(axis + 1)), q as nat)));
        }
        let block = n * inner;
        let mut out: Vec<T> = Vec::with_capacity(m);
        let mut p: usize = 0;
        while p < m
            invariant
                p <= m,
                m as nat == outer as nat * inner as nat,
                len == self.data@.len(),
                len as nat == outer as nat * (n as nat * inner as nat),
                block as nat == n as nat * inner as nat,
                n == self.shape@[axis as int],
                n > 0,
                axis < self.shape@.len(),
                inner as nat == shape_size(self.shape@.skip(axis + 1)),
                forall|q: int| 0 <= q < m ==> #[trigger] sum_fits(fibre(self.data@, n as nat, inner as nat, q as nat)),
                out@.len() == p,
                T::obeys_add_spec() ==> forall|q: int| 0 <= q < p ==>
                    #[trigger] out@[q] == sum_of(fibre(self.data@, n as nat, inner as nat, q as nat)),
            decreases m - p,
        {
            proof {
                lemma_div_lt(p as nat, inner as nat, outer as nat);
            }
            let o = p / inner;
            let i = p % inner;
            proof {
                lemma_row_end(o as nat, block as nat, outer as nat);
                lemma_row_end(0, inner as nat, n as nat);
            }
            let base = o * block + i;
            let ghost f = fibre(self.data@, n as nat, inner as nat, p as nat);
            let mut acc: T = self.data[base];
            let mut k: usize = 1;
            proof {
                assert(f.take(1).len() == 1);
                assert(f[0] == self.data@[base as int]);
            }
            while k < n
                invariant
                    1 <= k <= n,
                    base as nat == o as nat * block as nat + i as nat,
                    o as nat * block as nat + block as nat <= len as nat,
                    block as nat == n as nat * inner as nat,
                    i < inner,
                    len == self.data@.len(),
                    f == fibre(self.data@, n as nat, inner as nat, p as nat),
                    o == p / inner,
                    i == p % inner,
                    sum_fits(f),
                    T::obeys_add_spec() ==> acc == sum_of(f.take(k as int)),
                decreases n - k,
            {
                proof {
                    lemma_row_end(k as nat, inner as nat, n as nat);
                    assert(f.take(k + 1).drop_last() == f.take(k as int));
                    assert(f.take(k + 1).last() == f[k as int]);
                }
                let cand = base + k * inner;
                assert(f[k as int] == self.data@[cand as int]);
                proof {
                    if T::obeys_add_spec() {
                        assert(sum_of(f.take(k as int)).add_req(f[k as int]));
                    }
                }
                acc = acc + self.data[cand];
                k = k + 1;
            }
            assert(f.take(n as int) == f);
            out.push(acc);
            p = p + 1;
        }
        Ok(Tensor { data: out, shape: rs })
    }

    /// The sum of all elements, added in row-major order; an empty tensor
    /// sums to `T::default()`.
    pub fn sum(&self) -> (r: T)
        requires
            sum_fits(self.values()),
        ensures
            self.values().len() == 0 ==> call_ensures(T::default, (), r),
            self.values().len() > 0 && T::obeys_add_spec() ==> r == sum_of(self.values()),
    {
        let n = self.data.len();
        if n == 0 {
            return T::default();
        }
        let mut acc = self.data[0];
        let mut k: usize = 1;
        assert(self.data@.take(1).len() == 1);
        while k < n
            invariant
                1 <= k <= n,
                n == self.data@.len(),
                sum_fits(self.data@),
                T::obeys_add_spec() ==> acc == sum_of(self.data@.take(k as int)),
            decreases n - k,
        {
            proof {
                let s = self.data@.take(k + 1);
                assert(s.drop_last() == self.data@.take(k as int));
                assert(s.last() == self.data@[k as int]);
            }
            proof {
                if T::obeys_add_spec() {
                    assert(sum_of(self.data@.take(k as int)).add_req(self.data@[k as int]));
                }
            }
            acc = acc + self.data[k];
            k = k + 1;
        }
        assert(self.data@.take(n as int) == self.data@);
        acc
    }

    /// Collapses `axis` by summation; the same operation as `sum_along_axis`.
    pub fn reduce_sum(&self, axis: usize) -> (r: Result<Tensor<T>, TensorError>)
        requires
            axis < self.dims().len() ==> forall|p: int| 0 <= p < shape_size(self.dims().remove(axis as int))
                ==> #[trigger] sum_fits(fibre(self.values(), self.dims()[axis as int] as nat,
                    shape_size(self.dims().skip(axis + 1)), p as nat)),
        ensures
            r is Ok <==> axis < self.dims().len() && shape_size(self.dims().remove(axis as int)) <= usize::MAX,
            r matches Ok(t) ==> {
                &&& t.dims() == self.dims().remove(axis as int)
                &&& t.values().len() == shape_size(self.dims().remove(axis as int))
                &&& self.dims()[axis as int] == 0 ==> forall|p: int| 0 <= p < t.values().len()
                    ==> call_ensures(T::default, (), #[trigger] t.values()[p])
                &&& self.dims()[axis as int] == 0 ==> forall|p: int, q: int|
                    0 <= p < t.values().len() && 0 <= q < t.values().len()
                    ==> #[trigger] t.values()[p] == #[trigger] t.values()[q]
                &&& self.dims()[axis as int] > 0 && T::obeys_add_spec() ==> forall|p: int| 0 <= p < t.values().len()
                    ==> #[trigger] t.values()[p] == sum_of(fibre(self.values(), self.dims()[axis as int] as nat,
                        shape_size(self.dims().skip(axis + 1)), p as nat))
            },
            r matches Err(e) ==> {
                &&& axis >= self.dims().len() ==> e == TensorError::AxisOutOfBounds
                &&& axis < self.dims().len() ==> e == TensorError::TooLarge
            },
    {
        self.sum_along_axis(axis)
    }
}

impl<T: Copy + Default + core::ops::Add<Output = T> + core::ops::Mul<Output = T>> Tensor<T> {
    /// The matrix product of two tensors of rank exactly 2; with an inner
    /// extent of 0 every entry is `T::default()`.
    pub fn matmul(&self, other: &Tensor<T>) -> (r: Result<Tensor<T>, TensorError>)
        requires
            self.dims().len() == 2 && other.dims().len() == 2 && self.dims()[1] == other.dims()[0]
                ==> matmul_fits(self.values(), other.values(), self.dims()[0] as nat, self.dims()[1] as nat,
                    other.dims()[1] as nat),
        ensures
            r is Ok <==> {
                &&& self.dims().len() == 2
                &&& other.dims().len() == 2
                &&& self.dims()[1] == other.dims()[0]
                &&& self.dims()[0] as nat * other.dims()[1] as nat <= usize::MAX
            },
            r matches Ok(t) ==> {
                let k = self.dims()[1] as nat;
                let n = other.dims()[1] as nat;
                &&& t.dims() == seq![self.dims()[0], other.dims()[1]]
                &&& t.values().len() == self.dims()[0] as nat * n
                &&& k == 0 ==> forall|p: int| 0 <= p < t.values().len()
                    ==> call_ensures(T::default, (), #[trigger] t.values()[p])
                &&& k > 0 && T::obeys_add_spec() && T::obeys_mul_spec() ==> forall|p: int| 0 <= p < t.values().len()
                    ==> #[trigger] t.values()[p] == dot(self.values(), other.values(), k, n, p as nat / n, p as nat % n, k)
            },
            r matches Err(e) ==> {
                &&& self.dims().len() < 2 ==> e == TensorError::RankTooLow
                &&& self.dims().len() > 2 ==> e == TensorError::RankTooHigh
                &&& self.dims().len() == 2 && other.dims().len() < 2 ==> e == TensorError::RankTooLow
                &&& self.dims().len() == 2 && other.dims().len() > 2 ==> e == TensorError::RankTooHigh
                &&& self.dims().len() == 2 && other.dims().len() == 2 && self.dims()[1] != other.dims()[0]
                    ==> e == TensorError::ShapeMismatch
            },
    {
        proof { use_type_invariant(self); use_type_invariant(other); }
        if self.shape.len() < 2 {
            return Err(TensorError::RankTooLow);
        }
        if self.shape.len() > 2 {
            return Err(TensorError::RankTooHigh);
        }
        if other.shape.len() < 2 {
            return Err(TensorError::RankTooLow);
        }
        if other.shape.len() > 2 {
            return Err(TensorError::RankTooHigh);
        }
        let m = self.shape[0];
        let k = self.shape[1];
        let n = other.shape[1];
        if other.shape[0] != k {
            return Err(TensorError::ShapeMismatch);
        }
        let total = match m.checked_mul(n) {
            Some(x) => x,
            None => {
                return Err(TensorError::TooLarge);
            },
        };
        let shape: Vec<usize> = vec![m, n];
        proof {
            lemma_size_2d(self.shape@);
            lemma_size_2d(other.shape@);
            lemma_size_2d(shape@);
        }
        if k == 0 {
            return Ok(Tensor { data: defaults(total), shape });
        }
        let ghost fits = matmul_fits(self.data@, other.data@, m as nat, k as nat, n as nat);
        assert(fits);
        let alen = self.data.len();
        let blen = other.data.len();
        let mut out: Vec<T> = Vec::with_capacity(total);
        let mut p: usize = 0;
        while p < total
            invariant
                p <= total,
                alen == self.data@.len(),
                blen == other.data@.len(),
                total as nat == m as nat * n as nat,
                self.data@.len() == m as nat * k as nat,
                other.data@.len() == k as nat * n as nat,
                k > 0,
                matmul_fits(self.data@, other.data@, m as nat, k as nat, n as nat),
                out@.len() == p,
                T::obeys_add_spec() && T::obeys_mul_spec() ==> forall|q: int| 0 <= q < p ==>
                    #[trigger] out@[q] == dot(self.data@, other.data@, k as nat, n as nat,
                        q as nat / n as nat, q as nat % n as nat, k as nat),
            decreases total - p,
        {
            proof {
                lemma_div_lt(p as nat, n as nat, m as nat);
            }
            let i = p / n;
            let j = p % n;
            proof {
                lemma_row_end(i as nat, k as nat, m as nat);
                lemma_row_end(0, n as nat, k as nat);
            }
            let row = i * k;
            proof {
                if T::obeys_add_spec() && T::obeys_mul_spec() {
                    assert(dot_step_fits(self.data@, other.data@, k as nat, n as nat, i as nat, j as nat, 0));
                }
            }
            let mut acc: T = self.data[row] * other.data[j];
            let mut l: usize = 1;
            while l < k
                invariant
                    1 <= l <= k,
                    alen == self.data@.len(),
                    blen == other.data@.len(),
                    row as nat == i as nat * k as nat,
                    i as nat * k as nat + k as nat <= self.data@.len(),
                    other.data@.len() == k as nat * n as nat,
                    j < n,
                    i < m,
                    matmul_fits(self.data@, other.data@, m as nat, k as nat, n as nat),
                    T::obeys_add_spec() && T::obeys_mul_spec() ==>
                        acc == dot(self.data@, other.data@, k as nat, n as nat, i as nat, j as nat, l as nat),
                decreases k - l,
            {
                proof {
                    lemma_row_end(l as nat, n as nat, k as nat);
                    if T::obeys_add_spec() && T::obeys_mul_spec() {
                        assert(dot_step_fits(self.data@, other.data@, k as nat, n as nat, i as nat, j as nat, l as nat));
                    }
                }
                let prod = self.data[row + l] * other.data[l * n + j];
                acc = acc + prod;
                l = l + 1;
            }
            out.push(acc);
            p = p + 1;
        }
        Ok(Tensor { data: out, shape })
    }
}

/// The elements of a tensor of shape `dims` after its axes are reordered by
/// `axes`, in row-major order of the new shape.
pub open spec fn permuted_values<T>(values: Seq<T>, dims: Seq<usize>, axes: Seq<usize>) -> Seq<T> {
    let pd = permuted(dims, axes);
    Seq::new(
        shape_size(pd),
        |j: int| values[flat_index(unpermuted(unflat_index(j as nat, pd), axes), dims) as int],
    )
}

/// Decides whether `axes` lists each of `0..n` exactly once.
fn check_permutation(axes: &Vec<usize>, n: usize) -> (r: bool)
    ensures
        r == is_permutation(axes@, n as nat),
{
    if axes.len() != n {
        return false;
    }
    let mut k: usize = 0;
    while k < n
        invariant
            axes@.len() == n,
            k <= n,
            forall|j: int| 0 <= j < k ==> #[trigger] axes@[j] < n,
        decreases n - k,
    {
        if axes[k] >= n {
            return false;
        }
        k = k + 1;
    }
    let mut k1: usize = 0;
    while k1 < n
        invariant
            axes@.len() == n,
            k1 <= n,
            forall|j: int| 0 <= j < n ==> #[trigger] axes@[j] < n,
            forall|j1: int, j2: int| 0 <= j1 < k1 && 0 <= j2 < k1 && j1 != j2
                ==> #[trigger] axes@[j1] != #[trigger] axes@[j2],
        decreases n - k1,
    {
        let mut k2: usize = 0;
        while k2 < k1
            invariant
                axes@.len() == n,
                k2 <= k1 < n,
                forall|j: int| 0 <= j < n ==> #[trigger] axes@[j] < n,
                forall|j1: int, j2: int| 0 <= j1 < k1 && 0 <= j2 < k1 && j1 != j2
                    ==> #[trigger] axes@[j1] != #[trigger] axes@[j2],
                forall|j: int| 0 <= j < k2 ==> #[trigger] axes@[j] != axes@[k1 as int],
            decreases k1 - k2,
        {
            if axes[k1] == axes[k2] {
                return false;
            }
            k2 = k2 + 1;
        }
        k1 = k1 + 1;
    }
    let mut a: usize = 0;
    while a < n
        invariant
            axes@.len() == n,
            a <= n,
            forall|j: int| 0 <= j < n ==> #[trigger] axes@[j] < n,
            forall|j1: int, j2: int| 0 <= j1 < n && 0 <= j2 < n && j1 != j2
                ==> #[trigger] axes@[j1] != #[trigger] axes@[j2],
            forall|b: int| 0 <= b < a ==> #[trigger] lists(axes@, b),
        decreases n - a,
    {
        let mut k: usize = 0;
        let mut found = false;
        while k < n
            invariant
                axes@.len() == n,
                k <= n,
                found ==> lists(axes@, a as int),
                !found ==> forall|j: int| 0 <= j < k ==> #[trigger] axes@[j] != a,
            decreases n - k,
        {
            if axes[k] == a {
                found = true;
            }
            k = k + 1;
        }
        if !found {
            assert(!lists(axes@, a as int));
            return false;
        }
        a = a + 1;
    }
    true
}

impl<T: Copy> Tensor<T> {
    /// Reorders the axes: axis `k` of the result is axis `axes[k]` of this
    /// tensor; `axes` must list every axis exactly once.
    pub fn permute(&self, axes: &Vec<usize>) -> (r: Result<Tensor<T>, TensorError>)
        ensures
            r is Ok <==> is_permutation(axes@, self.dims().len()),
            r matches Ok(t) ==> {
                &&& t.dims() == permuted(self.dims(), axes@)
                &&& t.values() == permuted_values(self.values(), self.dims(), axes@)
            },
            r matches Err(e) ==> e == TensorError::InvalidPermutation,
    {
        proof { use_type_invariant(self); }
        let n = self.shape.len();
        if !check_permutation(axes, n) {
            return Err(TensorError::InvalidPermutation);
        }
        let mut pd: Vec<usize> = Vec::with_capacity(n);
        let mut k: usize = 0;
        while k < n
            invariant
                n == self.shape@.len(),
                is_permutation(axes@, n as nat),
                k <= n,
                pd@ == permuted(self.shape@, axes@).take(k as int),
            decreases n - k,
        {
            assert(axes@[k as int] < n);
            pd.push(self.shape[axes[k]]);
            k = k + 1;
            assert(pd@ == permuted(self.shape@, axes@).take(k as int));
        }
        assert(pd@ == permuted(self.shape@, axes@));
        proof { lemma_size_permuted(self.shape@, axes@); }
        let len = self.data.len();
        let mut out: Vec<T> = Vec::with_capacity(len);
        let mut j: usize = 0;
        while j < len
            invariant
                n == self.shape@.len(),
                is_permutation(axes@, n as nat),
                pd@ == permuted(self.shape@, axes@),
                len == self.data@.len(),
                len as nat == shape_size(pd@),
                len as nat == shape_size(self.shape@),
                j <= len,
                out@.len() == j,
                forall|q: int| 0 <= q < j ==> #[trigger] out@[q]
                    == permuted_values(self.data@, self.shape@, axes@)[q],
            decreases len - j,
        {
            let o = unravel(j, &pd);
            let mut src: Vec<usize> = vec![0; n];
            let mut k: usize = 0;
            while k < n
                invariant
                    n == self.shape@.len(),
                    is_permutation(axes@, n as nat),
                    o@.len() == n,
                    src@.len() == n,
                    k <= n,
                    forall|q: int| 0 <= q < k ==> src@[#[trigger] axes@[q] as int] == o@[q],
                decreases n - k,
            {
                let ghost before = src@;
                assert(axes@[k as int] < n);
                src.set(axes[k], o[k]);
                assert forall|q: int| 0 <= q < k + 1 implies src@[#[trigger] axes@[q] as int] == o@[q] by {
                    if q < k {
                        assert(axes@[q] != axes@[k as int]);
                        assert(src@[axes@[q] as int] == before[axes@[q] as int]);
                    }
                }
                k = k + 1;
            }
            assert(src@ == unpermuted(o@, axes@)) by {
                assert forall|a: int| 0 <= a < n implies #[trigger] src@[a] == unpermuted(o@, axes@)[a] by {
                    assert(lists(axes@, a));
                    let q = position_of(axes@, a);
                    assert(axes@[q] == a);
                }
            }
            proof { lemma_unpermuted_in(o@, self.shape@, axes@); }
            let p = ravel(&src, &self.shape);
            proof { lemma_flat_bound(src@, self.shape@); }
            out.push(self.data[p]);
            j = j + 1;
        }
        assert(out@ == permuted_values(self.data@, self.shape@, axes@));
        Ok(Tensor { data: out, shape: pd })
    }

    /// Reverses the order of the axes; needs at least two axes.
    pub fn transpose(&self) -> (r: Result<Tensor<T>, TensorError>)
        ensures
            r is Ok <==> self.dims().len() >= 2,
            r matches Ok(t) ==> {
                &&& t.dims() == permuted(self.dims(), reversed_axes(self.dims().len()))
                &&& t.values() == permuted_values(self.values(), self.dims(), reversed_axes(self.dims().len()))
            },
            r matches Err(e) ==> e == TensorError::RankTooLow,
    {
        let n = self.shape.len();
        if n < 2 {
            return Err(TensorError::RankTooLow);
        }
        let mut axes: Vec<usize> = Vec::with_capacity(n);
        let mut k: usize = 0;
        while k < n
            invariant
                n == self.shape@.len(),
                k <= n,
                axes@ == reversed_axes(n as nat).take(k as int),
            decreases n - k,
        {
            axes.push(n - 1 - k);
            k = k + 1;
            assert(axes@ == reversed_axes(n as nat).take(k as int));
        }
        assert(axes@ == reversed_axes(n as nat));
        proof { lemma_reversed_is_permutation(n as nat); }
        self.permute(&axes)
    }
}

/// The extents of the region that `ranges` selects.
pub open spec fn range_extents(ranges: Seq<core::ops::Range<usize>>) -> Seq<usize> {
    Seq::new(ranges.len(), |k: int| (ranges[k].end - ranges[k].start) as usize)
}

/// Every range is ordered and lies within its axis.
pub open spec fn ranges_fit(ranges: Seq<core::ops::Range<usize>>, dims: Seq<usize>) -> bool {
    &&& ranges.len() == dims.len()
    &&& forall|k: int| 0 <= k < ranges.len() ==> (#[trigger] ranges[k]).start <= ranges[k].end && ranges[k].end <= dims[k]
}

/// A multi-index of the selected region, moved to the position it has in
/// the whole tensor.
pub open spec fn shifted(idx: Seq<usize>, ranges: Seq<core::ops::Range<usize>>) -> Seq<usize> {
    Seq::new(idx.len(), |k: int| (idx[k] + ranges[k].start) as usize)
}

/// The elements of the region that `ranges` selects, in row-major order.
pub open spec fn sliced_values<T>(values: Seq<T>, dims: Seq<usize>, ranges: Seq<core::ops::Range<usize>>) -> Seq<T> {
    let sd = range_extents(ranges);
    Seq::new(shape_size(sd), |j: int| values[flat_index(shifted(unflat_index(j as nat, sd), ranges), dims) as int])
}

impl<T: Copy> Tensor<T> {
    /// Copies out the region given by one half-open range per axis.
    pub fn slice(&self, ranges: Vec<core::ops::Range<usize>>) -> (r: Result<Tensor<T>, TensorError>)
        ensures
            r is Ok <==> ranges_fit(ranges@, self.dims()),
            r matches Ok(t) ==> {
                &&& t.dims() == range_extents(ranges@)
                &&& t.values() == sliced_values(self.values(), self.dims(), ranges@)
            },
            r matches Err(e) ==> {
                &&& ranges@.len() != self.dims().len() ==> e == TensorError::ShapeMismatch
                &&& ranges@.len() == self.dims().len() ==> e == TensorError::IndexOutOfBounds
            },
    {
        proof { use_type_invariant(self); }
        let n = self.shape.len();
        if ranges.len() != n {
            return Err(TensorError::ShapeMismatch);
        }
        let mut sd: Vec<usize> = Vec::with_capacity(n);
        let mut k: usize = 0;
        while k < n
            invariant
                n == self.shape@.len(),
                n == ranges@.len(),
                k <= n,
                forall|q: int| 0 <= q < k ==> (#[trigger] ranges@[q]).start <= ranges@[q].end && ranges@[q].end <= self.shape@[q],
                sd@ == range_extents(ranges@).take(k as int),
            decreases n - k,
        {
            let start = ranges[k].start;
            let end = ranges[k].end;
            if start > end || end > self.shape[k] {
                return Err(TensorError::IndexOutOfBounds);
            }
            sd.push(end - start);
            k = k + 1;
            assert(sd@ == range_extents(ranges@).take(k as int));
        }
        assert(sd@ == range_extents(ranges@));
        proof {
            assert forall|q: int| 0 <= q < n implies #[trigger] sd@[q] <= self.shape@[q] by {
                assert(ranges@[q].start <= ranges@[q].end && ranges@[q].end <= self.shape@[q]);
            }
            lemma_size_le(sd@, self.shape@);
        }
        let len = self.data.len();
        let m = match checked_size(&sd) {
            Some(x) => x,
            None => {
                // cannot happen: each range lies within its axis, so the region is no larger than the tensor
                assert(false);
                0
            },
        };
        let mut out: Vec<T> = Vec::with_capacity(m);
        let mut j: usize = 0;
        while j < m
            invariant
                n == self.shape@.len(),
                n == ranges@.len(),
                ranges_fit(ranges@, self.shape@),
                sd@ == range_extents(ranges@),
                m as nat == shape_size(sd@),
                len == self.data@.len(),
                len as nat == shape_size(self.shape@),
                j <= m,
                out@.len() == j,
                forall|q: int| 0 <= q < j ==> #[trigger] out@[q]
                    == sliced_values(self.data@, self.shape@, ranges@)[q],
            decreases m - j,
        {
            let o = unravel(j, &sd);
            let mut src: Vec<usize> = Vec::with_capacity(n);
            let mut k: usize = 0;
            while k < n
                invariant
                    n == self.shape@.len(),
                    n == ranges@.len(),
                    ranges_fit(ranges@, self.shape@),
                    sd@ == range_extents(ranges@),
                    index_in(o@, sd@),
                    k <= n,
                    src@ == shifted(o@, ranges@).take(k as int),
                    forall|q: int| 0 <= q < k ==> #[trigger] src@[q] < self.shape@[q],
                decreases n - k,
            {
                assert(o@[k as int] < sd@[k as int]);
                assert(ranges@[k as int].start <= ranges@[k as int].end && ranges@[k as int].end <= self.shape@[k as int]);
                src.push(o[k] + ranges[k].start);
                k = k + 1;
                assert(src@ == shifted(o@, ranges@).take(k as int));
            }
            assert(src@ == shifted(o@, ranges@));
            let p = ravel(&src, &self.shape);
            proof { lemma_flat_bound(src@, self.shape@); }
            out.push(self.data[p]);
            j = j + 1;
        }
        assert(out@ == sliced_values(self.data@, self.shape@, ranges@));
        Ok(Tensor { data: out, shape: sd })
    }
}

impl<T: Copy> Clone for Tensor<T> {
    /// A copy with its own buffer.
    fn clone(&self) -> (r: Tensor<T>)
        ensures
            r.values() == self.values(),
            r.dims() == self.dims(),
    {
        proof { use_type_invariant(self); }
        Tensor { data: self.to_vec(), shape: self.shape.clone() }
    }
}

impl<T: Copy + Default> Tensor<T> {
    /// A tensor of the given shape filled with `T::default()` (zero for numbers).
    pub fn zeros(shape: Vec<usize>) -> (r: Result<Tensor<T>, TensorError>)
        ensures
            r is Ok <==> shape_size(shape@) <= usize::MAX,
            r matches Ok(t) ==> {
                &&& t.dims() == shape@
                &&& t.values().len() == shape_size(shape@)
                &&& forall|i: int| 0 <= i < t.values().len() ==> call_ensures(T::default, (), #[trigger] t.values()[i])
            },
            r matches Err(e) ==> e == TensorError::TooLarge,
    {
        let n = match checked_size(&shape) {
            Some(n) => n,
            None => {
                return Err(TensorError::TooLarge);
            },
        };
        Ok(Tensor { data: defaults(n), shape })
    }
}

impl<T: Copy + Default> Default for Tensor<T> {
    /// A 1 x 1 tensor holding `T::default()`.
    fn default() -> (r: Tensor<T>)
        ensures
            r.dims() == seq![1usize, 1usize],
            r.values().len() == 1,
            call_ensures(T::default, (), r.values()[0]),
    {
        let shape: Vec<usize> = vec![1, 1];
        proof {
            assert(shape@ == seq![1usize, 1usize]);
            lemma_size_2d(shape@);
            assert(shape@[0] == 1 && shape@[1] == 1);
            assert(1nat * 1nat == 1nat) by (nonlinear_arith);
            assert(shape_size(shape@) == 1);
        }
        Tensor { data: defaults(1), shape }
    }
}

impl<T: Copy + PartialEq> PartialEq for Tensor<T> {
    /// Exact equality of shape and of every element.
    fn eq(&self, other: &Tensor<T>) -> (r: bool) {
        if !same_shape(&self.shape, &other.shape) {
            return false;
        }
        if self.data.len() != other.data.len() {
            return false;
        }
        let n = self.data.len();
        let mut i: usize = 0;
        while i < n
            invariant
                n == self.data@.len(),
                n == other.data@.len(),
                i <= n,
                self.shape@ == other.shape@,
                T::obeys_eq_spec() ==> forall|j: int| 0 <= j < i ==> (#[trigger] self.data@[j]).eq_spec(&other.data@[j]),
            decreases n - i,
        {
            if self.data[i] != other.data[i] {
                return false;
            }
            i = i + 1;
        }
        true
    }
}

impl<T: Copy + PartialEq> vstd::std_specs::cmp::PartialEqSpecImpl for Tensor<T> {
    open spec fn obeys_eq_spec() -> bool {
        T::obeys_eq_spec()
    }

    open spec fn eq_spec(&self, other: &Tensor<T>) -> bool {
        &&& self.dims() == other.dims()
        &&& self.values().len() == other.values().len()
        &&& forall|j: int| 0 <= j < self.values().len() ==> (#[trigger] self.values()[j]).eq_spec(&other.values()[j])
    }
}

/// Two shapes agree axis by axis.
fn same_shape(a: &Vec<usize>, b: &Vec<usize>) -> (r: bool)
    ensures
        r == (a@ == b@),
{
    if a.len() != b.len() {
        return false;
    }
    let mut i: usize = 0;
    while i < a.len()
        invariant
            a.len() == b.len(),
            i <= a.len(),
            forall|j: int| 0 <= j < i ==> a@[j] == b@[j],
        decreases a.len() - i,
    {
        if a[i] != b[i] {
            return false;
        }
        i = i + 1;
    }
    assert(a@ == b@);
    true
}

impl<T: Copy + core::ops::Add<Output = T>> Tensor<T> {
    /// Elementwise sum of two tensors of one shape.
    pub fn add(&self, other: &Tensor<T>) -> (r: Result<Tensor<T>, TensorError>)
        requires
            forall|i: int| 0 <= i < self.values().len() && i < other.values().len()
                ==> (#[trigger] self.values()[i]).add_req(other.values()[i]),
        ensures
            r is Ok <==> self.dims() == other.dims(),
            r matches Ok(t) ==> {
                &&& t.dims() == self.dims()
                &&& t.values().len() == self.values().len()
                &&& T::obeys_add_spec() ==> forall|i: int| 0 <= i < t.values().len()
                    ==> #[trigger] t.values()[i] == self.values()[i].add_spec(other.values()[i])
            },
            r matches Err(e) ==> e == TensorError::ShapeMismatch,
    {
        proof { use_type_invariant(self); use_type_invariant(other); }
        if !same_shape(&self.shape, &other.shape) {
            return Err(TensorError::ShapeMismatch);
        }
        let n = self.data.len();
        let mut data: Vec<T> = Vec::with_capacity(n);
        let mut i: usize = 0;
        while i < n
            invariant
                n == self.data@.len(),
                n == other.data@.len(),
                i <= n,
                data@.len() == i,
                forall|j: int| 0 <= j < n ==> (#[trigger] self.values()[j]).add_req(other.values()[j]),
                T::obeys_add_spec() ==> forall|j: int| 0 <= j < i
                    ==> #[trigger] data@[j] == self.data@[j].add_spec(other.data@[j]),
            decreases n - i,
        {
            assert(self.values()[i as int].add_req(other.values()[i as int]));
            data.push(self.data[i] + other.data[i]);
            i = i + 1;
        }
        Ok(Tensor { data, shape: self.shape.clone() })
    }

    /// Adds `amount` to every element.
    pub fn add_scalar(&self, amount: T) -> (r: Tensor<T>)
        requires
            forall|i: int| 0 <= i < self.values().len() ==> (#[trigger] self.values()[i]).add_req(amount),
        ensures
            r.dims() == self.dims(),
            r.values().len() == self.values().len(),
            T::obeys_add_spec() ==> forall|i: int| 0 <= i < r.values().len()
                ==> #[trigger] r.values()[i] == self.values()[i].add_spec(amount),
    {
        proof { use_type_invariant(self); }
        let n = self.data.len();
        let mut data: Vec<T> = Vec::with_capacity(n);
        let mut i: usize = 0;
        while i < n
            invariant
                n == self.data@.len(),
                i <= n,
                data@.len() == i,
                forall|j: int| 0 <= j < n ==> (#[trigger] self.values()[j]).add_req(amount),
                T::obeys_add_spec() ==> forall|j: int| 0 <= j < i
                    ==> #[trigger] data@[j] == self.data@[j].add_spec(amount),
            decreases n - i,
        {
            assert(self.values()[i as int].add_req(amount));
            data.push(self.data[i] + amount);
            i = i + 1;
        }
        Tensor { data, shape: self.shape.clone() }
    }
}

impl<T: Copy + core::ops::Div<Output = T>> Tensor<T> {
    /// Elementwise quotient of two tensors of one shape.
    pub fn div(&self, other: &Tensor<T>) -> (r: Result<Tensor<T>, TensorError>)
        requires
            forall|i: int| 0 <= i < self.values().len() && i < other.values().len()
                ==> (#[trigger] self.values()[i]).div_req(other.values()[i]),
        ensures
            r is Ok <==> self.dims() == other.dims(),
            r matches Ok(t) ==> {
                &&& t.dims() == self.dims()
                &&& t.values().len() == self.values().len()
                &&& T::obeys_div_spec() ==> forall|i: int| 0 <= i < t.values().len()
                    ==> #[trigger] t.values()[i] == self.values()[i].div_spec(other.values()[i])
            },
            r matches Err(e) ==> e == TensorError::ShapeMismatch,
    {
        proof { use_type_invariant(self); use_type_invariant(other); }
        if !same_shape(&self.shape, &other.shape) {
            return Err(TensorError::ShapeMismatch);
        }
        let n = self.data.len();
        let mut data: Vec<T> = Vec::with_capacity(n);
        let mut i: usize = 0;
        while i < n
            invariant
                n == self.data@.len(),
                n == other.data@.len(),
                i <= n,
                data@.len() == i,
                forall|j: int| 0 <= j < n ==> (#[trigger] self.values()[j]).div_req(other.values()[j]),
                T::obeys_div_spec() ==> forall|j: int| 0 <= j < i
                    ==> #[trigger] data@[j] == self.data@[j].div_spec(other.data@[j]),
            decreases n - i,
        {
            assert(self.values()[i as int].div_req(other.values()[i as int]));
            data.push(self.data[i] / other.data[i]);
            i = i + 1;
        }
        Ok(Tensor { data, shape: self.shape.clone() })
    }

    /// Divides every element by `amount`.
    pub fn div_scalar(&self, amount: T) -> (r: Tensor<T>)
        requires
            forall|i: int| 0 <= i < self.values().len() ==> (#[trigger] self.values()[i]).div_req(amount),
        ensures
            r.dims() == self.dims(),
            r.values().len() == self.values().len(),
            T::obeys_div_spec() ==> forall|i: int| 0 <= i < r.values().len()
                ==> #[trigger] r.values()[i] == self.values()[i].div_spec(amount),
    {
        proof { use_type_invariant(self); }
        let n = self.data.len();
        let mut data: Vec<T> = Vec::with_capacity(n);
        let mut i: usize = 0;
        while i < n
            invariant
                n == self.data@.len(),
                i <= n,
                data@.len() == i,
                forall|j: int| 0 <= j < n ==> (#[trigger] self.values()[j]).div_req(amount),
                T::obeys_div_spec() ==> forall|j: int| 0 <= j < i
                    ==> #[trigger] data@[j] == self.data@[j].div_spec(amount),
            decreases n - i,
        {
            assert(self.values()[i as int].div_req(amount));
            data.push(self.data[i] / amount);
            i = i + 1;
        }
        Tensor { data, shape: self.shape.clone() }
    }
}

impl<T: Copy + core::ops::Mul<Output = T>> Tensor<T> {
    /// Multiplies every element by `amount`.
    pub fn mul_scalar(&self, amount: T) -> (r: Tensor<T>)
        requires
            forall|i: int| 0 <= i < self.values().len() ==> (#[trigger] self.values()[i]).mul_req(amount),
        ensures
            r.dims() == self.dims(),
            r.values().len() == self.values().len(),
            T::obeys_mul_spec() ==> forall|i: int| 0 <= i < r.values().len()
                ==> #[trigger] r.values()[i] == self.values()[i].mul_spec(amount),
    {
        proof { use_type_invariant(self); }
        let n = self.data.len();
        let mut data: Vec<T> = Vec::with_capacity(n);
        let mut i: usize = 0;
        while i < n
            invariant
                n == self.data@.len(),
                i <= n,
                data@.len() == i,
                forall|j: int| 0 <= j < n ==> (#[trigger] self.values()[j]).mul_req(amount),
                T::obeys_mul_spec() ==> forall|j: int| 0 <= j < i
                    ==> #[trigger] data@[j] == self.data@[j].mul_spec(amount),
            decreases n - i,
        {
            assert(self.values()[i as int].mul_req(amount));
            data.push(self.data[i] * amount);
            i = i + 1;
        }
        Tensor { data, shape: self.shape.clone() }
    }
}

impl<T: Copy + core::ops::Sub<Output = T>> Tensor<T> {
    /// Subtracts `rhs` from this tensor in place, element by element; the
    /// shapes must agree, and on a mismatch nothing changes.
    pub fn sub_assign(&mut self, rhs: &Tensor<T>) -> (r: Result<(), TensorError>)
        requires
            forall|i: int| 0 <= i < old(self).values().len() && i < rhs.values().len()
                ==> (#[trigger] old(self).values()[i]).sub_req(rhs.values()[i]),
        ensures
            r is Ok <==> old(self).dims() == rhs.dims(),
            r matches Err(e) ==> e == TensorError::ShapeMismatch && *final(self) == *old(self),
            final(self).dims() == old(self).dims(),
            final(self).values().len() == old(self).values().len(),
            r is Ok && T::obeys_sub_spec() ==> forall|i: int| 0 <= i < final(self).values().len()
                ==> #[trigger] final(self).values()[i] == old(self).values()[i].sub_spec(rhs.values()[i]),
    {
        proof { use_type_invariant(&*self); use_type_invariant(rhs); }
        if !same_shape(&self.shape, &rhs.shape) {
            return Err(TensorError::ShapeMismatch);
        }
        let n = self.data.len();
        let mut data: Vec<T> = Vec::with_capacity(n);
        let mut i: usize = 0;
        while i < n
            invariant
                n == self.data@.len(),
                n == rhs.data@.len(),
                i <= n,
                data@.len() == i,
                forall|j: int| 0 <= j < n ==> (#[trigger] self.values()[j]).sub_req(rhs.values()[j]),
                T::obeys_sub_spec() ==> forall|j: int| 0 <= j < i
                    ==> #[trigger] data@[j] == self.data@[j].sub_spec(rhs.data@[j]),
            decreases n - i,
        {
            assert(self.values()[i as int].sub_req(rhs.values()[i as int]));
            data.push(self.data[i] - rhs.data[i]);
            i = i + 1;
        }
        self.data = data;
        Ok(())
    }
}

/// `normalize(min, max)` can be computed on `s`: where the element type's
/// `-` and `/` follow their specs, `max - min`, each `x - min` and each
/// quotient are defined (for machine integers: no overflow, no division by
/// zero); otherwise `-` and `/` must be defined on all values.
pub open spec fn normalize_fits<T: core::ops::Sub<Output = T> + core::ops::Div<Output = T>>(
    s: Seq<T>,
    min: T,
    max: T,
) -> bool {
    if T::obeys_sub_spec() && T::obeys_div_spec() {
        &&& max.sub_req(min)
        &&& forall|i: int| 0 <= i < s.len() ==> (#[trigger] s[i]).sub_req(min)
            && s[i].sub_spec(min).div_req(max.sub_spec(min))
    } else {
        &&& forall|x: T, y: T| #[trigger] x.sub_req(y)
        &&& forall|x: T, y: T| #[trigger] x.div_req(y)
    }
}

impl<T: Copy + core::ops::Sub<Output = T> + core::ops::Div<Output = T>> Tensor<T> {
    /// Maps every element `x` to `(x - min) / (max - min)`.
    pub fn normalize(&self, min: T, max: T) -> (r: Tensor<T>)
        requires
            normalize_fits(self.values(), min, max),
        ensures
            r.dims() == self.dims(),
            r.values().len() == self.values().len(),
            T::obeys_sub_spec() && T::obeys_div_spec() ==> forall|i: int| 0 <= i < r.values().len()
                ==> #[trigger] r.values()[i] == self.values()[i].sub_spec(min).div_spec(max.sub_spec(min)),
    {
        proof { use_type_invariant(self); }
        let range = max - min;
        let n = self.data.len();
        let mut data: Vec<T> = Vec::with_capacity(n);
        let mut i: usize = 0;
        while i < n
            invariant
                n == self.data@.len(),
                i <= n,
                data@.len() == i,
                T::obeys_sub_spec() ==> range == max.sub_spec(min),
                normalize_fits(self.data@, min, max),
                T::obeys_sub_spec() && T::obeys_div_spec() ==> forall|j: int| 0 <= j < i
                    ==> #[trigger] data@[j] == self.data@[j].sub_spec(min).div_spec(max.sub_spec(min)),
            decreases n - i,
        {
            assert(normalize_fits(self.data@, min, max));
            proof {
                if T::obeys_sub_spec() && T::obeys_div_spec() {
                    assert(self.data@[i as int].sub_req(min));
                }
            }
            let d = self.data[i] - min;
            data.push(d / range);
            i = i + 1;
        }
        Tensor { data, shape: self.shape.clone() }
    }
}

} // verus!
