//! Shapes, their sizes, and the row-major correspondence between
//! multi-indices and flat buffer positions.
use vstd::prelude::*;
use vstd::arithmetic::div_mod::{lemma_fundamental_div_mod, lemma_fundamental_div_mod_converse};

verus! {

/// The number of elements held by a tensor of the given shape.
pub open spec fn shape_size(shape: Seq<usize>) -> nat
    decreases shape.len(),
{
    if shape.len() == 0 {
        1
    } else {
        shape_size(shape.drop_last()) * (shape.last() as nat)
    }
}

/// `idx` names one element of a tensor of shape `shape`.
pub open spec fn index_in(idx: Seq<usize>, shape: Seq<usize>) -> bool {
    &&& idx.len() == shape.len()
    &&& forall|k: int| 0 <= k < idx.len() ==> #[trigger] idx[k] < shape[k]
}

/// Row-major position of a multi-index: the last axis varies fastest.
pub open spec fn flat_index(idx: Seq<usize>, shape: Seq<usize>) -> nat
    decreases idx.len(),
{
    if idx.len() == 0 || shape.len() == 0 {
        0
    } else {
        flat_index(idx.drop_last(), shape.drop_last()) * (shape.last() as nat) + (idx.last() as nat)
    }
}

/// The multi-index whose row-major position in `shape` is `i`.
pub open spec fn unflat_index(i: nat, shape: Seq<usize>) -> Seq<usize>
    decreases shape.len(),
{
    if shape.len() == 0 {
        Seq::empty()
    } else {
        let last = shape.last() as nat;
        unflat_index(i / last, shape.drop_last()).push((i % last) as usize)
    }
}

pub proof fn lemma_size_zero(shape: Seq<usize>, k: int)
    requires
        0 <= k < shape.len(),
        shape[k] == 0,
    ensures
        shape_size(shape) == 0,
    decreases shape.len(),
{
    let x = shape_size(shape.drop_last());
    let l = shape.last() as nat;
    if k < shape.len() - 1 {
        lemma_size_zero(shape.drop_last(), k);
        assert(x * l == 0) by (nonlinear_arith)
            requires
                x == 0,
        ;
    } else {
        assert(x * l == 0) by (nonlinear_arith)
            requires
                l == 0,
        ;
    }
}

/// With no zero extent, the size of a prefix never exceeds the size of the whole.
pub proof fn lemma_size_prefix(shape: Seq<usize>, k: int)
    requires
        0 <= k <= shape.len(),
        forall|j: int| 0 <= j < shape.len() ==> #[trigger] shape[j] > 0,
    ensures
        shape_size(shape.take(k)) <= shape_size(shape),
    decreases shape.len() - k,
{
    if k < shape.len() {
        let t = shape.take(k + 1);
        assert(t.drop_last() == shape.take(k));
        let a = shape_size(shape.take(k));
        let b = t.last() as nat;
        assert(a <= a * b) by (nonlinear_arith)
            requires
                b >= 1,
        ;
        lemma_size_prefix(shape, k + 1);
    } else {
        assert(shape.take(k) == shape);
    }
}

/// A flat position of an in-bounds multi-index lies within the shape's size.
pub proof fn lemma_flat_bound(idx: Seq<usize>, shape: Seq<usize>)
    requires
        index_in(idx, shape),
    ensures
        flat_index(idx, shape) < shape_size(shape),
    decreases idx.len(),
{
    if idx.len() > 0 {
        let i2 = idx.drop_last();
        let s2 = shape.drop_last();
        assert(index_in(i2, s2)) by {
            assert forall|k: int| 0 <= k < i2.len() implies #[trigger] i2[k] < s2[k] by {
                assert(idx[k] < shape[k]);
            }
        }
        lemma_flat_bound(i2, s2);
        let f = flat_index(i2, s2);
        let sz = shape_size(s2);
        let l = shape.last() as nat;
        let x = idx.last() as nat;
        assert(idx[idx.len() - 1] < shape[shape.len() - 1]);
        assert(f * l + x < sz * l) by (nonlinear_arith)
            requires
                f < sz,
                x < l,
        ;
    }
}

/// Every position below the size names exactly one in-bounds multi-index.
pub proof fn lemma_unflat(i: nat, shape: Seq<usize>)
    requires
        i < shape_size(shape),
    ensures
        index_in(unflat_index(i, shape), shape),
        flat_index(unflat_index(i, shape), shape) == i,
    decreases shape.len(),
{
    if shape.len() > 0 {
        let s2 = shape.drop_last();
        let l = shape.last() as nat;
        let sz = shape_size(s2);
        if l == 0 {
            assert(sz * l == 0) by (nonlinear_arith)
                requires
                    l == 0,
            ;
        }
        assert(l > 0);
        let q = i / l;
        let r = i % l;
        lemma_fundamental_div_mod(i as int, l as int);
        assert(q < sz) by (nonlinear_arith)
            requires
                l * q + r == i,
                0 <= r,
                i < sz * l,
                l > 0,
        ;
        lemma_unflat(q, s2);
        let u = unflat_index(i, shape);
        let u2 = unflat_index(q, s2);
        assert(u.drop_last() == u2);
        assert(q * l + r == i) by (nonlinear_arith)
            requires
                l * q + r == i,
        ;
        assert(flat_index(u, shape) == flat_index(u2, s2) * l + r);
        assert(index_in(u, shape)) by {
            assert forall|k: int| 0 <= k < u.len() implies #[trigger] u[k] < shape[k] by {
                if k < u.len() - 1 {
                    assert(u2[k] < s2[k]);
                }
            }
        }
    }
}

/// The multi-index of the position of an in-bounds multi-index is that multi-index.
pub proof fn lemma_flat_unflat(idx: Seq<usize>, shape: Seq<usize>)
    requires
        index_in(idx, shape),
    ensures
        unflat_index(flat_index(idx, shape), shape) == idx,
    decreases idx.len(),
{
    if idx.len() > 0 {
        let i2 = idx.drop_last();
        let s2 = shape.drop_last();
        assert(index_in(i2, s2)) by {
            assert forall|k: int| 0 <= k < i2.len() implies #[trigger] i2[k] < s2[k] by {
                assert(idx[k] < shape[k]);
            }
        }
        lemma_flat_unflat(i2, s2);
        let f = flat_index(i2, s2);
        let l = shape.last() as nat;
        let x = idx.last() as nat;
        assert(idx[idx.len() - 1] < shape[shape.len() - 1]);
        lemma_fundamental_div_mod_converse((f * l + x) as int, l as int, f as int, x as int);
        assert(unflat_index(flat_index(idx, shape), shape) == i2.push(idx.last()));
        assert(i2.push(idx.last()) == idx);
    }
}

/// `shape` broadcasts to `target`: after aligning trailing axes, each extent
/// of `shape` equals the matching target extent or is 1.
pub open spec fn broadcastable(shape: Seq<usize>, target: Seq<usize>) -> bool {
    &&& shape.len() <= target.len()
    &&& forall|k: int| 0 <= k < shape.len() ==> {
        let t = #[trigger] target[k + target.len() - shape.len()];
        shape[k] == t || shape[k] == 1
    }
}

/// The element of a tensor of shape `shape` that a broadcast places at the
/// target multi-index `idx`: axes of extent 1 are read at 0, the others at
/// the aligned target coordinate.
pub open spec fn broadcast_source(idx: Seq<usize>, shape: Seq<usize>) -> Seq<usize> {
    Seq::new(shape.len(), |k: int| if shape[k] == 1 { 0 } else { idx[k + idx.len() - shape.len()] })
}

/// The number of elements in one slice along axis 0.
pub open spec fn row_size(shape: Seq<usize>) -> nat {
    shape_size(shape.skip(1))
}

/// A shape of rank at least one holds `shape[0]` rows.
pub proof fn lemma_size_rows(shape: Seq<usize>)
    requires
        shape.len() >= 1,
    ensures
        shape_size(shape) == shape[0] as nat * row_size(shape),
{
    let h = seq![shape[0]];
    assert(h.drop_last() == Seq::<usize>::empty());
    assert(shape_size(h.drop_last()) == 1);
    assert(h.last() == shape[0]);
    assert(h.len() == 1);
    assert(shape_size(h) == shape_size(h.drop_last()) * (h.last() as nat));
    assert(shape_size(h) == shape[0] as nat);
    assert(shape == h + shape.skip(1));
    lemma_size_append(h, shape.skip(1));
}

/// Row `q` of `m` rows of length `row` ends within them.
pub proof fn lemma_row_end(q: nat, row: nat, m: nat)
    requires
        q < m,
    ensures
        q * row + row <= m * row,
{
    assert(q * row + row <= m * row) by (nonlinear_arith)
        requires
            q < m,
    ;
}

/// Splitting a shape around `axis`: the axes before it, the axis itself and
/// the axes after it multiply to the whole size, and removing the axis
/// leaves the product of the outer two.
pub proof fn lemma_axis_sizes(shape: Seq<usize>, axis: int)
    requires
        0 <= axis < shape.len(),
    ensures
        shape_size(shape) == shape_size(shape.take(axis)) * (shape[axis] * shape_size(shape.skip(axis + 1))),
        shape_size(shape.remove(axis)) == shape_size(shape.take(axis)) * shape_size(shape.skip(axis + 1)),
{
    let a = shape.take(axis);
    let b = shape.skip(axis);
    let c = shape.skip(axis + 1);
    assert(shape == a + b);
    assert(shape.remove(axis) == a + c);
    lemma_size_append(a, b);
    lemma_size_append(a, c);
    lemma_size_rows(b);
    assert(b.skip(1) == c);
}

/// For `p` below `m * n`, the quotient by `n` is below `m` and the remainder below `n`.
pub proof fn lemma_div_lt(p: nat, n: nat, m: nat)
    requires
        p < m * n,
    ensures
        n > 0,
        p / n < m,
        p % n < n,
        p == (p / n) * n + p % n,
{
    if n == 0 {
        assert(m * n == 0) by (nonlinear_arith)
            requires
                n == 0,
        ;
    }
    lemma_fundamental_div_mod(p as int, n as int);
    let q = p / n;
    let r = p % n;
    assert(q < m) by (nonlinear_arith)
        requires
            n * q + r == p,
            0 <= r,
            p < m * n,
            n > 0,
    ;
    assert(p == q * n + r) by (nonlinear_arith)
        requires
            n * q + r == p,
    ;
}

/// A shape of rank two holds `rows * columns` elements.
pub proof fn lemma_size_2d(shape: Seq<usize>)
    requires
        shape.len() == 2,
    ensures
        shape_size(shape) == shape[0] as nat * shape[1] as nat,
{
    lemma_size_rows(shape);
    let t = shape.skip(1);
    assert(t.drop_last() == Seq::<usize>::empty());
    assert(shape_size(t.drop_last()) == 1);
    assert(shape_size(t) == shape_size(t.drop_last()) * (t.last() as nat));
}

/// `a` occurs in `axes`.
pub open spec fn lists(axes: Seq<usize>, a: int) -> bool {
    exists|k: int| 0 <= k < axes.len() && #[trigger] axes[k] == a
}

/// `axes` lists each of `0..n` exactly once.
pub open spec fn is_permutation(axes: Seq<usize>, n: nat) -> bool {
    &&& axes.len() == n
    &&& forall|k: int| 0 <= k < n ==> #[trigger] axes[k] < n
    &&& forall|k1: int, k2: int| 0 <= k1 < n && 0 <= k2 < n && k1 != k2 ==> #[trigger] axes[k1] != #[trigger] axes[k2]
    &&& forall|a: int| 0 <= a < n ==> #[trigger] lists(axes, a)
}

/// Axis `k` of the result is axis `axes[k]` of `s`.
pub open spec fn permuted(s: Seq<usize>, axes: Seq<usize>) -> Seq<usize> {
    Seq::new(axes.len(), |k: int| s[axes[k] as int])
}

/// Where `a` stands in `axes`.
pub open spec fn position_of(axes: Seq<usize>, a: int) -> int {
    choose|k: int| 0 <= k < axes.len() && axes[k] == a
}

/// The inverse of `permuted`: the multi-index `o` of a permuted tensor read
/// back in the original axis order.
pub open spec fn unpermuted(o: Seq<usize>, axes: Seq<usize>) -> Seq<usize> {
    Seq::new(axes.len(), |a: int| o[position_of(axes, a)])
}

/// The axes in reverse order.
pub open spec fn reversed_axes(n: nat) -> Seq<usize> {
    Seq::new(n, |k: int| (n - 1 - k) as usize)
}

/// Reversing is a permutation.
pub proof fn lemma_reversed_is_permutation(n: nat)
    requires
        n <= usize::MAX,
    ensures
        is_permutation(reversed_axes(n), n),
{
    let r = reversed_axes(n);
    assert forall|a: int| 0 <= a < n implies #[trigger] lists(r, a) by {
        assert(r[n - 1 - a] == a);
    }
}

/// Removing one axis divides the size by its extent.
pub proof fn lemma_size_remove(s: Seq<usize>, k: int)
    requires
        0 <= k < s.len(),
    ensures
        shape_size(s) == shape_size(s.remove(k)) * (s[k] as nat),
{
    lemma_axis_sizes(s, k);
    let a = shape_size(s.take(k));
    let c = shape_size(s.skip(k + 1));
    let x = s[k] as nat;
    assert(a * (x * c) == (a * c) * x) by (nonlinear_arith);
}

/// Permuting the axes keeps the size.
pub proof fn lemma_size_permuted(s: Seq<usize>, axes: Seq<usize>)
    requires
        is_permutation(axes, s.len()),
    ensures
        shape_size(permuted(s, axes)) == shape_size(s),
    decreases s.len(),
{
    let n = s.len();
    if n > 0 {
        let last = (n - 1) as int;
        assert(lists(axes, last));
        let k0 = choose|k: int| 0 <= k < n && #[trigger] axes[k] == last;
        let axes2 = axes.remove(k0);
        let s2 = s.drop_last();
        assert(is_permutation(axes2, s2.len())) by {
            assert forall|k: int| 0 <= k < n - 1 implies #[trigger] axes2[k] < n - 1 by {
                let k1 = if k < k0 { k } else { k + 1 };
                assert(axes2[k] == axes[k1]);
                assert(axes[k1] != axes[k0]);
            }
            assert forall|k1: int, k2: int| 0 <= k1 < n - 1 && 0 <= k2 < n - 1 && k1 != k2
                implies #[trigger] axes2[k1] != #[trigger] axes2[k2] by {
                let j1 = if k1 < k0 { k1 } else { k1 + 1 };
                let j2 = if k2 < k0 { k2 } else { k2 + 1 };
                assert(axes[j1] != axes[j2]);
            }
            assert forall|a: int| 0 <= a < n - 1 implies #[trigger] lists(axes2, a) by {
                assert(lists(axes, a));
                let k = choose|k: int| 0 <= k < n && #[trigger] axes[k] == a;
                assert(k != k0);
                if k < k0 {
                    assert(axes2[k] == a);
                } else {
                    assert(axes2[k - 1] == a);
                }
            }
        }
        lemma_size_permuted(s2, axes2);
        let p = permuted(s, axes);
        assert(p.remove(k0) == permuted(s2, axes2)) by {
            assert forall|k: int| 0 <= k < n - 1 implies p.remove(k0)[k] == #[trigger] permuted(s2, axes2)[k] by {
                let k1 = if k < k0 { k } else { k + 1 };
                assert(axes[k1] != axes[k0]);
                assert(axes2[k] == axes[k1]);
            }
        }
        lemma_size_remove(p, k0);
        assert(p[k0] == s[last]);
        assert(s2.len() == n - 1);
        assert(shape_size(s) == shape_size(s2) * (s.last() as nat));
    }
}

/// A multi-index of the permuted shape, read back in the original axis
/// order, lies within the original shape.
pub proof fn lemma_unpermuted_in(o: Seq<usize>, shape: Seq<usize>, axes: Seq<usize>)
    requires
        is_permutation(axes, shape.len()),
        index_in(o, permuted(shape, axes)),
    ensures
        index_in(unpermuted(o, axes), shape),
{
    let n = shape.len();
    assert forall|a: int| 0 <= a < n implies #[trigger] unpermuted(o, axes)[a] < shape[a] by {
        assert(lists(axes, a));
        let k = position_of(axes, a);
        assert(axes[k] == a);
        assert(o[k] < permuted(shape, axes)[k]);
    }
}

/// A shape that is no larger on any axis holds no more elements.
pub proof fn lemma_size_le(a: Seq<usize>, b: Seq<usize>)
    requires
        a.len() == b.len(),
        forall|k: int| 0 <= k < a.len() ==> #[trigger] a[k] <= b[k],
    ensures
        shape_size(a) <= shape_size(b),
    decreases a.len(),
{
    if a.len() > 0 {
        let a2 = a.drop_last();
        let b2 = b.drop_last();
        assert forall|k: int| 0 <= k < a2.len() implies #[trigger] a2[k] <= b2[k] by {
            assert(a[k] <= b[k]);
        }
        lemma_size_le(a2, b2);
        let x = shape_size(a2);
        let y = shape_size(b2);
        let p = a.last() as nat;
        let q = b.last() as nat;
        assert(a[a.len() - 1] <= b[b.len() - 1]);
        assert(x * p <= y * q) by (nonlinear_arith)
            requires
                x <= y,
                p <= q,
        ;
    }
}

/// Computes the number of elements of a shape, or `None` when it exceeds `usize`.
pub fn checked_size(shape: &Vec<usize>) -> (r: Option<usize>)
    ensures
        match r {
            Some(n) => n as nat == shape_size(shape@),
            None => shape_size(shape@) > usize::MAX,
        },
{
    let mut z: usize = 0;
    while z < shape.len()
        invariant
            z <= shape.len(),
            forall|j: int| 0 <= j < z ==> #[trigger] shape@[j] > 0,
        decreases shape.len() - z,
    {
        if shape[z] == 0 {
            proof { lemma_size_zero(shape@, z as int); }
            return Some(0);
        }
        z = z + 1;
    }
    let mut acc: usize = 1;
    let mut k: usize = 0;
    while k < shape.len()
        invariant
            k <= shape.len(),
            forall|j: int| 0 <= j < shape.len() ==> #[trigger] shape@[j] > 0,
            acc as nat == shape_size(shape@.take(k as int)),
        decreases shape.len() - k,
    {
        assert(shape@.take(k as int + 1).drop_last() == shape@.take(k as int));
        match acc.checked_mul(shape[k]) {
            Some(p) => {
                acc = p;
            },
            None => {
                proof { lemma_size_prefix(shape@, k as int + 1); }
                return None;
            },
        }
        k = k + 1;
    }
    assert(shape@.take(k as int) == shape@);
    Some(acc)
}

/// The row-major position of `idx` in `shape`.
pub fn ravel(idx: &Vec<usize>, shape: &Vec<usize>) -> (r: usize)
    requires
        index_in(idx@, shape@),
        shape_size(shape@) <= usize::MAX,
    ensures
        r as nat == flat_index(idx@, shape@),
{
    let mut acc: usize = 0;
    let mut k: usize = 0;
    while k < idx.len()
        invariant
            k <= idx.len(),
            index_in(idx@, shape@),
            shape_size(shape@) <= usize::MAX,
            acc as nat == flat_index(idx@.take(k as int), shape@.take(k as int)),
        decreases idx.len() - k,
    {
        let ghost it = idx@.take(k as int + 1);
        let ghost st = shape@.take(k as int + 1);
        proof {
            assert(it.drop_last() == idx@.take(k as int));
            assert(st.drop_last() == shape@.take(k as int));
            assert(index_in(it, st));
            lemma_flat_bound(it, st);
            let u = shape@.skip(k as int + 1);
            assert(shape@ == st + u);
            lemma_size_append(st, u);
            lemma_size_positive_or_zero(u);
            if shape_size(u) == 0 {
                let j = choose|j: int| 0 <= j < u.len() && u[j] == 0;
                assert(idx@[k + 1 + j] < shape@[k + 1 + j]);
            }
            let a = flat_index(it, st);
            let b = shape_size(st);
            let c = shape_size(u);
            assert(a < b * c) by (nonlinear_arith)
                requires
                    a < b,
                    c >= 1,
            ;
        }
        acc = acc * shape[k] + idx[k];
        k = k + 1;
    }
    assert(idx@.take(k as int) == idx@);
    assert(shape@.take(k as int) == shape@);
    acc
}

pub proof fn lemma_size_append(a: Seq<usize>, b: Seq<usize>)
    ensures
        shape_size(a + b) == shape_size(a) * shape_size(b),
    decreases b.len(),
{
    if b.len() == 0 {
        assert(a + b == a);
        assert(shape_size(b) == 1);
    } else {
        assert((a + b).drop_last() == a + b.drop_last());
        lemma_size_append(a, b.drop_last());
        let x = shape_size(a);
        let y = shape_size(b.drop_last());
        let l = b.last() as nat;
        assert((a + b).last() == b.last());
        assert(shape_size(a + b) == shape_size(a + b.drop_last()) * l);
        assert(shape_size(b) == y * l);
        assert(shape_size(a + b.drop_last()) == x * y);
        assert(x * y * l == x * (y * l)) by (nonlinear_arith);
    }
}

/// A size is zero exactly when some extent is zero.
pub proof fn lemma_size_positive_or_zero(s: Seq<usize>)
    ensures
        shape_size(s) == 0 <==> exists|j: int| 0 <= j < s.len() && s[j] == 0,
    decreases s.len(),
{
    if s.len() > 0 {
        lemma_size_positive_or_zero(s.drop_last());
        let x = shape_size(s.drop_last());
        let l = s.last() as nat;
        assert(x * l == 0 <==> x == 0 || l == 0) by (nonlinear_arith);
        if exists|j: int| 0 <= j < s.len() && s[j] == 0 {
            let j = choose|j: int| 0 <= j < s.len() && s[j] == 0;
            if j < s.len() - 1 {
                assert(s.drop_last()[j] == 0);
            }
        }
        if exists|j: int| 0 <= j < s.drop_last().len() && s.drop_last()[j] == 0 {
            let j = choose|j: int| 0 <= j < s.drop_last().len() && s.drop_last()[j] == 0;
            assert(s[j] == 0);
        }
    }
}

/// The multi-index of position `i` in `shape`.
pub fn unravel(i: usize, shape: &Vec<usize>) -> (r: Vec<usize>)
    requires
        (i as nat) < shape_size(shape@),
    ensures
        r@ == unflat_index(i as nat, shape@),
        index_in(r@, shape@),
{
    proof { lemma_unflat(i as nat, shape@); }
    let n = shape.len();
    let mut r: Vec<usize> = vec![0; n];
    let mut rem: usize = i;
    let mut k: usize = n;
    assert(shape@.take(n as int) == shape@);
    assert(r@.skip(n as int) == Seq::<usize>::empty());
    assert(unflat_index(i as nat, shape@) + Seq::<usize>::empty() == unflat_index(i as nat, shape@));
    while k > 0
        invariant
            n == shape.len(),
            r.len() == n,
            k <= n,
            (i as nat) < shape_size(shape@),
            unflat_index(i as nat, shape@) == unflat_index(rem as nat, shape@.take(k as int)) + r@.skip(k as int),
        decreases k,
    {
        let ghost t = shape@.take(k as int);
        let ghost old_r = r@;
        let ghost old_rem = rem;
        assert(t.drop_last() == shape@.take(k as int - 1));
        assert(t.last() == shape[k - 1]);
        if shape[k - 1] == 0 {
            proof { lemma_size_zero(shape@, k as int - 1); }
            // cannot happen: the position lies below a size that a zero extent would make 0
            assert(false);
        }
        let d = shape[k - 1];
        r.set(k - 1, rem % d);
        rem = rem / d;
        k = k - 1;
        proof {
            assert(r@.skip(k as int) == seq![(old_rem % d) as usize] + old_r.skip(k as int + 1));
            assert(unflat_index(old_rem as nat, t) == unflat_index(rem as nat, shape@.take(k as int)).push((old_rem % d) as usize));
            assert(unflat_index(i as nat, shape@) == unflat_index(rem as nat, shape@.take(k as int)) + r@.skip(k as int));
        }
    }
    assert(shape@.take(0) == Seq::<usize>::empty());
    assert(r@.skip(0) == r@);
    r
}

} // verus!
