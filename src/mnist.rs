//! The MNIST handwritten-digit data: parsing its IDX files into tensors and
//! handing out batches. Downloading and decompressing the files happens
//! outside the library.
use vstd::prelude::*;
use crate::error::TensorError;
use crate::shape::{lemma_size_2d, lemma_size_rows, row_size, shape_size};
use crate::tensor::{row_of, Tensor};
use rand::seq::SliceRandom;

verus! {

/// Pixels per image side.
pub const IMAGE_SIZE: usize = 28;

/// Number of digit classes.
pub const NUM_CLASSES: usize = 10;

/// Bytes before the pixels in an image file.
pub const IMAGE_HEADER: usize = 16;

/// Bytes before the labels in a label file.
pub const LABEL_HEADER: usize = 8;

/// Inputs and their labels, row for row.
pub struct Dataset<T> {
    pub inputs: Tensor<T>,
    pub labels: Tensor<T>,
}

/// One of the two MNIST splits, or both.
pub struct MnistDataset<T> {
    train: Option<Dataset<T>>,
    test: Option<Dataset<T>>,
}

/// The one-hot label matrix: row `i` has a 1 in column `labels[i]`; rows past
/// the given labels are all 0.
pub open spec fn one_hot(labels: Seq<u8>, rows: nat) -> Seq<u8> {
    Seq::new(
        rows * (NUM_CLASSES as nat),
        |p: int| {
            let i = p / (NUM_CLASSES as int);
            let c = p % (NUM_CLASSES as int);
            if i < labels.len() && labels[i] as int == c { 1u8 } else { 0u8 }
        },
    )
}

/// Reads `num_images` images of 28 x 28 pixel bytes after the 16-byte header,
/// as a tensor of shape `(num_images, 28, 28, 1)`.
pub fn parse_images(data: &[u8], num_images: usize) -> (r: Result<Tensor<u8>, TensorError>)
    ensures
        r is Ok <==> IMAGE_HEADER + num_images * (IMAGE_SIZE * IMAGE_SIZE) <= data@.len(),
        r matches Ok(t) ==> {
            &&& t.dims() == seq![num_images, IMAGE_SIZE, IMAGE_SIZE, 1usize]
            &&& t.values() == data@.subrange(
                IMAGE_HEADER as int,
                IMAGE_HEADER + num_images * (IMAGE_SIZE * IMAGE_SIZE),
            )
        },
        r matches Err(e) ==> e == TensorError::ShapeMismatch,
{
    let dlen = data.len();
    let pixels: usize = IMAGE_SIZE * IMAGE_SIZE;
    let count = match num_images.checked_mul(pixels) {
        Some(c) => c,
        None => {
            return Err(TensorError::ShapeMismatch);
        },
    };
    if data.len() < IMAGE_HEADER || data.len() - IMAGE_HEADER < count {
        return Err(TensorError::ShapeMismatch);
    }
    let mut out: Vec<u8> = Vec::with_capacity(count);
    let mut i: usize = 0;
    while i < count
        invariant
            i <= count,
            dlen == data@.len(),
            IMAGE_HEADER + count <= data@.len(),
            out@ == data@.subrange(IMAGE_HEADER as int, IMAGE_HEADER + i),
        decreases count - i,
    {
        out.push(data[IMAGE_HEADER + i]);
        i = i + 1;
        assert(out@ == data@.subrange(IMAGE_HEADER as int, IMAGE_HEADER + i));
    }
    let shape: Vec<usize> = vec![num_images, IMAGE_SIZE, IMAGE_SIZE, 1];
    proof {
        let s = shape@;
        lemma_size_rows(s);
        lemma_size_rows(s.skip(1));
        lemma_size_2d(s.skip(2));
        assert(s.skip(1).skip(1) == s.skip(2));
        assert(shape_size(s) == num_images as nat * (28 * (28 * 1)));
    }
    match Tensor::new(out, shape) {
        Ok(t) => Ok(t),
        Err(e) => Err(e),
    }
}

/// Reads the labels after the 8-byte header as a one-hot tensor of shape
/// `(num_labels, 10)`; fails if there are more labels than rows or a label
/// is not a digit.
pub fn parse_labels(data: &[u8], num_labels: usize) -> (r: Result<Tensor<u8>, TensorError>)
    ensures
        r is Ok <==> {
            &&& LABEL_HEADER <= data@.len()
            &&& data@.len() - LABEL_HEADER <= num_labels
            &&& forall|i: int| LABEL_HEADER <= i < data@.len() ==> #[trigger] data@[i] < NUM_CLASSES
            &&& num_labels * NUM_CLASSES <= usize::MAX
        },
        r matches Ok(t) ==> {
            &&& t.dims() == seq![num_labels, NUM_CLASSES]
            &&& t.values() == one_hot(data@.skip(LABEL_HEADER as int), num_labels as nat)
        },
        r matches Err(e) ==> {
            &&& (data@.len() < LABEL_HEADER || data@.len() - LABEL_HEADER > num_labels)
                ==> e == TensorError::ShapeMismatch
            &&& (LABEL_HEADER <= data@.len() && data@.len() - LABEL_HEADER <= num_labels
                && exists|i: int| LABEL_HEADER <= i < data@.len() && #[trigger] data@[i] >= NUM_CLASSES)
                ==> e == TensorError::IndexOutOfBounds
            &&& (LABEL_HEADER <= data@.len() && data@.len() - LABEL_HEADER <= num_labels
                && forall|i: int| LABEL_HEADER <= i < data@.len() ==> #[trigger] data@[i] < NUM_CLASSES)
                ==> e == TensorError::TooLarge
        },
{
    if data.len() < LABEL_HEADER || data.len() - LABEL_HEADER > num_labels {
        return Err(TensorError::ShapeMismatch);
    }
    let dlen = data.len();
    let n = dlen - LABEL_HEADER;
    let mut i: usize = 0;
    while i < n
        invariant
            i <= n,
            dlen == data@.len(),
            n <= num_labels,
            n + LABEL_HEADER == data@.len(),
            forall|j: int| LABEL_HEADER <= j < LABEL_HEADER + i ==> #[trigger] data@[j] < NUM_CLASSES,
        decreases n - i,
    {
        if data[LABEL_HEADER + i] as usize >= NUM_CLASSES {
            return Err(TensorError::IndexOutOfBounds);
        }
        i = i + 1;
    }
    let total = match num_labels.checked_mul(NUM_CLASSES) {
        Some(t) => t,
        None => {
            return Err(TensorError::TooLarge);
        },
    };
    let ghost labels = data@.skip(LABEL_HEADER as int);
    let mut out: Vec<u8> = Vec::with_capacity(total);
    let mut p: usize = 0;
    while p < total
        invariant
            p <= total,
            total as nat == num_labels as nat * (NUM_CLASSES as nat),
            dlen == data@.len(),
            n + LABEL_HEADER == data@.len(),
            labels == data@.skip(LABEL_HEADER as int),
            out@.len() == p,
            forall|q: int| 0 <= q < p ==> #[trigger] out@[q] == one_hot(labels, num_labels as nat)[q],
        decreases total - p,
    {
        let row = p / NUM_CLASSES;
        let col = p % NUM_CLASSES;
        let v: u8 = if row < n && data[LABEL_HEADER + row] as usize == col {
            1
        } else {
            0
        };
        out.push(v);
        p = p + 1;
    }
    assert(out@ == one_hot(labels, num_labels as nat));
    let shape: Vec<usize> = vec![num_labels, NUM_CLASSES];
    proof { lemma_size_2d(shape@); }
    match Tensor::new(out, shape) {
        Ok(t) => Ok(t),
        Err(e) => Err(e),
    }
}

/// `t.take(order)` succeeds: every index names a row of `t`, and the result fits.
pub open spec fn takes<T>(t: Tensor<T>, order: Seq<usize>) -> bool {
    &&& t.dims().len() >= 1
    &&& forall|q: int| 0 <= q < order.len() ==> #[trigger] order[q] < t.dims()[0]
    &&& order.len() * row_size(t.dims()) <= usize::MAX
}

/// `u` holds the rows of `t` in the order `order`.
pub open spec fn reordered<T>(t: Tensor<T>, u: Tensor<T>, order: Seq<usize>) -> bool {
    &&& u.dims() == t.dims().update(0, order.len() as usize)
    &&& u.values().len() == order.len() * row_size(t.dims())
    &&& forall|q: int| 0 <= q < order.len() ==>
        #[trigger] row_of(u.values(), row_size(t.dims()), q) == row_of(t.values(), row_size(t.dims()), order[q] as int)
}

/// The row indices `0..n` in order.
pub open spec fn identity_order(n: nat) -> Seq<usize> {
    Seq::new(n, |i: int| i as usize)
}

/// The number of examples in a dataset: the first extent of its inputs.
pub open spec fn example_count<T>(d: Dataset<T>) -> nat {
    if d.inputs.dims().len() >= 1 { d.inputs.dims()[0] as nat } else { 0 }
}

/// `e` holds the examples of `d` in some order: inputs and labels are
/// reordered alike by a rearrangement of `0..n`.
pub open spec fn shuffle_of<T>(d: Dataset<T>, e: Dataset<T>) -> bool {
    exists|order: Seq<usize>| {
        &&& #[trigger] order.to_multiset() == identity_order(example_count(d)).to_multiset()
        &&& reordered(d.inputs, e.inputs, order)
        &&& reordered(d.labels, e.labels, order)
    }
}

/// Both tensors have rows, and the labels have at least as many rows as the
/// inputs, so every input row has its label.
pub open spec fn shuffle_ready<T>(d: Dataset<T>) -> bool {
    &&& d.inputs.dims().len() >= 1
    &&& d.labels.dims().len() >= 1
    &&& d.labels.dims()[0] >= d.inputs.dims()[0]
}

/// Relies on rand's `SliceRandom::shuffle` with `thread_rng`: it only swaps
/// elements, so the same elements come back in some order.
#[verifier::external_body]
fn shuffle_in_place(v: &mut Vec<usize>)
    ensures
        final(v)@.to_multiset() == old(v)@.to_multiset(),
{
    v.shuffle(&mut rand::thread_rng());
}

impl<T: Copy> Dataset<T> {
    /// The examples in the order `order`: inputs and labels alike.
    pub fn reorder(&self, order: &Vec<usize>) -> (r: Result<Dataset<T>, TensorError>)
        ensures
            r is Ok <==> takes(self.inputs, order@) && takes(self.labels, order@),
            r matches Ok(d) ==> reordered(self.inputs, d.inputs, order@) && reordered(self.labels, d.labels, order@),
    {
        let inputs = match self.inputs.take(order) {
            Ok(t) => t,
            Err(e) => {
                return Err(e);
            },
        };
        let labels = match self.labels.take(order) {
            Ok(t) => t,
            Err(e) => {
                return Err(e);
            },
        };
        Ok(Dataset { inputs, labels })
    }

    /// The examples in a random order; succeeds whenever the labels have at
    /// least as many rows as the inputs.
    pub fn shuffled(&self) -> (r: Result<Dataset<T>, TensorError>)
        ensures
            r matches Ok(e) ==> shuffle_of(*self, e),
            shuffle_ready(*self) ==> r is Ok,
    {
        broadcast use vstd::seq_lib::group_to_multiset_ensures;
        let shape = self.inputs.shape();
        let n: usize = if shape.len() >= 1 { shape[0] } else { 0 };
        let mut order: Vec<usize> = Vec::with_capacity(n);
        let mut i: usize = 0;
        while i < n
            invariant
                i <= n,
                order@ == identity_order(n as nat).take(i as int),
            decreases n - i,
        {
            order.push(i);
            i = i + 1;
            assert(order@ == identity_order(n as nat).take(i as int));
        }
        assert(order@ == identity_order(n as nat));
        shuffle_in_place(&mut order);
        proof {
            assert forall|q: int| 0 <= q < order@.len() implies #[trigger] order@[q] < n by {
                assert(order@.to_multiset().contains(order@[q]));
                assert(identity_order(n as nat).contains(order@[q]));
            }
            assert(order@.len() == n) by {
                assert(order@.to_multiset().len() == identity_order(n as nat).to_multiset().len());
            }
        }
        self.inputs.size_invariant();
        self.labels.size_invariant();
        // both element counts fit in usize
        let _inputs_len = self.inputs.len();
        let _labels_len = self.labels.len();
        proof {
            if self.inputs.dims().len() >= 1 && self.labels.dims().len() >= 1 && self.labels.dims()[0] >= n {
                lemma_size_rows(self.inputs.dims());
                lemma_size_rows(self.labels.dims());
                let a = row_size(self.labels.dims());
                let m = self.labels.dims()[0] as nat;
                assert(n as nat * a <= m * a) by (nonlinear_arith)
                    requires
                        n <= m,
                ;
                assert(takes(self.inputs, order@));
                assert(takes(self.labels, order@));
            }
        }
        let r = self.reorder(&order);
        proof {
            if r is Ok {
                let e = r->Ok_0;
                assert(example_count(*self) == n);
                assert(order@.to_multiset() == identity_order(example_count(*self)).to_multiset());
            }
        }
        r
    }
}

impl<T: Copy> MnistDataset<T> {
    /// The training split.
    pub closed spec fn train_split(&self) -> Option<Dataset<T>> {
        self.train
    }

    /// The test split.
    pub closed spec fn test_split(&self) -> Option<Dataset<T>> {
        self.test
    }

    /// Shuffles the examples of each loaded split; on failure nothing changes.
    /// It succeeds whenever every loaded split has a label row for each
    /// input row.
    pub fn shuffle(&mut self) -> (r: Result<(), TensorError>)
        ensures
            (match old(self).train_split() { Some(d) => shuffle_ready(d), None => true })
                && (match old(self).test_split() { Some(d) => shuffle_ready(d), None => true })
                ==> r is Ok,
            r is Err ==> final(self).train_split() == old(self).train_split()
                && final(self).test_split() == old(self).test_split(),
            r is Ok ==> match (old(self).train_split(), final(self).train_split()) {
                (Some(d), Some(e)) => shuffle_of(d, e),
                (None, None) => true,
                _ => false,
            },
            r is Ok ==> match (old(self).test_split(), final(self).test_split()) {
                (Some(d), Some(e)) => shuffle_of(d, e),
                (None, None) => true,
                _ => false,
            },
    {
        let train = match &self.train {
            Some(d) => match d.shuffled() {
                Ok(e) => Some(e),
                Err(err) => {
                    return Err(err);
                },
            },
            None => None,
        };
        let test = match &self.test {
            Some(d) => match d.shuffled() {
                Ok(e) => Some(e),
                Err(err) => {
                    return Err(err);
                },
            },
            None => None,
        };
        self.train = train;
        self.test = test;
        Ok(())
    }

    /// The split that batches and lengths refer to: the training split if it
    /// is loaded, else the test split.
    pub closed spec fn active(&self) -> Option<Dataset<T>> {
        if self.train is Some {
            self.train
        } else {
            self.test
        }
    }

    /// A dataset holding the given splits.
    pub fn from_splits(train: Option<Dataset<T>>, test: Option<Dataset<T>>) -> (r: MnistDataset<T>)
        ensures
            r.active() == if train is Some { train } else { test },
    {
        MnistDataset { train, test }
    }

    /// The number of examples in the active split; 0 when none is loaded or
    /// its inputs have no axes.
    pub fn len(&self) -> (r: usize)
        ensures
            r == match self.active() {
                Some(d) => if d.inputs.dims().len() >= 1 { d.inputs.dims()[0] } else { 0 },
                None => 0,
            },
    {
        let d = match &self.train {
            Some(d) => d,
            None => match &self.test {
                Some(d) => d,
                None => {
                    return 0;
                },
            },
        };
        let shape = d.inputs.shape();
        if shape.len() >= 1 {
            shape[0]
        } else {
            0
        }
    }

    /// The inputs and labels of batch `batch_idx`, of `batch_size` rows,
    /// the last batch cut short at the end of the data.
    pub fn get_batch(&self, batch_idx: usize, batch_size: usize) -> (r: Result<(Tensor<T>, Tensor<T>), TensorError>)
        ensures
            self.active() is None ==> r == Err::<(Tensor<T>, Tensor<T>), TensorError>(TensorError::EmptyInput),
            self.active() matches Some(d) ==> {
                let start = batch_idx * batch_size;
                let total = if d.inputs.dims().len() >= 1 { d.inputs.dims()[0] as int } else { 0 };
                let end = if start + batch_size < total { start + batch_size } else { total };
                &&& start >= total ==> r is Err
                &&& r matches Ok((x, y)) ==> {
                    &&& x.dims() == d.inputs.dims().update(0, (end - start) as usize)
                    &&& x.values() == d.inputs.values().subrange(
                        start * row_size(d.inputs.dims()), end * row_size(d.inputs.dims()))
                    &&& y.dims() == d.labels.dims().update(0, (end - start) as usize)
                    &&& y.values() == d.labels.values().subrange(
                        start * row_size(d.labels.dims()), end * row_size(d.labels.dims()))
                }
                &&& start < total && d.labels.dims().len() >= 1 && end <= d.labels.dims()[0] ==> r is Ok
            },
    {
        let d = match &self.train {
            Some(d) => d,
            None => match &self.test {
                Some(d) => d,
                None => {
                    return Err(TensorError::EmptyInput);
                },
            },
        };
        let total = self.len();
        let start = match batch_idx.checked_mul(batch_size) {
            Some(s) => s,
            None => {
                return Err(TensorError::IndexOutOfBounds);
            },
        };
        if start >= total {
            return Err(TensorError::IndexOutOfBounds);
        }
        let end = if batch_size < total - start {
            start + batch_size
        } else {
            total
        };
        let x = match d.inputs.rows(start, end) {
            Ok(x) => x,
            Err(e) => {
                return Err(e);
            },
        };
        let y = match d.labels.rows(start, end) {
            Ok(y) => y,
            Err(e) => {
                return Err(e);
            },
        };
        Ok((x, y))
    }
}

} // verus!
