use delta::error::TensorError;
use delta::tensor::Tensor;

fn t(data: Vec<f32>, shape: Vec<usize>) -> Tensor<f32> {
    Tensor::new(data, shape).unwrap()
}

#[test]
fn test_new() {
    let data = vec![1.0, 2.0, 3.0];
    let tensor = t(data, vec![3, 1]);
    assert_eq!(tensor.shape(), vec![3, 1]);
}

#[test]
fn test_zeros() {
    let tensor: Tensor<f32> = Tensor::zeros(vec![2, 3]).unwrap();
    assert_eq!(tensor.shape(), vec![2, 3]);
    assert_eq!(tensor.to_vec(), vec![0.0; 6]);
}

#[test]
fn test_add() {
    let tensor1 = t(vec![1.0, 2.0, 3.0], vec![3, 1]);
    let tensor2 = t(vec![4.0, 5.0, 6.0], vec![3, 1]);
    let result = tensor1.add(&tensor2).unwrap();
    assert_eq!(result.shape(), vec![3, 1]);
    assert_eq!(result.to_vec(), vec![5.0, 7.0, 9.0]);
}

#[test]
fn test_max() {
    let tensor = t(vec![1.0, 2.0, 3.0], vec![3, 1]);
    assert_eq!(tensor.max().unwrap(), 3.0);
}

#[test]
fn test_reshape() {
    let tensor = t(vec![1.0, 2.0, 3.0], vec![3, 1]);
    let reshaped = tensor.reshape(vec![1, 3]).unwrap();
    assert_eq!(reshaped.shape(), vec![1, 3]);
}

#[test]
fn test_map() {
    let tensor = t(vec![1.0, 2.0, 3.0], vec![3, 1]);
    let mapped = tensor.map(|x| x * 2.0);
    assert_eq!(mapped.shape(), vec![3, 1]);
    assert_eq!(mapped.to_vec(), vec![2.0, 4.0, 6.0]);
}

#[test]
fn test_slice() {
    let tensor = t(vec![1.0, 2.0, 3.0], vec![3, 1]);
    let sliced = tensor.slice(vec![0..2, 0..1]).unwrap();
    assert_eq!(sliced.shape(), vec![2, 1]);
    assert_eq!(sliced.to_vec(), vec![1.0, 2.0]);
}

#[test]
fn test_matmul() {
    let tensor1 = t(vec![1.0, 2.0, 3.0, 4.0], vec![2, 2]);
    let tensor2 = t(vec![5.0, 6.0, 7.0, 8.0], vec![2, 2]);
    let result = tensor1.matmul(&tensor2).unwrap();
    assert_eq!(result.shape(), vec![2, 2]);
    assert_eq!(result.to_vec(), vec![19.0, 22.0, 43.0, 50.0]);
}

#[test]
fn test_transpose() {
    let tensor = t(vec![1.0, 2.0, 3.0, 4.0], vec![2, 2]);
    let transposed = tensor.transpose().unwrap();
    assert_eq!(transposed.shape(), vec![2, 2]);
    assert_eq!(transposed.to_vec(), vec![1.0, 3.0, 2.0, 4.0]);
}

#[test]
fn test_shape() {
    let tensor = t(vec![1.0, 2.0, 3.0, 4.0], vec![2, 2]);
    assert_eq!(tensor.shape(), vec![2, 2]);
}

#[test]
fn test_permute() {
    let tensor = t(vec![1.0, 2.0, 3.0, 4.0], vec![2, 2]);
    let permuted = tensor.permute(&vec![1, 0]).unwrap();
    assert_eq!(permuted.shape(), vec![2, 2]);
}

#[test]
fn test_sum_along_axis() {
    let tensor = t(vec![1.0, 2.0, 3.0, 4.0], vec![2, 2]);
    let summed = tensor.sum_along_axis(1).unwrap();
    assert_eq!(summed.shape(), vec![2]);
    assert_eq!(summed.to_vec(), vec![3.0, 7.0]);
}

#[test]
fn test_mul_scalar() {
    let tensor = t(vec![1.0, 2.0, 3.0, 4.0], vec![2, 2]);
    let multiplied = tensor.mul_scalar(2.0);
    assert_eq!(multiplied.shape(), vec![2, 2]);
    assert_eq!(multiplied.to_vec(), vec![2.0, 4.0, 6.0, 8.0]);
}

#[test]
fn test_div_scalar() {
    let tensor = t(vec![1.0, 2.0, 3.0, 4.0], vec![2, 2]);
    let divided = tensor.div_scalar(2.0);
    assert_eq!(divided.shape(), vec![2, 2]);
    assert_eq!(divided.to_vec(), vec![0.5, 1.0, 1.5, 2.0]);
}

#[test]
fn test_add_scalar() {
    let tensor = t(vec![1.0, 2.0, 3.0, 4.0], vec![2, 2]);
    let added = tensor.add_scalar(2.0);
    assert_eq!(added.shape(), vec![2, 2]);
    assert_eq!(added.to_vec(), vec![3.0, 4.0, 5.0, 6.0]);
}

#[test]
fn test_div() {
    let tensor1 = t(vec![1.0, 2.0, 3.0, 4.0], vec![2, 2]);
    let tensor2 = t(vec![2.0, 4.0, 6.0, 8.0], vec![2, 2]);
    let divided = tensor1.div(&tensor2).unwrap();
    assert_eq!(divided.shape(), vec![2, 2]);
    assert_eq!(divided.to_vec(), vec![0.5, 0.5, 0.5, 0.5]);
}

#[test]
fn test_flatten() {
    let tensor = t(vec![1.0, 2.0, 3.0, 4.0], vec![2, 2]);
    let flattened = tensor.flatten();
    assert_eq!(flattened.shape(), vec![4]);
}

#[test]
fn test_broadcast() {
    let tensor = t(vec![1.0, 2.0, 3.0, 4.0], vec![2, 2]);
    let broadcasted = tensor.broadcast(&vec![2, 2]).unwrap();
    assert_eq!(broadcasted.shape(), vec![2, 2]);
}

#[test]
fn test_normalize() {
    let tensor = t(vec![1.0, 2.0, 3.0, 4.0], vec![2, 2]);
    let normalized = tensor.normalize(0.0, 1.0);
    assert_eq!(normalized.shape(), vec![2, 2]);
}

#[test]
fn test_default() {
    let tensor: Tensor<f32> = Tensor::default();
    assert_eq!(tensor.shape(), vec![1, 1]);
    assert_eq!(tensor.to_vec(), vec![0.0]);
}

#[test]
fn test_argmax() {
    let tensor = t(vec![1.0, 3.0, 2.0, 4.0, 5.0, 0.0], vec![2, 3]);
    let argmax = tensor.argmax(1).unwrap();
    assert_eq!(argmax.shape(), vec![2]);
    assert_eq!(argmax.to_vec(), vec![1, 1]);
}

#[test]
fn test_mul_operator() {
    let tensor1 = t(vec![1.0, 2.0, 3.0, 4.0], vec![2, 2]);
    let tensor2 = t(vec![2.0, 3.0, 4.0, 5.0], vec![2, 2]);
    let result = tensor1.matmul(&tensor2).unwrap();
    assert_eq!(result.shape(), vec![2, 2]);
}

#[test]
fn test_stack() {
    let tensor1 = t(vec![1.0, 2.0, 3.0], vec![3]);
    let tensor2 = t(vec![4.0, 5.0, 6.0], vec![3]);
    let stacked = Tensor::stack(&[tensor1, tensor2]).unwrap();
    assert_eq!(stacked.shape(), vec![2, 3]);
}

#[test]
fn new_succeeds_only_on_matching_length() {
    assert!(Tensor::new(vec![1.0f32, 2.0, 3.0, 4.0, 5.0, 6.0], vec![2, 3]).is_ok());
    assert_eq!(Tensor::new(vec![1.0f32, 2.0], vec![2, 3]).err(), Some(TensorError::ShapeMismatch));
    assert_eq!(Tensor::new(vec![1.0f32], vec![]).unwrap().shape(), Vec::<usize>::new());
    assert_eq!(Tensor::new(Vec::<f32>::new(), vec![0, 5]).unwrap().len(), 0);
    assert_eq!(Tensor::new(vec![1.0f32], vec![usize::MAX, 2]).err(), Some(TensorError::ShapeMismatch));
}

#[test]
fn reshape_round_trip_keeps_order() {
    let a = t(vec![1.0, 2.0, 3.0, 4.0, 5.0, 6.0], vec![2, 3]);
    let b = a.reshape(vec![3, 2]).unwrap();
    let c = b.reshape(vec![2, 3]).unwrap();
    assert_eq!(c.to_vec(), a.to_vec());
    assert!(c == a);
    assert_eq!(a.flatten().to_vec(), a.to_vec());
    assert_eq!(a.reshape(vec![4]).err(), Some(TensorError::ShapeMismatch));
}

#[test]
fn transpose_twice_is_identity() {
    let a = t(vec![1.0, 2.0, 3.0, 4.0, 5.0, 6.0], vec![2, 3]);
    let once = a.transpose().unwrap();
    assert_eq!(once.shape(), vec![3, 2]);
    assert_eq!(once.to_vec(), vec![1.0, 4.0, 2.0, 5.0, 3.0, 6.0]);
    let twice = once.transpose().unwrap();
    assert!(twice == a);
    assert_eq!(t(vec![1.0], vec![1]).transpose().err(), Some(TensorError::RankTooLow));
}

#[test]
fn transpose_reverses_all_axes() {
    let a = t((0..24).map(|x| x as f32).collect(), vec![2, 3, 4]);
    let b = a.transpose().unwrap();
    assert_eq!(b.shape(), vec![4, 3, 2]);
    // element (i, j, k) of a sits at (k, j, i) of b
    assert_eq!(b.to_vec()[1 * 6 + 2 * 2 + 1], a.to_vec()[1 * 12 + 2 * 4 + 1]);
    assert_eq!(b.to_vec()[3 * 6 + 0 * 2 + 1], a.to_vec()[1 * 12 + 0 * 4 + 3]);
}

#[test]
fn permute_moves_axes() {
    let a = t((0..6).map(|x| x as f32).collect(), vec![1, 2, 3]);
    let b = a.permute(&vec![2, 0, 1]).unwrap();
    assert_eq!(b.shape(), vec![3, 1, 2]);
    assert_eq!(b.to_vec(), vec![0.0, 3.0, 1.0, 4.0, 2.0, 5.0]);
    assert_eq!(a.permute(&vec![0, 0, 1]).err(), Some(TensorError::InvalidPermutation));
    assert_eq!(a.permute(&vec![0, 1]).err(), Some(TensorError::InvalidPermutation));
    assert_eq!(a.permute(&vec![0, 1, 3]).err(), Some(TensorError::InvalidPermutation));
}

#[test]
fn stack_then_split_recovers_each() {
    let parts = vec![
        t(vec![1.0, 2.0, 3.0, 4.0], vec![2, 2]),
        t(vec![5.0, 6.0, 7.0, 8.0], vec![2, 2]),
        t(vec![9.0, 10.0, 11.0, 12.0], vec![2, 2]),
    ];
    let stacked = Tensor::stack(&parts).unwrap();
    assert_eq!(stacked.shape(), vec![3, 2, 2]);
    let mut rest = stacked;
    for part in &parts {
        let (first, tail) = rest.split_at(1).unwrap();
        assert_eq!(first.shape(), vec![1, 2, 2]);
        assert_eq!(first.to_vec(), part.to_vec());
        rest = tail;
    }
    assert_eq!(rest.shape(), vec![0, 2, 2]);
}

#[test]
fn stack_errors() {
    let empty: Vec<Tensor<f32>> = Vec::new();
    assert_eq!(Tensor::stack(&empty).err(), Some(TensorError::EmptyInput));
    let a = t(vec![1.0, 2.0], vec![2]);
    let b = t(vec![1.0, 2.0, 3.0], vec![3]);
    assert_eq!(Tensor::stack(&[a, b]).err(), Some(TensorError::ShapeMismatch));
}

#[test]
fn split_at_bounds() {
    let a = t(vec![1.0, 2.0, 3.0, 4.0, 5.0, 6.0], vec![3, 2]);
    let (x, y) = a.split_at(2).unwrap();
    assert_eq!(x.to_vec(), vec![1.0, 2.0, 3.0, 4.0]);
    assert_eq!(y.to_vec(), vec![5.0, 6.0]);
    let (x, y) = a.split_at(3).unwrap();
    assert_eq!(x.shape(), vec![3, 2]);
    assert_eq!(y.shape(), vec![0, 2]);
    assert_eq!(a.split_at(4).err(), Some(TensorError::IndexOutOfBounds));
    assert_eq!(t(vec![1.0, 2.0], vec![2]).split_at(1).err(), Some(TensorError::RankTooLow));
}

#[test]
fn matmul_by_identity() {
    let a = t(vec![1.0, 2.0, 3.0, 4.0], vec![2, 2]);
    let id = t(vec![1.0, 0.0, 0.0, 1.0], vec![2, 2]);
    assert!(a.matmul(&id).unwrap() == a);
}

#[test]
fn matmul_shapes() {
    let a = t(vec![1.0, 2.0, 3.0, 4.0, 5.0, 6.0], vec![2, 3]);
    let b = t(vec![1.0, 2.0, 3.0], vec![3, 1]);
    let c = a.matmul(&b).unwrap();
    assert_eq!(c.shape(), vec![2, 1]);
    assert_eq!(c.to_vec(), vec![14.0, 32.0]);
    assert_eq!(a.matmul(&a).err(), Some(TensorError::ShapeMismatch));
    assert_eq!(t(vec![1.0], vec![1]).matmul(&a).err(), Some(TensorError::RankTooLow));
    assert_eq!(t(vec![1.0], vec![1, 1, 1]).matmul(&a).err(), Some(TensorError::RankTooHigh));
    let empty_inner = Tensor::new(Vec::<f32>::new(), vec![2, 0]).unwrap();
    let other = Tensor::new(Vec::<f32>::new(), vec![0, 3]).unwrap();
    assert_eq!(empty_inner.matmul(&other).unwrap().to_vec(), vec![0.0; 6]);
}

#[test]
fn argmax_rows() {
    let a = t(vec![1.0, 3.0, 2.0, 4.0, 5.0, 0.0], vec![2, 3]);
    assert_eq!(a.argmax(1).unwrap().to_vec(), vec![1, 1]);
    assert_eq!(a.argmax(0).unwrap().to_vec(), vec![1, 1, 0]);
    assert_eq!(a.argmax(2).err(), Some(TensorError::AxisOutOfBounds));
    let ties = t(vec![2.0, 2.0, 1.0], vec![3]);
    assert_eq!(ties.argmax(0).unwrap().to_vec(), vec![0]);
    let empty = Tensor::new(Vec::<f32>::new(), vec![2, 0]).unwrap();
    assert_eq!(empty.argmax(1).err(), Some(TensorError::EmptyInput));
}

#[test]
fn broadcast_rules() {
    let same = t(vec![1.0, 2.0, 3.0, 4.0], vec![2, 2]);
    assert!(same.broadcast(&vec![2, 2]).unwrap() == same);
    let row = t(vec![1.0, 2.0, 3.0], vec![1, 3]);
    let b = row.broadcast(&vec![4, 3]).unwrap();
    assert_eq!(b.shape(), vec![4, 3]);
    assert_eq!(b.to_vec(), vec![1.0, 2.0, 3.0, 1.0, 2.0, 3.0, 1.0, 2.0, 3.0, 1.0, 2.0, 3.0]);
    let wide = t(vec![1.0; 6], vec![2, 3]);
    assert_eq!(wide.broadcast(&vec![2, 4]).err(), Some(TensorError::ShapeMismatch));
    let col = t(vec![1.0, 2.0], vec![2, 1]);
    assert_eq!(col.broadcast(&vec![2, 2, 3]).unwrap().to_vec(),
        vec![1.0, 1.0, 1.0, 2.0, 2.0, 2.0, 1.0, 1.0, 1.0, 2.0, 2.0, 2.0]);
    assert_eq!(col.broadcast(&vec![2]).err(), Some(TensorError::ShapeMismatch));
    assert_eq!(col.broadcast(&vec![usize::MAX, 2, 1]).err(), Some(TensorError::TooLarge));
}

#[test]
fn normalize_unit_range_is_identity() {
    let a = t(vec![0.0, 0.25, 0.5, 1.0], vec![4]);
    assert_eq!(a.normalize(0.0, 1.0).to_vec(), a.to_vec());
    let b = t(vec![2.0, 4.0, 6.0], vec![3]);
    assert_eq!(b.normalize(2.0, 6.0).to_vec(), vec![0.0, 0.5, 1.0]);
}

#[test]
fn sub_assign_changes_only_values() {
    let mut a = t(vec![5.0, 6.0, 7.0, 8.0], vec![2, 2]);
    let b = t(vec![1.0, 2.0, 3.0, 4.0], vec![2, 2]);
    a.sub_assign(&b).unwrap();
    assert_eq!(a.shape(), vec![2, 2]);
    assert_eq!(a.to_vec(), vec![4.0, 4.0, 4.0, 4.0]);
    let c = t(vec![1.0, 2.0, 3.0, 4.0], vec![4]);
    assert_eq!(a.sub_assign(&c).err(), Some(TensorError::ShapeMismatch));
    assert_eq!(a.to_vec(), vec![4.0, 4.0, 4.0, 4.0]);
}

#[test]
fn elementwise_shape_mismatch() {
    let a = t(vec![1.0, 2.0], vec![2]);
    let b = t(vec![1.0, 2.0], vec![1, 2]);
    assert_eq!(a.add(&b).err(), Some(TensorError::ShapeMismatch));
    assert_eq!(a.div(&b).err(), Some(TensorError::ShapeMismatch));
}

#[test]
fn take_gathers_rows() {
    let a = t(vec![1.0, 2.0, 3.0, 4.0, 5.0, 6.0], vec![3, 2]);
    let b = a.take(&vec![2, 0, 2]).unwrap();
    assert_eq!(b.shape(), vec![3, 2]);
    assert_eq!(b.to_vec(), vec![5.0, 6.0, 1.0, 2.0, 5.0, 6.0]);
    assert_eq!(a.take(&vec![]).unwrap().shape(), vec![0, 2]);
    assert_eq!(a.take(&vec![3]).err(), Some(TensorError::IndexOutOfBounds));
    assert_eq!(t(vec![1.0], vec![]).take(&vec![0]).err(), Some(TensorError::RankTooLow));
}

#[test]
fn slice_regions() {
    let a = t((0..12).map(|x| x as f32).collect(), vec![3, 4]);
    let s = a.slice(vec![1..3, 1..3]).unwrap();
    assert_eq!(s.shape(), vec![2, 2]);
    assert_eq!(s.to_vec(), vec![5.0, 6.0, 9.0, 10.0]);
    assert_eq!(a.slice(vec![0..3]).err(), Some(TensorError::ShapeMismatch));
    assert_eq!(a.slice(vec![0..4, 0..1]).err(), Some(TensorError::IndexOutOfBounds));
}

#[test]
fn reductions() {
    let a = t(vec![1.0, 2.0, 3.0, 4.0, 5.0, 6.0], vec![2, 3]);
    assert_eq!(a.reduce_sum(0).unwrap().to_vec(), vec![5.0, 7.0, 9.0]);
    assert_eq!(a.sum_along_axis(1).unwrap().to_vec(), vec![6.0, 15.0]);
    assert_eq!(a.sum_along_axis(2).err(), Some(TensorError::AxisOutOfBounds));
    assert_eq!(a.sum(), 21.0);
    let empty = Tensor::new(Vec::<f32>::new(), vec![2, 0]).unwrap();
    assert_eq!(empty.sum_along_axis(1).unwrap().to_vec(), vec![0.0, 0.0]);
    assert_eq!(empty.sum(), 0.0);
    assert_eq!(empty.max().err(), Some(TensorError::EmptyInput));
}

#[test]
fn integer_tensors() {
    let a = Tensor::new(vec![1i64, 2, 3, 4], vec![2, 2]).unwrap();
    let b = a.matmul(&a).unwrap();
    assert_eq!(b.to_vec(), vec![7, 10, 15, 22]);
    assert_eq!(a.ndim(), 2);
}

#[test]
fn error_messages() {
    assert_eq!(TensorError::ShapeMismatch.message(), "shapes do not match");
    assert_eq!(TensorError::TooLarge.message(), "result too large");
    assert_eq!(Tensor::full(vec![usize::MAX, 2], 0u8).err(), Some(TensorError::TooLarge));
    assert_eq!(Tensor::<u8>::zeros(vec![2, usize::MAX]).err(), Some(TensorError::TooLarge));
    assert_eq!(Tensor::full(vec![2], 7u8).unwrap().to_vec(), vec![7, 7]);
}

#[test]
fn argmax_of_empty_axis_with_nothing_else() {
    let a = Tensor::new(Vec::<f32>::new(), vec![0, 3]).unwrap();
    let r = a.argmax(0);
    assert_eq!(r.err(), Some(TensorError::EmptyInput));
    let b = Tensor::new(Vec::<f32>::new(), vec![3, 0]).unwrap();
    let r = b.argmax(0).unwrap();
    assert_eq!(r.shape(), vec![0]);
    assert_eq!(r.to_vec(), Vec::<usize>::new());
    assert_eq!(a.argmax(1).unwrap().shape(), vec![0]);
}
