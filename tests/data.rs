use delta::decode::image_tensor;
use delta::error::TensorError;
use delta::mnist::{parse_images, parse_labels, Dataset, MnistDataset};
use delta::softmax::SoftmaxActivation;
use delta::tensor::Tensor;

fn png_bytes(width: u32, height: u32, pixels: Vec<u8>) -> Vec<u8> {
    let img = image::RgbaImage::from_raw(width, height, pixels).unwrap();
    let mut out = std::io::Cursor::new(Vec::new());
    img.write_to(&mut out, image::ImageFormat::Png).unwrap();
    out.into_inner()
}

#[test]
fn image_bytes_decode_to_height_width_channels() {
    let pixels: Vec<u8> = (0..24).collect();
    let bytes = png_bytes(3, 2, pixels.clone());
    let t = Tensor::<u8>::from_image_bytes(bytes).unwrap();
    assert_eq!(t.shape(), vec![2, 3, 4]);
    assert_eq!(t.to_vec(), pixels);
}

#[test]
fn image_bytes_reject_garbage() {
    assert!(Tensor::<u8>::from_image_bytes(vec![1, 2, 3, 4, 5]).is_err());
}

#[test]
fn image_tensor_checks_pixel_count() {
    assert_eq!(image_tensor(2, 2, vec![0; 16]).unwrap().shape(), vec![2, 2, 4]);
    assert_eq!(image_tensor(2, 2, vec![0; 15]).err(), Some(TensorError::ShapeMismatch));
}

#[test]
fn mnist_images_skip_header() {
    let mut data = vec![9u8; 16];
    data.extend((0..(2 * 784)).map(|i| (i % 251) as u8));
    let t = parse_images(&data, 2).unwrap();
    assert_eq!(t.shape(), vec![2, 28, 28, 1]);
    assert_eq!(t.to_vec()[0], 0);
    assert_eq!(t.to_vec()[784], (784 % 251) as u8);
    assert_eq!(parse_images(&data, 3).err(), Some(TensorError::ShapeMismatch));
}

#[test]
fn mnist_labels_one_hot() {
    let data = vec![0u8, 0, 0, 0, 0, 0, 0, 0, 3, 0, 9];
    let t = parse_labels(&data, 4).unwrap();
    assert_eq!(t.shape(), vec![4, 10]);
    let v = t.to_vec();
    assert_eq!(v[3], 1);
    assert_eq!(v[10], 1);
    assert_eq!(v[29], 1);
    assert_eq!(v.iter().map(|&x| x as usize).sum::<usize>(), 3);
    assert_eq!(parse_labels(&data, 2).err(), Some(TensorError::ShapeMismatch));
    assert_eq!(parse_labels(&[0, 0, 0, 0, 0, 0, 0, 0, 10], 1).err(), Some(TensorError::IndexOutOfBounds));
}

#[test]
fn mnist_batches() {
    let inputs = Tensor::new((0..10).map(|x| x as f32).collect(), vec![5, 2]).unwrap();
    let labels = Tensor::new((0..5).map(|x| x as f32).collect(), vec![5, 1]).unwrap();
    let ds = MnistDataset::from_splits(Some(Dataset { inputs, labels }), None);
    assert_eq!(ds.len(), 5);
    let (x, y) = ds.get_batch(1, 2).unwrap();
    assert_eq!(x.to_vec(), vec![4.0, 5.0, 6.0, 7.0]);
    assert_eq!(y.to_vec(), vec![2.0, 3.0]);
    let (x, y) = ds.get_batch(2, 2).unwrap();
    assert_eq!(x.shape(), vec![1, 2]);
    assert_eq!(y.to_vec(), vec![4.0]);
    assert_eq!(ds.get_batch(3, 2).err(), Some(TensorError::IndexOutOfBounds));
    let none: MnistDataset<f32> = MnistDataset::from_splits(None, None);
    assert_eq!(none.len(), 0);
    assert_eq!(none.get_batch(0, 1).err(), Some(TensorError::EmptyInput));
}

#[test]
fn softmax_handle() {
    let _ = SoftmaxActivation::new();
}

#[test]
fn dataset_reorder_moves_rows() {
    let inputs = Tensor::new(vec![1u8, 2, 3, 4, 5, 6], vec![3, 2]).unwrap();
    let labels = Tensor::new(vec![7u8, 8, 9], vec![3, 1]).unwrap();
    let d = Dataset { inputs, labels };
    let e = d.reorder(&vec![2, 0, 1]).unwrap();
    assert_eq!(e.inputs.to_vec(), vec![5, 6, 1, 2, 3, 4]);
    assert_eq!(e.labels.to_vec(), vec![9, 7, 8]);
    assert_eq!(d.reorder(&vec![3]).err(), Some(TensorError::IndexOutOfBounds));
}

#[test]
fn dataset_shuffle_keeps_pairs() {
    let n = 12usize;
    let inputs = Tensor::new((0..n as u32).collect(), vec![n, 1]).unwrap();
    let labels = Tensor::new((100..100 + n as u32).collect(), vec![n, 1]).unwrap();
    let mut ds = MnistDataset::from_splits(Some(Dataset { inputs, labels }), None);
    ds.shuffle().unwrap();
    let (x, y) = ds.get_batch(0, n).unwrap();
    let xs = x.to_vec();
    let ys = y.to_vec();
    for i in 0..n {
        assert_eq!(ys[i], xs[i] + 100);
    }
    let mut sorted = xs.clone();
    sorted.sort();
    assert_eq!(sorted, (0..n as u32).collect::<Vec<u32>>());
    assert_ne!(xs, (0..n as u32).collect::<Vec<u32>>());
}
