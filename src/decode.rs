//! Tensors from encoded image files.
use vstd::prelude::*;
use crate::error::TensorError;
use crate::shape::{lemma_size_rows, lemma_size_2d, shape_size};
use crate::tensor::Tensor;

verus! {

/// Relies on the `image` crate: `ImageReader::with_guessed_format` and
/// `decode` read the bytes, and `DynamicImage::to_rgba8` converts the pixels
/// to RGBA; `width`, `height` and `into_raw` hand the result out. Which
/// formats are recognised depends on hooks registered in the process, so
/// nothing is assumed about the outcome.
#[verifier::external_body]
fn decode_rgba(bytes: Vec<u8>) -> (r: Result<(u32, u32, Vec<u8>), String>)
{
    let reader = match image::ImageReader::new(std::io::Cursor::new(bytes)).with_guessed_format() {
        Ok(reader) => reader,
        Err(e) => return Err(format!("Failed to read image: {}", e)),
    };
    let img = match reader.decode() {
        Ok(img) => img,
        Err(e) => return Err(format!("Failed to decode image: {}", e)),
    };
    let rgba = img.to_rgba8();
    Ok((rgba.width(), rgba.height(), rgba.into_raw()))
}

/// A tensor of shape `(height, width, 4)` over RGBA pixel bytes; fails unless
/// there are exactly four bytes per pixel.
pub fn image_tensor(width: u32, height: u32, pixels: Vec<u8>) -> (r: Result<Tensor<u8>, TensorError>)
    ensures
        r is Ok <==> pixels@.len() == height as nat * width as nat * 4,
        r matches Ok(t) ==> t.dims() == seq![height as usize, width as usize, 4usize] && t.values() == pixels@,
        r matches Err(e) ==> e == TensorError::ShapeMismatch,
{
    let shape: Vec<usize> = vec![height as usize, width as usize, 4];
    proof {
        lemma_size_rows(shape@);
        lemma_size_2d(shape@.skip(1));
        let h = height as nat;
        let w = width as nat;
        assert(h * (w * 4) == h * w * 4) by (nonlinear_arith);
    }
    Tensor::new(pixels, shape)
}

impl Tensor<u8> {
    /// Decodes an encoded image (its format guessed from the bytes) into a tensor
    /// of shape `(height, width, 4)` holding its RGBA bytes; what follows the
    /// decoding is `image_tensor`.
    pub fn from_image_bytes(bytes: Vec<u8>) -> (r: Result<Tensor<u8>, String>)
        ensures
            r matches Ok(t) ==> {
                &&& t.dims().len() == 3
                &&& t.dims()[2] == 4
                &&& t.values().len() == shape_size(t.dims())
            },
    {
        match decode_rgba(bytes) {
            Ok((w, h, px)) => match image_tensor(w, h, px) {
                Ok(t) => {
                    t.size_invariant();
                    Ok(t)
                },
                Err(e) => Err(e.message()),
            },
            Err(msg) => Err(msg),
        }
    }
}

} // verus!
