//! Dense, dynamically ranked tensors: a row-major buffer together with its
//! shape, with verified shape arithmetic, layout transforms, reductions and
//! matrix multiplication.
pub mod decode;
pub mod error;
pub mod shape;
pub mod softmax;
pub mod tensor;
pub mod laws;
pub mod mnist;
