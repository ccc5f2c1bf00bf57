use vstd::prelude::*;

verus! {

/// Why a tensor operation refused its arguments.
#[derive(Debug, Clone, Copy, PartialEq, Eq, Structural)]
pub enum TensorError {
    /// The buffer length, or another operand's shape, does not match the shape asked for.
    ShapeMismatch,
    /// An axis number is not below the tensor's rank.
    AxisOutOfBounds,
    /// The tensor has fewer axes than the operation needs.
    RankTooLow,
    /// The tensor has more axes than the operation accepts.
    RankTooHigh,
    /// A range or index lies outside an axis's extent.
    IndexOutOfBounds,
    /// The axis list is not a permutation of the tensor's axes.
    InvalidPermutation,
    /// No tensors were given.
    EmptyInput,
    /// The result would hold more elements than memory can address.
    TooLarge,
}

impl TensorError {
    /// A short description of the failure.
    pub fn message(&self) -> (r: String) {
        match self {
            TensorError::ShapeMismatch => String::from_str("shapes do not match"),
            TensorError::AxisOutOfBounds => String::from_str("axis out of bounds"),
            TensorError::RankTooLow => String::from_str("tensor has too few dimensions"),
            TensorError::RankTooHigh => String::from_str("tensor has too many dimensions"),
            TensorError::IndexOutOfBounds => String::from_str("index out of bounds"),
            TensorError::InvalidPermutation => String::from_str("axes are not a permutation"),
            TensorError::EmptyInput => String::from_str("no tensors given"),
            TensorError::TooLarge => String::from_str("result too large"),
        }
    }
}

} // verus!
