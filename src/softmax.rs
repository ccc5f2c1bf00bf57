//! The softmax activation's handle. The activation itself works on
//! floating-point values and is applied outside the verified library, through
//! `Tensor::map`, `Tensor::sum` and `Tensor::div_scalar`.
use vstd::prelude::*;

verus! {

/// The softmax activation: `exp(x)` divided by the sum of `exp` over the tensor.
#[derive(Debug, Clone, Copy)]
pub struct SoftmaxActivation;

impl SoftmaxActivation {
    /// Creates the activation.
    pub fn new() -> (r: SoftmaxActivation)
        ensures
            r == SoftmaxActivation,
    {
        SoftmaxActivation
    }
}

} // verus!
