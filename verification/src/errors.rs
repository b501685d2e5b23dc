//! Error taxonomy of the engine.
//!
//! Every operation validates its inputs before iterating and reports a typed
//! error instead of panicking or silently corrupting its output.

use vstd::prelude::*;

verus! {

/// The ways an operation can reject its inputs.
#[derive(Debug, Clone, Copy, PartialEq, Eq, Structural)]
pub enum TensorError {
    /// Shapes are incompatible: a broadcast axis pair differs with neither
    /// side 1, a reduction axis list is empty or not strictly increasing, a
    /// sparse operand's shape does not match the declared result shape, or a
    /// stored coordinate lies outside its declared dimension.
    ShapeMismatch,
    /// An axis index is not below the rank it refers to.
    AxisOutOfRange,
    /// A sparse-sparse operation met a coordinate present in one operand but
    /// absent in the other.
    SparsePatternMismatch,
    /// A required constant cannot be represented: the pool size a mean
    /// divides by does not fit the element type, or a result extent
    /// overflows the machine word.
    UnrepresentableConstant,
    /// The operation needs at least one element and the input has none.
    EmptyTensor,
}

} // verus!
