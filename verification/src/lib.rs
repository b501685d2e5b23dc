//! A strided N-dimensional tensor engine.
//!
//! The library models tensors as a flat buffer together with a shape and a
//! stride vector.  On top of that it offers broadcasting elementwise
//! operations, generic axis reductions with a continuous-axis fast path, and
//! a sparse coordinate-list counterpart of the same operations.

pub mod element;
pub mod errors;
pub mod ops;
pub mod shape;
pub mod tensor;
pub mod utils;
