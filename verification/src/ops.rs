//! The operation engines: broadcasting elementwise operators, axis
//! reductions, and their sparse coordinate-list counterparts.

pub mod aggregate;
pub mod binary;
pub mod sparse;
pub mod unary;
