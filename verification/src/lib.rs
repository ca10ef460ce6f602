//! Singular value decomposition of dense matrices, generic over the element
//! type's arithmetic.
//!
//! `matrix` holds the dense row-major matrix type and the laws of its
//! transpose; `svd` the decomposition itself; `scalar` the arithmetic that
//! the decomposition asks of its element type.

pub mod laws;
pub mod matrix;
mod scalar;
mod svd;

pub use matrix::Matrix;
pub use scalar::Real;
pub use svd::SVD;
