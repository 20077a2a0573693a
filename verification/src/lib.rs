//! A small dense-matrix engine over fixed-point scalars.
//!
//! The engine reduces a square matrix toward a near-triangular form by
//! eliminating sub-subdiagonal entries with orthogonal (Givens-style)
//! rotations, records the rotations, and can recombine them afterwards to
//! reconstruct both the reduced and the original matrix as a
//! self-consistency check.
//!
//! Scalars are held as integers scaled by a fixed power of ten, so every
//! arithmetic step has an exact, stated meaning.

pub mod fixed;
pub mod matrix;
pub mod scan;
pub mod rotation;
pub mod reduce;
