//! Matrix layer of a flat-buffer tensor library.
//!
//! A tensor is an immutable flat row-major buffer of `i64` elements together
//! with a shape (one size per dimension, outermost first).  This crate
//! extracts rank-2 sub-views (whole matrices, single rows, single columns)
//! from a tensor of arbitrary rank, transposes and multiplies matrices,
//! reduces them row- or column-wise by sum or product, and renders a matrix
//! as text.  Every operation is a pure read of its receiver producing a
//! freshly owned tensor; shape or rank mismatches are reported uniformly by
//! returning `None`, never by panicking.

pub mod matrix;
pub mod multiply;
pub mod reduce;
pub mod tensor;
pub mod text;
