//! Verified building blocks of a spline-ReLU inverse-problem experiment:
//! a deterministic SplitMix64 generator, a row-major matrix store and the
//! ordering step that ranks singular values.

pub mod splitmix;
pub mod matrix;
pub mod ordering;
