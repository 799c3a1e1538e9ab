//! Probabilistic verification of matrix products over the base field of
//! BLS12-381.
//!
//! Given matrices `A`, `B` and a claimed product `C`, one round draws a random
//! scalar `r`, forms the challenge vector `x = (1, r, r^2, ...)` and compares
//! `A * (B * x)` with `C * x`. A correct product passes every round; a wrong
//! one is caught unless `x` happens to lie in the kernel of `C - A * B`.
//!
//! The field arithmetic is that of `ark_bls12_381::Fq` and the matrix-vector
//! products are ndarray's. What is proved here is proved from what their
//! documentation says of the few operations that are called.

pub mod field;
pub mod freivald;
pub mod linalg;
pub mod matrix;
pub mod soundness;

pub use field::FieldElem;
pub use freivald::{check_matrix_dimensions, verify_n, verify_with_scalars, Freivald};
pub use matrix::{Matrix, Vector};
