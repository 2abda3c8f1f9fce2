//! Threshold secret sharing over a prime field: Shamir's polynomial scheme and
//! Feldman's verifiable extension, with machine-checked contracts.

pub mod algorithms;
pub mod bigint;
pub mod commitment;
pub mod error;
pub mod interpolation;
pub mod lagrange;
pub mod modular;
pub mod number_theory;
pub mod polynomial;
