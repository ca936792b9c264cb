//! A verified engine for reducing and solving polynomial equations of
//! degree at most two.
//!
//! The crate consumes a pre-tokenized equation (one equality sign, a run of
//! additive members on each side), folds it into a sparse exponent-to-
//! coefficient map, renders the canonical reduced form `P(X) = 0`, classifies
//! the effective degree, and dispatches to the closed-form solution for
//! constant, linear and quadratic equations.
//!
//! Coefficients are exact decimal fixed-point numbers: an `i128` count of
//! units of `10^-9`. Every step of the pipeline is exact integer arithmetic,
//! so each function carries a full functional contract.

pub mod token;
pub mod literal;
pub mod poly;
pub mod reduce;
pub mod display;
pub mod solve;
pub mod laws;
