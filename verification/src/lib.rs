//! Combinatorial core of a collection of numerical optimization algorithms.
//!
//! The numerical kernels work on floating-point values; the decisions they take
//! (which candidate is better, which solutions dominate which, how the simplex is
//! ordered, which samples form a batch, how much curvature history is kept) are
//! made here, on order keys that preserve the order of those values.

pub mod order_key;
pub mod multi_objective;
mod front_proofs;
pub mod dominance_laws;
pub mod nelder_mead;
pub mod quasi_newton;
pub mod gradient_descent;
pub mod conjugate_gradient;
pub mod constraints;
pub mod hyperparameter;
pub mod search_space;
