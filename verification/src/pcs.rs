//! The batched commitment scheme: many polynomials opened at one point.
pub mod laws;
pub mod prover;
pub mod verification;
