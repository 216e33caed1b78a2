//! The single-polynomial scheme: a sumcheck for the evaluation woven
//! with the folding of the codeword.
pub mod laws;
pub mod prover;
pub mod sumcheck;
pub mod verification;
