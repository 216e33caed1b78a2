//! A multilinear polynomial commitment scheme built on Reed-Solomon
//! codewords, Merkle commitments and repeated codeword folding.
//!
//! A prover encodes polynomials on a coset of a finite field, commits to
//! the codewords with Merkle trees and opens the polynomials at a point
//! that the verifier chooses. Two schemes are at hand: [`basefold`], for
//! one polynomial, weaves a sumcheck with the folding of the codeword;
//! [`pcs`] opens a combination of many polynomials with two coupled
//! chains of codewords.
//!
//! Everything is generic in the field ([`algebra::field::Field`]), of
//! which two are given: the quadratic extension of the Mersenne prime
//! field of 61 bits and a prime field of 255 bits. The modules `laws`
//! of both schemes hold what is proved of them: an honest prover is
//! accepted, the evaluation that it sends is the value of the
//! polynomials at the opening point, and what the verifier was told or
//! shown cannot be changed without it noticing, short of a collision of
//! the hash function.
use vstd::prelude::*;

pub mod algebra;
pub mod basefold;
pub mod folding;
pub mod interpolation;
pub mod merkle_tree;
pub mod pcs;
pub mod power_of_two;
pub mod query_result;
mod random;
pub mod random_oracle;

verus! {

/// Base-two logarithm of the inverse code rate: a polynomial in `n`
/// variables is encoded on a coset of size `2^(n + CODE_RATE)`.
pub const CODE_RATE: usize = 3;

/// Targeted soundness level; a proof is opened at
/// `SECURITY_BITS / CODE_RATE` leaf positions.
pub const SECURITY_BITS: usize = 100;

} // verus!
