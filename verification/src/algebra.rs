//! Finite fields and the objects defined over them.
pub mod codeword;
pub mod coset;
pub mod field;
pub mod polynomial;
pub mod ring;
pub mod tables;
