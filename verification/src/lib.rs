//! In-place decimation-in-frequency transform over a prime field.
//!
//! The transform evaluates a polynomial over the multiplicative subgroup of
//! order `n` (a power of two) of a prime field, in place, emitting the result
//! in bit-reversed index order. Field elements are canonical residues stored
//! as `u64`; the modulus is passed alongside each buffer.

#![verifier::loop_isolation(false)]

pub mod butterfly;
pub mod fft;
pub mod field;
pub mod model;
pub mod pass;
pub mod table;
