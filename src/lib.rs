//! Minimal secure round numbers for a Poseidon-style permutation over a 256-bit prime field.
mod binary;
pub mod round_numbers;
