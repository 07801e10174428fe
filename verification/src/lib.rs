//! Divisible anonymous tokens: a wallet is one signed Merkle root over the
//! leaves of a GGM tree, and is spent as coins that each stand for one
//! subtree of those leaves.
//!
//! The executable code calls the curve, hash and proof-system crates through
//! a small number of trusted wrappers; everything around those calls is
//! verified against the contracts stated here.

pub mod dap;
pub mod field;
pub mod ggm;
pub mod poseidon;
pub mod schnorr;
pub mod merkle_tree;
