//! A low-degree test over the BabyBear field: cosets of power-of-two subgroups, polynomial
//! folding and quotienting, one round of the fold / commit / sample / quotient protocol, and a
//! Merkle-tree commitment to matrices of mixed heights whose layers may switch between two
//! compression functions.
pub mod challenger;
pub mod coset;
pub mod estimate;
pub mod field;
pub mod hash;
pub mod hybrid;
pub mod hybrid_merkle_tree;
pub mod matrix;
pub mod mmcs;
pub mod polynomial;
pub mod prover;
pub mod transform;
pub mod utils;
