//! An append-only, fixed-depth Merkle accumulator over opaque leaves, with
//! Pedersen hashing over the BN256 scalar field and a nullifier ledger for
//! Groth16 membership proofs.

pub mod error;
pub mod field;
pub mod hash;
pub mod tree;
pub mod proofs;

