//! Authenticated binary aggregation trees ("Merkle trees") over content
//! digests, together with hash pointers and membership proofs.
//!
//! Two tree variants are provided: `merkle::MerkleTree` keeps only digests in
//! its leaves and scans linearly, while `blockchain::MerkleTree` keeps the
//! items themselves together with per-node bounds, which gives logarithmic
//! search and supports destructive pruning.

pub mod blockchain;
pub mod hash;
pub mod merkle;
pub mod merkle_proof;
pub mod order;
