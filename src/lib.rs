//! A shielded-pool ledger core: a tiered commitment tree, transparent action
//! proofs, and the per-block bookkeeping of commitments, nullifiers and anchors.
pub mod primitives;
pub mod position;
pub mod tier;
pub mod tree;
pub mod builder;
pub mod note;
pub mod proofs;
pub mod state_key;
pub mod proposal;
pub mod pool;
pub mod codec;
pub mod swap;
pub mod action;
pub mod visualize;
pub mod plan;
