//! A fixed-depth binary Merkle tree over the BLS12-381 scalar field.
//!
//! Leaves hold byte payloads. A payload is split into field elements, the
//! elements are hashed with the Poseidon sponge, and sibling hashes are
//! combined pairwise with the same sponge up to a single root. The tree keeps
//! every level in one flat array, hands out inclusion proofs, and checks them.

pub mod encoder;
pub mod error;
pub mod field;
pub mod hexcode;
pub mod laws;
pub mod layout;
pub mod inclusion;
pub mod tree;
