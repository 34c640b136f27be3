//! A binary hash tree (Merkle tree) over an ordered collection of values.
//!
//! The tree is stored flat: nodes live in one vector and refer to each other
//! by index, never by pointer. Construction lays the leaves out in input
//! order, links each row with sibling indices, synthesizes parent nodes
//! bottom-up, and finally writes the root into the reserved slot 0. On byte
//! trees, a digest pass fills every node's content hash, and inclusion
//! proofs can be generated and checked against the root digest alone.

pub mod hash;
pub mod helper;
pub mod merkle_tree;
pub mod proof_engine;
