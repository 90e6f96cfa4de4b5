//! Storage and proposal-streaming logic of a consensus application node:
//! transactions and blocks, the reassembly of proposals streamed in parts,
//! and the tables in which decided values and undecided proposals are kept.

pub mod block;
pub mod store;
pub mod streaming;
pub mod tables;
pub mod types;
pub mod txns;
