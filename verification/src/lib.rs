//! An append-only block and state storage engine.
//!
//! Block data arrives in three streams (headers, bodies, state diffs), each
//! guarded by a marker: the first block number for which the stream holds no
//! data yet. Appends must hit the marker exactly, keep secondary indexes in
//! step with the primary tables, and commit atomically. Readers work on
//! snapshots and can resolve contract storage at any historical block.

pub mod codec;
pub mod felt;
pub mod laws;
pub mod model;
pub mod state;
pub mod txn;
pub mod types;
