//! Per-block transaction-processing core of a ledger/VM platform.
//!
//! The library computes a block's result: it classifies each transaction as a
//! system-contract or user-contract call, applies the execution engine's
//! writes to a pair of changesets (memory and storage), meters gas and charges
//! the fee to the sender, records a `CompletedTransaction` per input, and
//! serializes the batch result into one deterministic output line.
//!
//! Queue I/O, the key-value store, and the execution engine itself are
//! external collaborators: the surrounding binary performs them and hands
//! their outcomes to this library as plain values.

pub mod types;
pub mod changeset;
pub mod cbor;
pub mod processor;
pub mod queue;
pub mod timing;
pub mod encoder;
