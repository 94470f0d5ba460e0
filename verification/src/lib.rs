//! A verified transaction ordering engine for block execution.
//!
//! A block arrives as a flat sequence of transactions, each carrying a
//! declared footprint: the set of state keys it may read and the set it may
//! write.  Before execution, the engine reorders the block into batches so
//! that a downstream parallel executor can run each batch with few or no
//! conflicts, while every read/write, write/write and write/read dependency
//! between transactions keeps its original direction.
//!
//! The crate provides:
//! - the dependency hint model: transactions with integer-keyed footprints
//!   and the conflict relation between them (`hints`);
//! - key compression, which maps sparse keys to dense integer identifiers
//!   while preserving the conflict structure exactly (`compress`);
//! - dependency leveling, sequential and window-bounded (`levels`), and a
//!   graph-based topological variant (`toposort`);
//! - grouping of leveled transactions into batches and coalescing of small
//!   batches into larger emitted chunks (`grouping`);
//! - the top-level block orderer, which drives a caller-supplied batch sink
//!   and propagates its failures (`orderer`);
//! - an offline quality metric over finished orderings (`quality`).

pub mod hints;
pub mod levels;
pub mod compress;
pub mod grouping;
pub mod toposort;
pub mod orderer;
pub mod quality;
