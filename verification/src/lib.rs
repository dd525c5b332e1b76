//! Core of a speculative block-execution engine: a multi-version value store
//! with per-transaction entries, bounded commutative delta arithmetic for
//! shared counters, a sequential-mode mirror store, the lifecycle of one
//! transaction's output from speculative to finalized, the scheduling state
//! machine that drives re-execution, and the reference block executor that
//! ties them together. A small configuration component for the auxiliary
//! database of a local development network rounds out the crate.

pub mod types;
pub mod delta;
pub mod versioned_data;
pub mod output;
pub mod unsync_map;
pub mod scheduler;
pub mod block_executor;
pub mod postgres;
