//! A rollup full node's synchronisation core: chain records, a transactional
//! store with rollback, feed decoding and validation, and the reconciliation
//! state machine that merges the settlement-layer anchors with the
//! sequencer's blocks.
//!
//! The library decides and records; it performs no input or output. A
//! driver polls the feeds, keeps the store's file, and waits, as
//! [`engine::Action`] tells it, and reports back with [`engine::Event`].

pub mod anchors;
pub mod backoff;
pub mod engine;
pub mod error;
pub mod feed;
pub mod ingest;
pub mod reconcile;
pub mod repoll;
pub mod storage;
pub mod transport;
pub mod types;
pub mod wire;
