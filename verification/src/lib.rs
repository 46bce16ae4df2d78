//! A miniature placement driver: the replicated state-machine core of a
//! metadata service for a sharded storage cluster.
//!
//! The crate holds the verified logic of the driver: the key layout of the
//! durable store, the binary codecs, the storage adapter consumed by a
//! consensus core, the write-batch and WAL-sync controller, proposal and
//! read-index tracking, and the event-processing state machine that ties
//! them together. The host process supplies the consensus instance, the
//! durable engine, channels and timers, and feeds events in.

pub mod batch;
pub mod codec;
pub mod driver;
pub mod engine;
pub mod proposal;
pub mod read;
pub mod state;
pub mod store;
pub mod wal;
pub mod command;
pub mod keys;

pub use keys::valid_data_key;
