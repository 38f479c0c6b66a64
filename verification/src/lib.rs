//! A log-structured key-value store: an append-only log of commands, an
//! ordered in-memory index of pointers into that log, recovery of the index
//! from the log, and compaction of the log down to its live records.
//!
//! The store works on the bytes of the log and does no input or output of
//! its own: [`KvStore::open`] takes the bytes of the file, and
//! [`KvStore::log_bytes`] hands back what the file is to hold.

pub mod command;
pub mod compaction;
pub mod engine;
pub mod error;
pub mod index;
pub mod laws;
pub mod log_store;
pub mod pointer;
pub mod record;
pub mod recovery;
pub mod store;
pub mod text;

pub use command::Command;
pub use engine::KvsEngine;
pub use error::{reply_to_result, KvsError};
pub use index::Index;
pub use log_store::LogStore;
pub use pointer::Pointer;
pub use store::{KvStore, COMPACT_BYTES};
