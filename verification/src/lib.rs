//! A log-structured, persistent key-value store.
//!
//! The store keeps an append-only command log per generation, an in-memory
//! index from key to the position of the latest `Set` record, and an online
//! compaction procedure that rewrites live records into a fresh generation.
//! The log text itself is modelled inside the library; a host program applies
//! the emitted file operations to a real directory.

use vstd::prelude::*;

pub mod cli;
pub mod codec;
pub mod engine;
mod errors;
pub mod laws;
pub mod logfile;
pub mod naming;
pub mod server;
pub mod store;
pub mod strutil;

pub use cli::validate_addr;
pub use cli::Engine;
pub use engine::KvsEngine;
pub use errors::KvsError;
pub use server::KvsServer;
pub use server::Request;
pub use server::Response;
pub use store::DirEntry;
pub use store::FsOp;
pub use store::KvStore;

verus! {

/// The number of superseded bytes that triggers compaction.
pub const COMPACTION_THRESHOLD: u64 = 1024 * 1024;

} // verus!
