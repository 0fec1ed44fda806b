//! A persistent, embeddable key-value store built on an append-only log of
//! self-delimiting JSON records, with an in-memory key index and in-line
//! compaction.
//!
//! The store itself keeps every log segment's text in memory; the thin
//! unverified shell around the library mirrors appends and compactions onto
//! numbered `<n>.log` files and serves the wire protocol over TCP.

use vstd::prelude::*;

pub mod engine;
pub mod errors;
pub mod index;
pub mod json;
pub mod record;
pub mod segdir;
pub mod store;
pub mod text;
pub mod thread_pool;
pub mod wire;

verus! {

/// Estimated wasted bytes above which the writer triggers compaction.
pub const COMPACTION_THRESHOLD: u64 = 1048576;

} // verus!
