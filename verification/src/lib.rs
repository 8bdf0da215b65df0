//! A local cache for remote files addressed by URL.
//!
//! The crate owns the URL-to-file index, decides when a record has expired
//! (with a per-record random offset so that many records cached together do
//! not all expire together), resolves filename collisions, and encodes the
//! index to a single text artifact that round-trips losslessly.  All
//! filesystem and network work is left to the embedding program; the
//! functions here are pure state transitions over the in-memory index.

pub mod cacher;
pub mod chars;
pub mod codec;
pub mod config;
pub mod expiry;
pub mod numbers;
pub mod paths;
pub mod record;
pub mod resolve;

pub use cacher::{Cacher, Stats};
pub use expiry::get_now_unix_epoch;
pub use record::CachedFile;
