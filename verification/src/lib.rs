//! A content-addressed, deduplicating backup engine: a flat, versioned
//! object store of immutable packs, indexes, and snapshots.
//!
//! The heart of the crate is the storage access layer in [`backend`]:
//! the `CachedBackend` facade routes every read, write, listing, and
//! deletion to one of several concrete stores, layers a size-bounded
//! write-through cache on top, and counts transferred bytes.
//! [`diff`] compares two content-addressed trees, and [`index`]
//! rebuilds the repository index from the packs currently present.

pub mod backend;
pub mod cache;
pub mod config;
pub mod diff;
pub mod error;
pub mod fs;
pub mod hashing;
pub mod index;
pub mod kvstore;
pub mod memory;
pub mod strutil;
pub mod tree;
