//! An embedded key-value engine whose only durable state is an append-only
//! log of records; reads are served through an in-memory index from each key
//! to the byte offset of the record that last set it.
//!
//! The engine computes and checks; the caller moves bytes. Opening replays
//! the log's bytes, a mutation hands back the exact bytes to append, and a
//! read decodes the one record that the caller fetched at the offset the
//! index gave.

pub mod codec;
pub mod error;
pub mod index;
pub mod laws;
pub mod store;
