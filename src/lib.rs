//! An append-only record log with an in-memory offset index, the storage
//! core of an embedded vector memory store.
//!
//! - `bytes`: little-endian integers.
//! - `format`: the file header and the record frames, written and parsed.
//! - `outside`: the checksum, JSON and UTF-8 calls the engine relies on.
//! - `engine`: the offset index, recovery by scan, appends and reads.
//! - `laws`: what recovery and appends preserve, proved.
pub mod bytes;
pub mod format;
pub mod outside;
pub mod engine;
pub mod laws;
