//! A crash-safe key-value store backed by a write-ahead log.
//!
//! The library builds the bytes that go to the log and reads them back; opening,
//! writing, syncing and renaming files happens outside.

pub mod cli;
pub mod error;
pub mod log;
pub mod store;
