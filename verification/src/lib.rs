//! Cairn: a content-addressed, versioned file store.
pub mod bytes;
pub mod catalog;
pub mod device;
pub mod ec;
pub mod engine;
pub mod first;
pub mod hashing;
pub mod model;
pub mod record_log;
pub mod table;
