//! A plain record engine: one log of chunks, manifests and root commits that starts
//! with the device.
pub mod format;
pub mod guarantees;
pub mod laws;
pub mod store;
