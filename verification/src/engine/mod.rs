//! The object store on a block device: chunks, manifests and committed roots.
pub mod commit;
pub mod format;
pub mod guarantees;
pub mod laws;
pub mod log;
pub mod objects;
pub mod readback;
pub mod runs;
pub mod soundness;
pub mod store;
pub mod write;
