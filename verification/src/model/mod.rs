//! Models: what the object store and a single-coordinator catalog come to, without
//! media.
pub mod catalog;
pub mod guarantees;
pub mod laws;
pub mod object_laws;
pub mod objects;
pub mod publish;
pub mod rules;
pub mod runs;
pub mod types;
