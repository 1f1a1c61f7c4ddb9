//! Systematic Reed-Solomon coding over the field of 256 elements.
pub mod codec;
pub mod field;
pub mod guarantees;
pub mod laws;
pub mod matrix;
pub mod poly;
pub mod reed_solomon;
