//! Block devices: the device interface, a scripted simulated disk, a media model on
//! top of it, and the commit graph as a log of records on a device.
pub mod block;
pub mod dag_store;
pub mod file;
pub mod histories;
pub mod log;
pub mod log_guarantees;
pub mod log_laws;
pub mod media;
pub mod media_laws;
pub mod script;
pub mod script_laws;
pub mod sim;
pub mod sim_effects;
pub mod sim_laws;
pub mod sim_runs;
pub mod snapshots;
pub mod walk;
