//! Tracking of established TCP connections on a chosen set of local ports:
//! decoding of the kernel's connection tables, grouping of remote peers by
//! local port, and the per-cycle snapshot built from both address families.
pub mod codec;
pub mod config;
pub mod snapshot;
pub mod table;
pub mod text;
