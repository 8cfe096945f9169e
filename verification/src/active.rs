//! Reference-counted nodes on the lists of a driver, and the ways in which they leave them.
//!
//! Nodes live in a memory the caller owns. The sentinel of a ring is one of its nodes.
pub mod buffers;
pub mod dead;
pub mod locked;
pub mod manager;
pub mod payload;
pub mod refs;
pub mod sweep;
