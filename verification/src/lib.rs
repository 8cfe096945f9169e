//! Intrusive linked lists, and the death notification lists and node managers of an inter-process
//! message bus that are built on them.
pub mod active;
pub mod chains;
pub mod links;
pub mod lists;
pub mod managers;
pub mod nodes;
pub mod owned;
pub mod text;
