//! Managers that create nodes, find them by number, count references to them and clean up after
//! them.
pub mod cleanups;
pub mod context;
pub mod cookies;
pub mod counts;
pub mod death_list;
pub mod handles;
pub mod intrusive_cleanup;
pub mod live_dead;
pub mod registry;
pub mod sharded;
pub mod strong;
pub mod weak;
