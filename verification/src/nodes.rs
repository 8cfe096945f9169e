//! Binder nodes with the death notifications registered on them.
//!
//! A notification carries a callback of a type that the user of the library chooses. Nothing here
//! calls one: an operation that makes callbacks due hands them out in the order in which they are to
//! be called.
pub mod detaching;
pub mod fifo;
pub mod generations;
pub mod named;
pub mod once;
pub mod popping;
pub mod recipients;
pub mod reclaiming;
pub mod refcounted;
pub mod refusing;
pub mod single;
pub mod spliced;
pub mod stack_first;
pub mod swapping;
pub mod work;
