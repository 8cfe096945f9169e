//! Lists whose elements the caller owns, each with its own way of keeping a late `remove` away
//! from elements that `release` has drained.
pub mod draining;
pub mod guarded;
pub mod heads;
pub mod nulling;
pub mod poisoned;
pub mod stacked;
pub mod stamped;
pub mod validated;
pub mod walked;
