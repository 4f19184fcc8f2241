//! A scalar reverse-mode differentiation engine: an append-only arena of
//! nodes that records each operation with the ids of its operands, and the
//! schedule that a backward pass follows through that arena.
pub mod store;
pub mod backward;
