//! Arithmetic of the engine around the store: allocator addresses and button
//! states.

pub mod input;
pub mod memory;
