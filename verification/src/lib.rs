//! The verified core of a small game engine: an archetype-based
//! entity/component store, and the arithmetic of the engine's allocators and
//! input handling.

pub mod ecs;
pub mod engine;
