//! An archetype-based entity/component store.
//!
//! Entities that carry the same set of component types live together in one
//! archetype. Each archetype keeps its components in fixed-size chunks of
//! bytes, one column per component type, and stays dense: taking an entity out
//! moves the last entity of the archetype into the hole.
//!
//! A component is a sequence of bytes, and its type a token. Every stateful
//! type has a view, a plain mathematical value, and the contracts speak of
//! the views: [`world::WorldView`] for a world, with
//! [`world::WorldView::components`] for what an entity holds.
//!
//! What an operation does is stated in its contract. What holds between
//! operations, or of every well-formed world, is stated by proof functions
//! beside the operations they are about: that archetypes are dense
//! ([`world::lemma_world_density`]), for instance, or that a query misses no
//! entity and yields none twice ([`querying::lemma_query_complete`]).

pub mod archetypes;
pub mod components;
pub mod entities;
pub mod layout;
pub mod migration;
pub mod querying;
pub mod storages;
pub mod world;
