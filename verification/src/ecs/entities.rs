//! Entities and the map from each entity to the place where its components
//! are stored.

use crate::ecs::archetypes::{ArchetypeEntityLocation, ArchetypeIndex};
use vstd::prelude::*;

verus! {

/// Identity of an entity: its number, counting from zero in the order of
/// creation.
#[derive(Debug, Default, Clone, Copy, PartialEq, Eq, Structural)]
pub struct Entity {
    pub index: usize,
}

/// The entity with the given number.
pub fn entity(index: usize) -> (r: Entity)
    ensures
        r.index == index,
{
    Entity { index }
}

/// Where the components of an entity are stored: an archetype, and a chunk
/// and slot inside it.
#[derive(Clone, Copy, Debug, PartialEq, Eq, Structural)]
pub struct EntityLocation {
    pub archetype_index: ArchetypeIndex,
    pub location_in_archetype: ArchetypeEntityLocation,
}

/// For each entity, by its number, the place where its components are
/// stored, or nothing as long as it has no component.
pub struct EntityLocationMap {
    pub(crate) inner: Vec<Option<EntityLocation>>,
}

/// The location that a sequence of entries records for the entity: none if
/// the entity has no entry, or an empty one.
pub open spec fn location_of(locations: Seq<Option<EntityLocation>>, entity: Entity) -> Option<
    EntityLocation,
> {
    if entity.index < locations.len() {
        locations[entity.index as int]
    } else {
        None
    }
}

impl EntityLocationMap {
    /// The entries, by entity number.
    pub open(crate) spec fn view(&self) -> Seq<Option<EntityLocation>> {
        self.inner@
    }

    /// Number of entries.
    pub fn len(&self) -> (r: usize)
        ensures
            r == self@.len(),
    {
        self.inner.len()
    }
}

/// A map without entries.
pub fn entity_location_map() -> (r: EntityLocationMap)
    ensures
        r@ == Seq::<Option<EntityLocation>>::empty(),
{
    EntityLocationMap { inner: Vec::new() }
}

/// Whether the map records a location for the entity.
pub fn entity_is_located(location_map: &EntityLocationMap, entity: Entity) -> (r: bool)
    ensures
        r == location_of(location_map@, entity).is_some(),
{
    if entity.index < location_map.inner.len() {
        location_map.inner[entity.index].is_some()
    } else {
        false
    }
}

/// The location of the entity, if the map records one.
pub fn get_entity_location(location_map: &EntityLocationMap, entity: Entity) -> (r: Option<
    EntityLocation,
>)
    ensures
        r == location_of(location_map@, entity),
{
    if entity.index < location_map.inner.len() {
        location_map.inner[entity.index]
    } else {
        None
    }
}

/// Records the first location of an entity that had none.
pub fn add_entity_to_location(
    location_map: &mut EntityLocationMap,
    entity: Entity,
    archetype_index: ArchetypeIndex,
    location_in_archetype: ArchetypeEntityLocation,
)
    requires
        entity.index < old(location_map)@.len(),
        old(location_map)@[entity.index as int].is_none(),
    ensures
        final(location_map)@ == old(location_map)@.update(
            entity.index as int,
            Some(EntityLocation { archetype_index, location_in_archetype }),
        ),
{
    location_map.inner[entity.index] = Some(
        EntityLocation { archetype_index, location_in_archetype },
    );
}

/// Replaces the location of an entity that had one.
pub fn change_entity_location(
    location_map: &mut EntityLocationMap,
    entity: Entity,
    archetype_index: ArchetypeIndex,
    location_in_archetype: ArchetypeEntityLocation,
)
    requires
        entity.index < old(location_map)@.len(),
        old(location_map)@[entity.index as int].is_some(),
    ensures
        final(location_map)@ == old(location_map)@.update(
            entity.index as int,
            Some(EntityLocation { archetype_index, location_in_archetype }),
        ),
{
    location_map.inner[entity.index] = Some(
        EntityLocation { archetype_index, location_in_archetype },
    );
}

/// The entities of a world: how many were created, and where each one is.
pub struct Entities {
    pub(crate) location_map: EntityLocationMap,
    pub(crate) entity_count: usize,
}

/// What an `Entities` holds: the number of entities created so far and the
/// entry of each in the location map.
pub struct EntitiesView {
    pub count: nat,
    pub locations: Seq<Option<EntityLocation>>,
}

impl EntitiesView {
    /// Every entity that was created has an entry, and no other.
    pub open spec fn wf(&self) -> bool {
        self.locations.len() == self.count
    }
}

impl Entities {
    /// What the entities hold.
    pub open(crate) spec fn view(&self) -> EntitiesView {
        EntitiesView { count: self.entity_count as nat, locations: self.location_map@ }
    }

    /// Number of entities created so far.
    pub fn count(&self) -> (r: usize)
        ensures
            r == self@.count,
    {
        self.entity_count
    }

    /// The location map.
    pub fn location_map(&self) -> (r: &EntityLocationMap)
        ensures
            r@ == self@.locations,
    {
        &self.location_map
    }

    /// The location map, taken out of the entities.
    pub fn into_location_map(self) -> (r: EntityLocationMap)
        ensures
            r@ == self@.locations,
    {
        self.location_map
    }
}

/// No entities.
pub fn entities() -> (r: Entities)
    ensures
        r@.wf(),
        r@ == (EntitiesView { count: 0, locations: Seq::empty() }),
{
    Entities { location_map: entity_location_map(), entity_count: 0 }
}

/// Counts one more entity, which has no location yet.
pub fn increment_entity_count(entities: &mut Entities)
    requires
        old(entities)@.wf(),
    ensures
        final(entities)@.wf(),
        final(entities)@ == (EntitiesView {
            count: old(entities)@.count + 1,
            locations: old(entities)@.locations.push(None),
        }),
{
    entities.location_map.inner.push(None);
    assert(entities.location_map.inner.len() == entities.entity_count + 1);
    entities.entity_count += 1;
}

/// The number of the entity that was created last.
pub fn last_entity_index(entities: &Entities) -> (r: usize)
    requires
        entities@.count > 0,
    ensures
        r == entities@.count - 1,
{
    entities.entity_count - 1
}

} // verus!
