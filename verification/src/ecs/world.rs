//! The world: entities, the archetypes that store their components, and the
//! storage of each component type.

use crate::ecs::archetypes::{
    archetypes, create_archetype, create_archetype_if_non_existant, find_archetype, get_archetype,
    get_archetype_for_entity_location, get_archetype_mut, lemma_archetype_of, lemma_same_shape_wf,
    lemma_update_keeps_wf, move_to_next_archetype_entity_location,
    move_to_previous_archetype_entity_location, record_occupant, swap_remove_occupant, Archetype,
    ArchetypeEntityLocation, ArchetypeIndex, ArchetypeView, Archetypes, ArchetypesView,
};
use crate::ecs::components::{
    are_chunks_full, fetch, get_chunk, occupied_slots, stock_chunk_pool,
    store_component_at_location, ChunkView,
};
use crate::ecs::entities::{
    add_entity_to_location, change_entity_location, entities, entity, get_entity_location,
    increment_entity_count, last_entity_index, location_of, Entities, EntitiesView, Entity,
    EntityLocation,
};
use crate::ecs::layout::{
    clone_entity_layout_and_add_component, create_entity_layout_from_component_and_size,
    deduced_layout, get_layout_size, lemma_deduced_columns, lemma_deduced_layout_wf,
    ComponentTypeId, EntityLayout, CHUNK_SIZE,
};
use crate::ecs::migration::{
    arriving_row, entity_added, entity_removed, lemma_entity_added, lemma_entity_removed,
};
use crate::ecs::querying::{entities_in, lemma_entity_count};
use crate::ecs::storages::{
    component_storages, extends_layout, find_component_storage, lemma_covered_size,
    lemma_stored_size_of_set, move_components, row_received, rows_swapped,
    set_component_storage_if_not_set_already, storages_cover, ComponentStorages,
    PackedComponentStorage,
};
use vstd::prelude::*;

verus! {

/// A world of entities and their components.
pub struct World {
    pub(crate) entities: Entities,
    pub(crate) archetypes: Archetypes,
    pub(crate) component_storages: ComponentStorages,
}

/// What a world holds.
#[verifier::ext_equal]
pub struct WorldView {
    pub entities: EntitiesView,
    pub archetypes: ArchetypesView,
    pub storages: Map<u64, PackedComponentStorage>,
}

impl WorldView {
    /// The archetype at the given position.
    pub open spec fn archetype(&self, index: ArchetypeIndex) -> ArchetypeView {
        self.archetypes.archetypes[index.0 as int]
    }

    /// The location is an occupied slot of an archetype of the world.
    pub open spec fn valid_location(&self, location: EntityLocation) -> bool {
        &&& location.archetype_index.0 < self.archetypes.archetypes.len()
        &&& self.archetype(location.archetype_index).valid_slot(location.location_in_archetype)
    }

    /// The entity recorded for the slot at the location.
    pub open spec fn occupant(&self, location: EntityLocation) -> Entity {
        self.archetype(location.archetype_index).occupant(location.location_in_archetype)
    }

    /// Where the components of the entity are, if it has any.
    pub open spec fn location(&self, entity: Entity) -> Option<EntityLocation> {
        location_of(self.entities.locations, entity)
    }

    /// The entity was created in this world.
    pub open spec fn has_entity(&self, entity: Entity) -> bool {
        entity.index < self.entities.count
    }

    /// The components of the entity, by the token of their type.
    pub open spec fn components(&self, entity: Entity) -> Map<u64, Seq<u8>> {
        match self.location(entity) {
            Some(location) => self.archetype(location.archetype_index).row(
                location.location_in_archetype,
            ),
            None => Map::empty(),
        }
    }

    /// The tokens of the component types of the entity.
    pub open spec fn component_types(&self, entity: Entity) -> Set<u64> {
        match self.location(entity) {
            Some(location) => self.archetype(location.archetype_index).layout.type_set(),
            None => Set::empty(),
        }
    }

    /// Number of bytes that the components of the entity take.
    pub open spec fn entity_size(&self, entity: Entity) -> int {
        match self.location(entity) {
            Some(location) => self.archetype(location.archetype_index).layout.total_size(),
            None => 0,
        }
    }

    /// Each storage stands under the token of its own type.
    pub open spec fn storages_wf(&self) -> bool {
        forall|token: u64|
            self.storages.contains_key(token) ==> (
            #[trigger] self.storages[token]).component_type_id.token() == token
    }

    /// The entities and the registry are well formed; every archetype has
    /// the entity of each occupied slot recorded, and a storage for each of
    /// its types; each located entity is the occupant of the slot at its
    /// location, and the occupant of each occupied slot is an entity of the
    /// world located at that slot.
    pub open spec fn wf(&self) -> bool {
        &&& self.entities.wf()
        &&& self.archetypes.wf()
        &&& self.storages_wf()
        &&& forall|i: int|
            0 <= i < self.archetypes.archetypes.len() ==> (
            #[trigger] self.archetypes.archetypes[i]).tracks_occupants() && storages_cover(
                self.storages,
                self.archetypes.archetypes[i].layout,
            )
        &&& forall|e: int|
            0 <= e < self.entities.count ==> ((#[trigger] self.entities.locations[e]) matches Some(
                location,
            ) ==> self.valid_location(location) && self.occupant(location).index == e)
        &&& forall|location: EntityLocation| #[trigger]
            self.valid_location(location) ==> self.occupant(location).index < self.entities.count
                && self.entities.locations[self.occupant(location).index as int] == Some(location)
    }
}

impl World {
    /// What the world holds.
    pub open(crate) spec fn view(&self) -> WorldView {
        WorldView {
            entities: self.entities@,
            archetypes: self.archetypes@,
            storages: self.component_storages@,
        }
    }

    /// The entities of the world.
    pub fn entities(&self) -> (r: &Entities)
        ensures
            r@ == self@.entities,
    {
        &self.entities
    }

    /// The registry of archetypes.
    pub fn archetypes(&self) -> (r: &Archetypes)
        ensures
            r@ == self@.archetypes,
    {
        &self.archetypes
    }

    /// The storage of each component type.
    pub fn component_storages(&self) -> (r: &ComponentStorages)
        ensures
            r@ == self@.storages,
    {
        &self.component_storages
    }
}

/// A world without entities.
pub fn create_world() -> (r: World)
    ensures
        r@.wf(),
        r@.entities.count == 0,
        r@.archetypes.archetypes.len() == 0,
        r@.storages == Map::<u64, PackedComponentStorage>::empty(),
{
    World {
        entities: entities(),
        archetypes: archetypes(),
        component_storages: component_storages(),
    }
}

/// Creates an entity, without components. Entities are numbered from zero
/// in the order of their creation.
pub fn add_entity(world: &mut World) -> (r: Entity)
    requires
        old(world)@.wf(),
    ensures
        final(world)@.wf(),
        r.index == old(world)@.entities.count,
        final(world)@.entities.count == old(world)@.entities.count + 1,
        final(world)@.archetypes == old(world)@.archetypes,
        final(world)@.storages == old(world)@.storages,
        final(world)@.location(r).is_none(),
        final(world)@.components(r) == Map::<u64, Seq<u8>>::empty(),
        forall|other: Entity|
            other != r ==> #[trigger] final(world)@.location(other) == old(world)@.location(other),
        forall|other: Entity|
            other != r ==> #[trigger] final(world)@.components(other) == old(world)@.components(
                other,
            ),
{
    increment_entity_count(&mut world.entities);
    proof {
        let before = old(world)@;
        let after = world@;
        assert(after.storages == before.storages);
        assert(after.storages_wf());
        assert forall|e: int| 0 <= e < after.entities.count implies ((
        #[trigger] after.entities.locations[e]) matches Some(location) ==> after.valid_location(
            location,
        ) && after.occupant(location).index == e) by {
            if e < before.entities.count {
                assert(after.entities.locations[e] == before.entities.locations[e]);
            }
        }
        assert forall|location: EntityLocation| #[trigger]
            after.valid_location(location) implies after.occupant(location).index
            < after.entities.count && after.entities.locations[after.occupant(
            location,
        ).index as int] == Some(location) by {
            assert(before.valid_location(location));
        }
    }
    entity(last_entity_index(&world.entities))
}


/// The archetype at position `index` as it was before a component was
/// added: the archetype of that position, or one without entities if the
/// position is new.
pub open spec fn target_before(
    before: WorldView,
    after: WorldView,
    index: ArchetypeIndex,
) -> ArchetypeView {
    if index.0 < before.archetypes.archetypes.len() {
        before.archetype(index)
    } else {
        ArchetypeView { chunks: Seq::empty(), ..after.archetype(index) }
    }
}

/// The location entries after the entity has moved to `arrived`: the entry
/// of the entity says so, and the entity that was last in the archetype that
/// the entity left, if it is another one, is where the entity was.
pub open spec fn relocated(before: WorldView, entity: Entity, arrived: EntityLocation) -> Seq<
    Option<EntityLocation>,
> {
    let first = before.entities.locations.update(entity.index as int, Some(arrived));
    match before.location(entity) {
        Some(left) => {
            let last = before.occupant(
                EntityLocation {
                    archetype_index: left.archetype_index,
                    location_in_archetype: before.archetype(left.archetype_index).tail(),
                },
            );
            if last != entity {
                first.update(last.index as int, Some(left))
            } else {
                first
            }
        },
        None => first,
    }
}

/// The second world is the first after the entity has arrived in the
/// archetype at `target` with the components `row`, and has left the
/// archetype in which it was, if it was in one. No other archetype has
/// changed.
pub open spec fn entity_migrated(
    before: WorldView,
    after: WorldView,
    entity: Entity,
    target: ArchetypeIndex,
    row: Map<u64, Seq<u8>>,
) -> bool {
    let count = before.archetypes.archetypes.len();
    &&& after.entities.count == before.entities.count
    &&& target.0 < after.archetypes.archetypes.len()
    &&& count <= after.archetypes.archetypes.len() <= count + 1
    &&& after.archetypes.archetypes.len() == count + 1 ==> target.0 == count
    &&& forall|i: int|
        0 <= i < after.archetypes.archetypes.len() && i != target.0 && !(before.location(
            entity,
        ) matches Some(left) && left.archetype_index.0 == i) ==> i < count
            && #[trigger] after.archetypes.archetypes[i] == before.archetypes.archetypes[i]
    &&& entity_added(target_before(before, after, target), after.archetype(target), entity, row)
    &&& before.location(entity) matches Some(left) ==> left.archetype_index != target
        && entity_removed(
        before.archetype(left.archetype_index),
        after.archetype(left.archetype_index),
        left.location_in_archetype,
    )
    &&& after.entities.locations == relocated(
        before,
        entity,
        EntityLocation {
            archetype_index: target,
            location_in_archetype: after.archetype(target).tail(),
        },
    )
}

/// A migration keeps the world well formed, gives the entity the components
/// it arrived with, and leaves every other entity the components it had.
pub proof fn lemma_entity_migrated(
    before: WorldView,
    after: WorldView,
    entity: Entity,
    target: ArchetypeIndex,
    row: Map<u64, Seq<u8>>,
)
    requires
        before.wf(),
        before.has_entity(entity),
        entity_migrated(before, after, entity, target, row),
        after.archetypes.wf(),
        after.storages_wf(),
        forall|i: int|
            0 <= i < after.archetypes.archetypes.len() ==> (
            #[trigger] after.archetypes.archetypes[i]).tracks_occupants() && storages_cover(
                after.storages,
                after.archetypes.archetypes[i].layout,
            ),
    ensures
        after.wf(),
        after.components(entity) == row,
        forall|other: Entity|
            other != entity ==> #[trigger] after.components(other) == before.components(other),
{
    let arrived = EntityLocation {
        archetype_index: target,
        location_in_archetype: after.archetype(target).tail(),
    };
    let old_target = target_before(before, after, target);
    let locations = before.entities.locations;
    assert(after.valid_location(arrived));
    assert(after.occupant(arrived) == entity);
    match before.location(entity) {
        Some(left) => {
            let source = left.archetype_index;
            let tail = EntityLocation {
                archetype_index: source,
                location_in_archetype: before.archetype(source).tail(),
            };
            let last = before.occupant(tail);
            assert(locations[entity.index as int] == Some(left));
            assert(before.valid_location(left));
            assert(before.occupant(left) == entity);
            assert(before.archetypes.archetypes[source.0 as int].wf());
            assert(before.valid_location(tail)) by {
                let archetype = before.archetype(source);
                assert(archetype.valid_slot(left.location_in_archetype));
                assert(archetype.chunks.last().wf());
            }
            assert(locations[last.index as int] == Some(tail));
            assert forall|e: int| 0 <= e < after.entities.count implies ((
            #[trigger] after.entities.locations[e]) matches Some(location)
                ==> after.valid_location(location) && after.occupant(location).index == e) by {
                if e == entity.index {
                } else if e == last.index {
                    assert(left != tail);
                    assert(after.archetype(source).valid_slot(left.location_in_archetype));
                } else {
                    if let Some(location) = locations[e] {
                        assert(before.valid_location(location));
                        assert(before.occupant(location).index == e);
                        let i = location.archetype_index;
                        if i == target {
                            assert(old_target.valid_slot(location.location_in_archetype));
                        } else if i == source {
                            assert(location != tail);
                            assert(location != left);
                            assert(after.archetype(source).valid_slot(
                                location.location_in_archetype,
                            ));
                        } else {
                            assert(after.archetypes.archetypes[i.0 as int]
                                == before.archetypes.archetypes[i.0 as int]);
                        }
                    }
                }
            }
            assert forall|location: EntityLocation| #[trigger]
                after.valid_location(location) implies after.occupant(location).index
                < after.entities.count && after.entities.locations[after.occupant(
                location,
            ).index as int] == Some(location) by {
                let i = location.archetype_index;
                if i == target {
                    if location != arrived {
                        assert(old_target.valid_slot(location.location_in_archetype));
                        assert(before.valid_location(location));
                    }
                } else if i == source {
                    assert(after.archetype(source).valid_slot(location.location_in_archetype));
                    if location == left {
                    } else {
                        assert(before.valid_location(location));
                    }
                } else {
                    assert(after.archetypes.archetypes[i.0 as int]
                        == before.archetypes.archetypes[i.0 as int]);
                    assert(before.valid_location(location));
                }
            }
            assert forall|other: Entity| other != entity implies #[trigger] after.components(other)
                == before.components(other) by {
                if other.index < before.entities.count {
                    if other == last {
                        assert(after.archetype(source).valid_slot(left.location_in_archetype));
                    } else if let Some(location) = locations[other.index as int] {
                        assert(before.valid_location(location));
                        assert(before.occupant(location).index == other.index);
                        let i = location.archetype_index;
                        if i == target {
                            assert(old_target.valid_slot(location.location_in_archetype));
                        } else if i == source {
                            assert(location != tail);
                            assert(location != left);
                            assert(after.archetype(source).valid_slot(
                                location.location_in_archetype,
                            ));
                        } else {
                            assert(after.archetypes.archetypes[i.0 as int]
                                == before.archetypes.archetypes[i.0 as int]);
                        }
                    }
                }
            }
        },
        None => {
            assert forall|e: int| 0 <= e < after.entities.count implies ((
            #[trigger] after.entities.locations[e]) matches Some(location)
                ==> after.valid_location(location) && after.occupant(location).index == e) by {
                if e != entity.index {
                    if let Some(location) = locations[e] {
                        assert(before.valid_location(location));
                        let i = location.archetype_index;
                        if i == target {
                            assert(old_target.valid_slot(location.location_in_archetype));
                        } else {
                            assert(after.archetypes.archetypes[i.0 as int]
                                == before.archetypes.archetypes[i.0 as int]);
                        }
                    }
                }
            }
            assert forall|location: EntityLocation| #[trigger]
                after.valid_location(location) implies after.occupant(location).index
                < after.entities.count && after.entities.locations[after.occupant(
                location,
            ).index as int] == Some(location) by {
                let i = location.archetype_index;
                if i == target {
                    if location != arrived {
                        assert(old_target.valid_slot(location.location_in_archetype));
                        assert(before.valid_location(location));
                    }
                } else {
                    assert(after.archetypes.archetypes[i.0 as int]
                        == before.archetypes.archetypes[i.0 as int]);
                    assert(before.valid_location(location));
                }
            }
            assert forall|other: Entity| other != entity implies #[trigger] after.components(other)
                == before.components(other) by {
                if other.index < before.entities.count {
                    if let Some(location) = locations[other.index as int] {
                        assert(before.valid_location(location));
                        let i = location.archetype_index;
                        if i == target {
                            assert(old_target.valid_slot(location.location_in_archetype));
                        } else {
                            assert(after.archetypes.archetypes[i.0 as int]
                                == before.archetypes.archetypes[i.0 as int]);
                        }
                    }
                }
            }
        },
    }
}


/// An archetype without component types and without entities.
fn vacant_archetype(index: ArchetypeIndex) -> (r: Archetype)
    ensures
        r@.index == index,
{
    let layout = EntityLayout { components: Vec::new(), component_sizes: Vec::new() };
    create_archetype(layout, index)
}

/// The registry after the components of the entity in the slot `left` of
/// the archetype `source` went to the last occupied slot of the archetype
/// `target`, together with one new component.
pub open spec fn transferred(
    before: ArchetypesView,
    after: ArchetypesView,
    source: ArchetypeIndex,
    left: ArchetypeEntityLocation,
    target: ArchetypeIndex,
    moved_chunk: ChunkView,
    token: u64,
    component: Seq<u8>,
) -> bool {
    let old_source = before.archetypes[source.0 as int];
    let new_source = after.archetypes[source.0 as int];
    let old_target = before.archetypes[target.0 as int];
    let new_target = after.archetypes[target.0 as int];
    let arrived = old_target.tail();
    &&& after == (ArchetypesView {
        archetypes: before.archetypes.update(source.0 as int, new_source).update(
            target.0 as int,
            new_target,
        ),
        ..before
    })
    &&& new_source == (ArchetypeView { chunks: new_source.chunks, ..old_source })
    &&& rows_swapped(
        old_source.chunks,
        new_source.chunks,
        old_source.layout.components.len() as int,
        left,
        old_source.tail(),
    )
    &&& new_target == (ArchetypeView {
        chunks: old_target.chunks.update(
            arrived.chunk.0 as int,
            new_target.chunks[arrived.chunk.0 as int],
        ),
        ..old_target
    })
    &&& row_received(
        old_target.chunks[arrived.chunk.0 as int],
        moved_chunk,
        arrived.component.0 as int,
        old_source.layout.types(),
        old_source.chunks[left.chunk.0 as int],
        left.component.0 as int,
    )
    &&& moved_chunk.same_except_cell(
        new_target.chunks[arrived.chunk.0 as int],
        moved_chunk.layout.column_of(token),
        arrived.component.0 as int,
    )
    &&& new_target.chunks[arrived.chunk.0 as int].component(token, arrived.component.0 as int)
        == component
}

/// Moves the components of the entity in the slot `left` of the archetype
/// `source` to the last occupied slot of the archetype `target`, and writes
/// the new component beside them. Returns what the target chunk held between
/// the two steps.
fn transfer_components(
    archetypes: &mut Archetypes,
    storages: &ComponentStorages,
    source_layout: &EntityLayout,
    source: ArchetypeIndex,
    left: ArchetypeEntityLocation,
    target: ArchetypeIndex,
    component_type: ComponentTypeId,
    component: &[u8],
) -> (moved_chunk: Ghost<ChunkView>)
    requires
        old(archetypes)@.wf(),
        source.0 < old(archetypes)@.archetypes.len(),
        target.0 < old(archetypes)@.archetypes.len(),
        source != target,
        storages.wf(),
        storages.covers(source_layout@),
        storages.covers(old(archetypes)@.archetypes[target.0 as int].layout),
        source_layout@ == old(archetypes)@.archetypes[source.0 as int].layout,
        old(archetypes)@.archetypes[source.0 as int].valid_slot(left),
        old(archetypes)@.archetypes[target.0 as int].chunks.len() > 0,
        old(archetypes)@.archetypes[target.0 as int].layout.type_set()
            == old(archetypes)@.archetypes[source.0 as int].layout.type_set().insert(
            component_type.token(),
        ),
        !old(archetypes)@.archetypes[source.0 as int].layout.type_set().contains(
            component_type.token(),
        ),
        storages@.contains_key(component_type.token()),
        storages@[component_type.token()].size == component@.len(),
    ensures
        final(archetypes)@.wf(),
        transferred(
            old(archetypes)@,
            final(archetypes)@,
            source,
            left,
            target,
            moved_chunk@,
            component_type.token(),
            component@,
        ),
{
    let ghost before = archetypes@;
    let ghost old_source = before.archetypes[source.0 as int];
    let ghost old_target = before.archetypes[target.0 as int];
    let ghost arrived = old_target.tail();
    let ghost token = component_type.token();
    proof {
        assert(old_source.wf());
        assert(old_target.wf());
        assert(old_target.chunks.last().wf());
        lemma_deduced_layout_wf(old_target.layout);
        lemma_deduced_columns(old_target.layout, token);
        assert(old_target.layout.type_set().contains(token));
        assert(old_target.chunks.last().layout == deduced_layout(old_target.layout));
        assert(old_target.chunks[arrived.chunk.0 as int].chunk_index.0 == arrived.chunk.0);
        lemma_extends_layout(storages@, old_source.layout, old_target.layout, token);
        let k = old_target.layout.types().index_of(token);
        assert(old_target.layout.types()[k] == token);
    }
    let mut taken = vacant_archetype(source);
    core::mem::swap(get_archetype_mut(archetypes, source), &mut taken);
    let ghost vacated = archetypes@;
    let arrived_at = ArchetypeEntityLocation {
        chunk: crate::ecs::components::current_chunk_index(
            crate::ecs::archetypes::get_archetype(archetypes, target).chunks(),
        ),
        component: crate::ecs::components::get_chunk(
            crate::ecs::archetypes::get_archetype(archetypes, target).chunks(),
            crate::ecs::components::current_chunk_index(
                crate::ecs::archetypes::get_archetype(archetypes, target).chunks(),
            ),
        ).current_component_index(),
    };
    assert(arrived_at == arrived);
    let target_archetype = get_archetype_mut(archetypes, target);
    move_components(storages, source_layout, &mut taken, left, target_archetype, arrived_at);
    let ghost moved_chunk = target_archetype@.chunks[arrived.chunk.0 as int];
    let ghost moved_target = target_archetype@;
    proof {
        assert(old_target.chunks[arrived.chunk.0 as int].same_shape(moved_chunk));
        assert(moved_chunk.wf());
    }
    store_component_at_location(
        &mut target_archetype.chunks,
        arrived_at,
        component_type,
        component,
    );
    let ghost new_target = target_archetype@;
    let ghost new_source = taken@;
    core::mem::swap(get_archetype_mut(archetypes, source), &mut taken);
    proof {
        let after = archetypes@;
        assert(after.archetypes =~= before.archetypes.update(source.0 as int, new_source).update(
            target.0 as int,
            new_target,
        ));
        assert(new_target.chunks =~= old_target.chunks.update(
            arrived.chunk.0 as int,
            new_target.chunks[arrived.chunk.0 as int],
        ));
        lemma_same_shape_wf(moved_target, new_target);
        let middle = ArchetypesView {
            archetypes: before.archetypes.update(source.0 as int, new_source),
            ..before
        };
        lemma_update_keeps_wf(before, middle, source.0 as int);
        lemma_update_keeps_wf(middle, after, target.0 as int);
    }
    Ghost(moved_chunk)
}

/// A layout whose types are those of another layout and one more is an
/// extension of that layout, if one set of storages covers both.
proof fn lemma_extends_layout(
    storages: Map<u64, PackedComponentStorage>,
    source: crate::ecs::layout::EntityLayoutView,
    target: crate::ecs::layout::EntityLayoutView,
    token: u64,
)
    requires
        storages_cover(storages, source),
        storages_cover(storages, target),
        target.type_set() == source.type_set().insert(token),
    ensures
        extends_layout(target, source),
{
    assert forall|i: int| 0 <= i < source.components.len() implies target.types().contains(
        #[trigger] source.types()[i],
    ) && target.sizes[target.types().index_of(source.types()[i])] == source.sizes[i] by {
        let t = source.types()[i];
        assert(source.type_set().contains(t));
        assert(target.type_set().contains(t));
        let j = target.types().index_of(t);
        assert(target.types()[j] == t);
    }
}


/// Why a component was not added to an entity.
#[derive(Clone, Copy, Debug, PartialEq, Eq, Structural)]
pub enum AddComponentError {
    /// The entity was not created in this world.
    NoSuchEntity,
    /// The component type was used before with another size.
    SizeMismatch,
    /// The entity has a component of this type already.
    AlreadyPresent,
    /// The components of the entity would take no byte.
    NothingToStore,
    /// The components of the entity would take more than a chunk.
    TooLarge,
    /// A new chunk was needed, and there was no memory for it.
    OutOfMemory,
}

impl WorldView {
    /// Why a component of the given type and size cannot be added to the
    /// entity, if it cannot.
    pub open spec fn add_component_error(
        &self,
        entity: Entity,
        component_type: ComponentTypeId,
        size: int,
    ) -> Option<AddComponentError> {
        let token = component_type.token();
        if !self.has_entity(entity) {
            Some(AddComponentError::NoSuchEntity)
        } else if self.storages.contains_key(token) && self.storages[token].size != size {
            Some(AddComponentError::SizeMismatch)
        } else if self.component_types(entity).contains(token) {
            Some(AddComponentError::AlreadyPresent)
        } else if self.entity_size(entity) + size == 0 {
            Some(AddComponentError::NothingToStore)
        } else if self.entity_size(entity) + size > CHUNK_SIZE {
            Some(AddComponentError::TooLarge)
        } else {
            None
        }
    }

    /// Whether adding a component of the given type to the entity takes a
    /// new chunk: the pool is empty, and the archetype to which the entity
    /// goes does not exist or has no free slot.
    pub open spec fn needs_new_chunk(&self, entity: Entity, component_type: ComponentTypeId) -> bool {
        let types = self.component_types(entity).insert(component_type.token());
        &&& self.archetypes.pool.len() == 0
        &&& !self.archetypes.has_archetype(types)
            || self.archetypes.archetypes[self.archetypes.archetype_of(types)].is_full()
    }

    /// The storages with one for the given type, of the given size, unless
    /// the type has one already.
    pub open spec fn storages_with(&self, component_type: ComponentTypeId, size: usize) -> Map<
        u64,
        PackedComponentStorage,
    > {
        if self.storages.contains_key(component_type.token()) {
            self.storages
        } else {
            self.storages.insert(
                component_type.token(),
                PackedComponentStorage { component_type_id: component_type, size },
            )
        }
    }
}

/// The layout of the archetype that is made for an entity when it gets a
/// component of a new type and no archetype has its component set: the
/// columns of the archetype in which the entity was, if it was in one, and
/// one more column for the new type.
pub open spec fn extended_layout(
    before: WorldView,
    entity: Entity,
    component_type: ComponentTypeId,
    size: usize,
) -> crate::ecs::layout::EntityLayoutView {
    match before.location(entity) {
        Some(location) => crate::ecs::layout::EntityLayoutView {
            components: before.archetype(location.archetype_index).layout.components.push(
                component_type,
            ),
            sizes: before.archetype(location.archetype_index).layout.sizes.push(size),
        },
        None => crate::ecs::layout::EntityLayoutView {
            components: seq![component_type],
            sizes: seq![size],
        },
    }
}

/// What a migration does to the pool: the new chunk that the target needs,
/// if it needs one, is the chunk that was pooled last, and the chunk that the
/// source no longer needs, if there is one, is pooled last.
pub open spec fn pool_after_migration(
    before: WorldView,
    after: WorldView,
    entity: Entity,
    target: ArchetypeIndex,
) -> bool {
    let takes = target_before(before, after, target).is_full() && before.archetypes.pool.len() > 0;
    let base = if takes {
        before.archetypes.pool.drop_last()
    } else {
        before.archetypes.pool
    };
    if before.location(entity) matches Some(left) && before.archetype(
        left.archetype_index,
    ).chunks.last().current_component_index.0 == 0 {
        after.archetypes.pool.len() == base.len() + 1 && after.archetypes.pool.drop_last() == base
    } else {
        after.archetypes.pool == base
    }
}

/// The second world is the first after the component was added to the
/// entity: the entity is in the archetype for its former component types and
/// the new one, with the components it had and the new one, and takes as
/// many bytes more as the component has; the type has a storage; every other
/// entity has the components it had.
pub open spec fn component_added(
    before: WorldView,
    after: WorldView,
    entity: Entity,
    component_type: ComponentTypeId,
    component: Seq<u8>,
) -> bool {
    let token = component_type.token();
    let types = before.component_types(entity).insert(token);
    let target = ArchetypeIndex(after.archetypes.archetype_of(types) as usize);
    &&& after.storages == before.storages_with(component_type, component.len() as usize)
    &&& after.archetypes.has_archetype(types)
    &&& !before.archetypes.has_archetype(types) ==> after.archetype(target).layout
        == extended_layout(before, entity, component_type, component.len() as usize)
    &&& entity_migrated(
        before,
        after,
        entity,
        target,
        before.components(entity).insert(token, component),
    )
    &&& pool_after_migration(before, after, entity, target)
    &&& after.components(entity) == before.components(entity).insert(token, component)
    &&& after.entity_size(entity) == before.entity_size(entity) + component.len()
    &&& forall|other: Entity|
        other != entity ==> #[trigger] after.components(other) == before.components(other)
}

/// Storages that cover a layout still cover it when a storage for one more
/// type is there.
proof fn lemma_cover_kept(
    world: WorldView,
    component_type: ComponentTypeId,
    size: usize,
    layout: crate::ecs::layout::EntityLayoutView,
)
    requires
        storages_cover(world.storages, layout),
    ensures
        storages_cover(world.storages_with(component_type, size), layout),
{
    let storages = world.storages_with(component_type, size);
    assert forall|i: int| 0 <= i < layout.components.len() implies storages.contains_key(
        #[trigger] layout.types()[i],
    ) && storages[layout.types()[i]].size == layout.sizes[i] by {
        assert(world.storages.contains_key(layout.types()[i]));
    }
}

/// Gives an entity without components its first component.
fn add_first_component(
    world: &mut World,
    entity: Entity,
    component_type: ComponentTypeId,
    component: &[u8],
)
    requires
        old(world)@.wf(),
        old(world)@.location(entity).is_none(),
        old(world)@.add_component_error(entity, component_type, component@.len() as int).is_none(),
    ensures
        final(world)@.wf(),
        component_added(old(world)@, final(world)@, entity, component_type, component@),
{
    let ghost before = world@;
    let ghost token = component_type.token();
    let size: usize = component.len();
    set_component_storage_if_not_set_already(&mut world.component_storages, component_type, size);
    let layout = create_entity_layout_from_component_and_size(component_type, size);
    proof {
        assert(layout@.types() =~= seq![token]);
        assert(layout@.types()[0] == token);
        assert(layout@.type_set() =~= Set::<u64>::empty().insert(token));
        assert(before.component_types(entity) == Set::<u64>::empty());
    }
    create_archetype_if_non_existant(&mut world.archetypes, &layout);
    let ghost created = world@.archetypes;
    let ghost b = created.archetype_of(layout@.type_set());
    let location = move_to_next_archetype_entity_location(&mut world.archetypes, &layout);
    let ghost reserved = world@.archetypes;
    proof {
        assert(reserved.archetypes[b].layout == created.archetypes[b].layout);
        lemma_archetype_of(reserved, b);
    }
    let target = find_archetype(&world.archetypes, &layout).unwrap();
    proof {
        let archetype = reserved.archetypes[b];
        assert(archetype.wf());
        assert(archetype.chunks.last().wf());
        assert(archetype.chunks[location.chunk.0 as int].layout == deduced_layout(archetype.layout));
        lemma_deduced_layout_wf(archetype.layout);
        lemma_deduced_columns(archetype.layout, token);
        assert(archetype.layout.type_set().contains(token));
        let k = archetype.layout.types().index_of(token);
        assert(archetype.layout.types()[k] == token);
        if b < before.archetypes.archetypes.len() {
            assert(created == before.archetypes);
            assert(before.archetypes.archetypes[b].tracks_occupants());
            lemma_cover_kept(before, component_type, size, archetype.layout);
        } else {
            assert(storages_cover(world@.storages, layout@)) by {
                assert(layout@.types()[0] == token);
            }
        }
        assert(storages_cover(world@.storages, archetype.layout));
    }
    store_component_at_location(
        &mut get_archetype_mut(&mut world.archetypes, target).chunks,
        location,
        component_type,
        component,
    );
    let ghost stored = world@.archetypes;
    proof {
        lemma_same_shape_wf(reserved.archetypes[b], stored.archetypes[b]);
        lemma_update_keeps_wf(reserved, stored, b);
    }
    record_occupant(&mut world.archetypes, target, location.chunk, entity);
    add_entity_to_location(&mut world.entities.location_map, entity, target, location);
    proof {
        let after = world@;
        let old_target = created.archetypes[b];
        let reserved_chunk = reserved.archetypes[b].chunks[location.chunk.0 as int];
        let bytes = if created.archetypes[b].is_full() && created.pool.len() > 0 {
            created.pool.last().bytes
        } else {
            crate::ecs::components::fresh_bytes()
        };
        assert(Seq::<u64>::empty().to_set() =~= Set::<u64>::empty());
        assert(stored.archetypes[b].chunks =~= reserved.archetypes[b].chunks.update(
            location.chunk.0 as int,
            stored.archetypes[b].chunks[location.chunk.0 as int],
        ));
        lemma_entity_added(
            old_target,
            reserved.archetypes[b],
            reserved_chunk,
            stored.archetypes[b],
            after.archetypes.archetypes[b],
            bytes,
            entity,
            Seq::empty(),
            reserved_chunk,
            0,
            token,
            component@,
        );
        let row = arriving_row(old_target.layout.type_set(), token, component@, reserved_chunk, 0);
        assert(row =~= before.components(entity).insert(token, component@));
        assert(target_before(before, after, target) =~= old_target);
        lemma_archetype_of(after.archetypes, b);
        assert forall|i: int| 0 <= i < after.archetypes.archetypes.len() implies (
        #[trigger] after.archetypes.archetypes[i]).tracks_occupants() && storages_cover(
            after.storages,
            after.archetypes.archetypes[i].layout,
        ) by {
            if i != b {
                assert(after.archetypes.archetypes[i] == before.archetypes.archetypes[i]);
                lemma_cover_kept(before, component_type, size, before.archetypes.archetypes[i].layout);
            }
        }
        assert(after.storages_wf());
        lemma_entity_migrated(before, after, entity, target, row);
        assert(after.archetypes.pool == reserved.pool);
        assert(pool_after_migration(before, after, entity, target));
        if !before.archetypes.has_archetype(layout@.type_set()) {
            assert(after.archetypes.archetypes[b].layout =~= extended_layout(
                before,
                entity,
                component_type,
                size,
            ));
        }
        let joined = after.archetypes.archetypes[b].layout;
        assert(after.archetypes.archetypes[b].wf());
        assert(storages_cover(after.storages, layout@)) by {
            assert(layout@.types()[0] == token);
        }
        lemma_covered_size(after.storages, joined);
        lemma_covered_size(after.storages, layout@);
        lemma_stored_size_of_set(after.storages, joined.types(), layout@.types());
        assert(after.location(entity) == Some(
            EntityLocation {
                archetype_index: target,
                location_in_archetype: after.archetype(target).tail(),
            },
        ));
    }
}


/// Gives an entity that has components one more: the entity moves to the
/// archetype for its component types and the new one.
#[verifier::rlimit(30)]
fn add_further_component(
    world: &mut World,
    entity: Entity,
    location: EntityLocation,
    component_type: ComponentTypeId,
    component: &[u8],
)
    requires
        old(world)@.wf(),
        old(world)@.location(entity) == Some(location),
        old(world)@.add_component_error(entity, component_type, component@.len() as int).is_none(),
    ensures
        final(world)@.wf(),
        component_added(old(world)@, final(world)@, entity, component_type, component@),
{
    let ghost before = world@;
    let ghost token = component_type.token();
    let ghost a = location.archetype_index.0 as int;
    let ghost old_source = before.archetypes.archetypes[a];
    let left = location.location_in_archetype;
    let size: usize = component.len();
    proof {
        assert(before.entities.locations[entity.index as int] == Some(location));
        assert(before.valid_location(location));
        assert(before.occupant(location) == entity);
        assert(old_source.wf());
        assert(old_source.tracks_occupants());
        assert(storages_cover(before.storages, old_source.layout));
    }
    set_component_storage_if_not_set_already(&mut world.component_storages, component_type, size);
    let source_archetype = get_archetype_for_entity_location(&world.archetypes, location);
    let source_archetype_index = location.archetype_index;
    let source_layout = source_archetype.layout().clone();
    let target_layout = clone_entity_layout_and_add_component(
        &source_layout,
        component_type,
        size,
    );
    proof {
        lemma_cover_kept(before, component_type, size, old_source.layout);
        assert(storages_cover(world@.storages, target_layout@)) by {
            assert forall|i: int| 0 <= i < target_layout@.components.len() implies world@.storages.contains_key(
                #[trigger] target_layout@.types()[i],
            ) && world@.storages[target_layout@.types()[i]].size == target_layout@.sizes[i] by {
                if i < old_source.layout.components.len() {
                    assert(target_layout@.types()[i] == old_source.layout.types()[i]);
                }
            }
        }
    }
    create_archetype_if_non_existant(&mut world.archetypes, &target_layout);
    let ghost created = world@.archetypes;
    let ghost b = created.archetype_of(target_layout@.type_set());
    proof {
        assert(created.archetypes[a] == old_source);
        lemma_archetype_of(created, a);
        assert(target_layout@.type_set().contains(token));
        assert(b != a);
        if b < before.archetypes.archetypes.len() {
            assert(created == before.archetypes);
            assert(before.archetypes.archetypes[b].tracks_occupants());
            lemma_cover_kept(before, component_type, size, created.archetypes[b].layout);
        }
        assert(storages_cover(world@.storages, created.archetypes[b].layout));
    }
    let target_location = move_to_next_archetype_entity_location(
        &mut world.archetypes,
        &target_layout,
    );
    let ghost reserved = world@.archetypes;
    proof {
        assert(reserved.archetypes[b].layout == created.archetypes[b].layout);
        lemma_archetype_of(reserved, b);
        assert(reserved.archetypes[a] == old_source);
    }
    let target_archetype_index = find_archetype(&world.archetypes, &target_layout).unwrap();
    let moved_chunk = transfer_components(
        &mut world.archetypes,
        &world.component_storages,
        &source_layout,
        source_archetype_index,
        left,
        target_archetype_index,
        component_type,
        component,
    );
    let ghost stored = world@.archetypes;
    proof {
        assert(old_source.chunks.last().wf());
        assert(old_source.chunks.last().tracks_occupants());
        assert(old_source.chunks[left.chunk.0 as int].tracks_occupants());
        assert(old_source.chunks.last().same_shape(stored.archetypes[a].chunks.last()));
        assert(old_source.chunks[left.chunk.0 as int].same_shape(
            stored.archetypes[a].chunks[left.chunk.0 as int],
        ));
    }
    let last = swap_remove_occupant(&mut world.archetypes, source_archetype_index, left);
    let ghost unrecorded = world@.archetypes;
    record_occupant(&mut world.archetypes, target_archetype_index, target_location.chunk, entity);
    let ghost recorded = world@.archetypes;
    move_to_previous_archetype_entity_location(&mut world.archetypes, source_archetype_index);
    proof {
        let tail = EntityLocation {
            archetype_index: source_archetype_index,
            location_in_archetype: old_source.tail(),
        };
        assert(before.valid_location(tail));
        assert(last == before.occupant(tail));
        assert(before.entities.locations[last.index as int] == Some(tail));
    }
    change_entity_location(
        &mut world.entities.location_map,
        entity,
        target_archetype_index,
        target_location,
    );
    if last != entity {
        change_entity_location(
            &mut world.entities.location_map,
            last,
            source_archetype_index,
            left,
        );
    }
    proof {
        let after = world@;
        let old_target = created.archetypes[b];
        let bytes = if created.archetypes[b].is_full() && created.pool.len() > 0 {
            created.pool.last().bytes
        } else {
            crate::ecs::components::fresh_bytes()
        };
        lemma_entity_removed(
            old_source,
            stored.archetypes[a],
            unrecorded.archetypes[a],
            after.archetypes.archetypes[a],
            left,
        );
        lemma_entity_added(
            old_target,
            reserved.archetypes[b],
            moved_chunk@,
            stored.archetypes[b],
            after.archetypes.archetypes[b],
            bytes,
            entity,
            old_source.layout.types(),
            old_source.chunks[left.chunk.0 as int],
            left.component.0 as int,
            token,
            component@,
        );
        let row = arriving_row(
            old_target.layout.type_set(),
            token,
            component@,
            old_source.chunks[left.chunk.0 as int],
            left.component.0 as int,
        );
        assert(row =~= before.components(entity).insert(token, component@));
        assert(target_before(before, after, target_archetype_index) =~= old_target);
        lemma_archetype_of(after.archetypes, b);
        assert forall|i: int| 0 <= i < after.archetypes.archetypes.len() implies (
        #[trigger] after.archetypes.archetypes[i]).tracks_occupants() && storages_cover(
            after.storages,
            after.archetypes.archetypes[i].layout,
        ) by {
            if i != b && i != a {
                assert(after.archetypes.archetypes[i] == before.archetypes.archetypes[i]);
                lemma_cover_kept(before, component_type, size, before.archetypes.archetypes[i].layout);
            }
        }
        assert(after.storages_wf());
        lemma_entity_migrated(before, after, entity, target_archetype_index, row);
        assert(recorded.pool == reserved.pool);
        assert(recorded.archetypes[a].chunks.last().current_component_index
            == old_source.chunks.last().current_component_index);
        assert(reserved.pool.push(recorded.archetypes[a].chunks.last()).drop_last()
            =~= reserved.pool);
        assert(pool_after_migration(before, after, entity, target_archetype_index));
        if !before.archetypes.has_archetype(target_layout@.type_set()) {
            assert(after.archetypes.archetypes[b].layout =~= extended_layout(
                before,
                entity,
                component_type,
                size,
            ));
        }
        let joined = after.archetypes.archetypes[b].layout;
        assert(after.archetypes.archetypes[b].wf());
        lemma_covered_size(after.storages, joined);
        lemma_covered_size(after.storages, target_layout@);
        lemma_stored_size_of_set(after.storages, joined.types(), target_layout@.types());
        assert(after.location(entity) == Some(
            EntityLocation {
                archetype_index: target_archetype_index,
                location_in_archetype: after.archetype(target_archetype_index).tail(),
            },
        ));
    }
}

/// A world that differs from another only by one more chunk in its pool,
/// which was empty, and which a new component makes use of, is after the
/// component was added what the other world would be.
proof fn lemma_stocked_pool(
    before: WorldView,
    stocked: WorldView,
    after: WorldView,
    entity: Entity,
    component_type: ComponentTypeId,
    component: Seq<u8>,
)
    requires
        before.needs_new_chunk(entity, component_type),
        stocked == (WorldView {
            archetypes: ArchetypesView { pool: stocked.archetypes.pool, ..before.archetypes },
            ..before
        }),
        stocked.archetypes.pool.len() == 1,
        !before.component_types(entity).contains(component_type.token()),
        after.archetypes.wf(),
        component_added(stocked, after, entity, component_type, component),
    ensures
        component_added(before, after, entity, component_type, component),
{
    let token = component_type.token();
    let types = before.component_types(entity).insert(token);
    let target = ArchetypeIndex(after.archetypes.archetype_of(types) as usize);
    let row = before.components(entity).insert(token, component);
    assert(stocked.component_types(entity) == before.component_types(entity));
    assert(stocked.components(entity) == before.components(entity));
    assert(stocked.location(entity) == before.location(entity));
    assert(stocked.entity_size(entity) == before.entity_size(entity));
    assert(stocked.archetypes.has_archetype(types) == before.archetypes.has_archetype(types)) by {
        if before.archetypes.has_archetype(types) {
            let i = before.archetypes.archetype_of(types);
            assert(stocked.archetypes.archetypes[i].layout.type_set() == types);
        }
        if stocked.archetypes.has_archetype(types) {
            let i = stocked.archetypes.archetype_of(types);
            assert(before.archetypes.archetypes[i].layout.type_set() == types);
        }
    }
    assert(target_before(stocked, after, target) == target_before(before, after, target));
    assert(relocated(stocked, entity, EntityLocation {
        archetype_index: target,
        location_in_archetype: after.archetype(target).tail(),
    }) == relocated(before, entity, EntityLocation {
        archetype_index: target,
        location_in_archetype: after.archetype(target).tail(),
    }));
    assert(entity_migrated(before, after, entity, target, row));
    assert(after.archetypes.archetypes[target.0 as int].layout.type_set() == types);
    assert(target_before(before, after, target).is_full()) by {
        if before.archetypes.has_archetype(types) {
            let i = before.archetypes.archetype_of(types);
            assert(before.archetypes.archetypes[i].layout.type_set() == types);
            if i != target.0 {
                // the entity is not in the archetype at `i`, which is therefore unchanged
                assert(after.archetypes.archetypes[i] == before.archetypes.archetypes[i]);
                crate::ecs::archetypes::lemma_archetype_of(after.archetypes, i);
            }
        } else {
            if target.0 < before.archetypes.archetypes.len() {
                assert(before.archetypes.archetypes[target.0 as int].layout.type_set() == types);
            }
        }
    }
    assert(stocked.archetypes.pool.drop_last() =~= before.archetypes.pool);
    assert(pool_after_migration(before, after, entity, target));
    assert forall|other: Entity| other != entity implies #[trigger] after.components(other)
        == before.components(other) by {
        assert(stocked.components(other) == before.components(other));
    }
}

/// Adds a component of the given type to the entity. The entity moves to the
/// archetype for its former component types and the new one, and keeps the
/// components it had; in the archetype it leaves, the last entity takes its
/// slot. Nothing happens if the entity is not of this world, if the type was
/// used with another size, if the entity has a component of the type, if its
/// components would take no byte or more than a chunk, or if a new chunk is
/// needed and there is no memory for it.
pub fn add_component(
    world: &mut World,
    entity: Entity,
    component_type: ComponentTypeId,
    component: &[u8],
) -> (r: Result<(), AddComponentError>)
    requires
        old(world)@.wf(),
    ensures
        final(world)@.wf(),
        match r {
            Ok(()) => old(world)@.add_component_error(
                entity,
                component_type,
                component@.len() as int,
            ).is_none() && component_added(
                old(world)@,
                final(world)@,
                entity,
                component_type,
                component@,
            ),
            Err(AddComponentError::OutOfMemory) => old(world)@.add_component_error(
                entity,
                component_type,
                component@.len() as int,
            ).is_none() && old(world)@.needs_new_chunk(entity, component_type) && final(world)@
                == old(world)@,
            Err(error) => old(world)@.add_component_error(
                entity,
                component_type,
                component@.len() as int,
            ) == Some(error) && final(world)@ == old(world)@,
        },
        old(world)@.add_component_error(entity, component_type, component@.len() as int).is_none()
            && !old(world)@.needs_new_chunk(entity, component_type) ==> r.is_ok(),
{
    let ghost before = world@;
    let ghost types = before.component_types(entity).insert(component_type.token());
    let size: usize = component.len();
    if entity.index >= world.entities.count() {
        return Err(AddComponentError::NoSuchEntity);
    }
    if let Some(storage) = find_component_storage(&world.component_storages, component_type) {
        if storage.size != size {
            return Err(AddComponentError::SizeMismatch);
        }
    }
    let location = get_entity_location(&world.entities.location_map, entity);
    let target_layout = match location {
        Some(location) => {
            proof {
                assert(world@.entities.locations[entity.index as int] == Some(location));
                assert(world@.valid_location(location));
                assert(world@.archetypes.archetypes[location.archetype_index.0 as int].wf());
            }
            let source_archetype = get_archetype_for_entity_location(&world.archetypes, location);
            if source_archetype.layout().contains(component_type) {
                return Err(AddComponentError::AlreadyPresent);
            }
            let total: usize = get_layout_size(source_archetype.layout());
            if size > CHUNK_SIZE - total {
                return Err(AddComponentError::TooLarge);
            }
            clone_entity_layout_and_add_component(source_archetype.layout(), component_type, size)
        },
        None => {
            if size == 0 {
                return Err(AddComponentError::NothingToStore);
            }
            if size > CHUNK_SIZE {
                return Err(AddComponentError::TooLarge);
            }
            let layout = create_entity_layout_from_component_and_size(component_type, size);
            proof {
                assert(layout@.types() =~= seq![component_type.token()]);
                assert(layout@.types()[0] == component_type.token());
                assert(layout@.type_set() =~= Set::<u64>::empty().insert(component_type.token()));
            }
            layout
        },
    };
    assert(target_layout@.type_set() == types);
    let needs_chunk: bool = world.archetypes.chunk_pool().len() == 0 && match find_archetype(
        &world.archetypes,
        &target_layout,
    ) {
        Some(index) => {
            proof {
                let archetype = world@.archetypes.archetypes[index.0 as int];
                assert(archetype.wf());
                if archetype.chunks.len() > 0 {
                    assert(archetype.chunks.last().wf());
                }
            }
            are_chunks_full(get_archetype(&world.archetypes, index).chunks())
        },
        None => true,
    };
    assert(needs_chunk == before.needs_new_chunk(entity, component_type));
    if needs_chunk {
        if !stock_chunk_pool(&mut world.archetypes.chunk_pool) {
            return Err(AddComponentError::OutOfMemory);
        }
    }
    let ghost stocked = world@;
    proof {
        assert(stocked.archetypes.archetypes == before.archetypes.archetypes);
        assert(stocked.storages == before.storages);
        assert(stocked.storages_wf());
        assert(stocked.archetypes.wf());
        assert forall|location: EntityLocation| #[trigger]
            stocked.valid_location(location) implies stocked.occupant(location).index
            < stocked.entities.count && stocked.entities.locations[stocked.occupant(
            location,
        ).index as int] == Some(location) by {
            assert(before.valid_location(location));
        }
        assert forall|e: int| 0 <= e < stocked.entities.count implies ((
        #[trigger] stocked.entities.locations[e]) matches Some(location)
            ==> stocked.valid_location(location) && stocked.occupant(location).index == e) by {
            if let Some(location) = before.entities.locations[e] {
                assert(before.valid_location(location));
            }
        }
        assert(stocked.wf());
        assert(stocked.component_types(entity) == before.component_types(entity));
        assert(stocked.entity_size(entity) == before.entity_size(entity));
    }
    match location {
        Some(location) => {
            add_further_component(world, entity, location, component_type, component);
        },
        None => {
            add_first_component(world, entity, component_type, component);
        },
    }
    proof {
        if needs_chunk {
            assert(stocked.archetypes =~= (ArchetypesView {
                pool: stocked.archetypes.pool,
                ..before.archetypes
            }));
            lemma_stocked_pool(before, stocked, world@, entity, component_type, component@);
        } else {
            assert(stocked == before);
        }
    }
    Ok(())
}

/// The component of the given type of the entity, read at the location that
/// the world records for the entity; nothing if the entity has no component
/// of the type.
pub fn get_component<'a>(world: &'a World, entity: Entity, component_type: ComponentTypeId) -> (r:
    Option<&'a [u8]>)
    requires
        world@.wf(),
    ensures
        match r {
            Some(component) => world@.components(entity).contains_key(component_type.token())
                && component@ == world@.components(entity)[component_type.token()],
            None => !world@.components(entity).contains_key(component_type.token()),
        },
{
    match get_entity_location(&world.entities.location_map, entity) {
        Some(location) => {
            proof {
                assert(world@.entities.locations[entity.index as int] == Some(location));
                assert(world@.valid_location(location));
                let archetype = world@.archetype(location.archetype_index);
                assert(world@.archetypes.archetypes[location.archetype_index.0 as int].wf());
                assert(archetype.chunks[location.location_in_archetype.chunk.0 as int].wf());
                assert(archetype.chunks[location.location_in_archetype.chunk.0 as int].layout
                    == deduced_layout(archetype.layout));
                lemma_deduced_columns(archetype.layout, component_type.token());
            }
            let archetype = get_archetype_for_entity_location(&world.archetypes, location);
            if !archetype.layout().contains(component_type) {
                return None;
            }
            let chunk = get_chunk(archetype.chunks(), location.location_in_archetype.chunk);
            Some(fetch(chunk, component_type, location.location_in_archetype.component))
        },
        None => None,
    }
}


/// After a component was added, every component reads as the value that was
/// written last: the new component as what was added, every other component
/// of every entity as what it was before.
pub proof fn lemma_last_written_value(
    before: WorldView,
    after: WorldView,
    entity: Entity,
    component_type: ComponentTypeId,
    component: Seq<u8>,
    other: Entity,
    token: u64,
)
    requires
        component_added(before, after, entity, component_type, component),
        before.components(other).contains_key(token) || (other == entity && token
            == component_type.token()),
    ensures
        after.components(other).contains_key(token),
        after.components(other)[token] == if other == entity && token == component_type.token() {
            component
        } else {
            before.components(other)[token]
        },
{
    if other != entity {
        assert(after.components(other) == before.components(other));
    }
}

/// When adding a component moves an entity to another archetype, the
/// components that the entity had are unchanged at its new location, and the
/// entity that was last in the archetype that it left is now located where
/// the entity was, with the components it had.
pub proof fn lemma_move_correct(
    before: WorldView,
    after: WorldView,
    entity: Entity,
    component_type: ComponentTypeId,
    component: Seq<u8>,
)
    requires
        before.wf(),
        before.has_entity(entity),
        before.location(entity).is_some(),
        !before.component_types(entity).contains(component_type.token()),
        component_added(before, after, entity, component_type, component),
    ensures
        forall|token: u64| #[trigger]
            before.components(entity).contains_key(token) ==> after.components(entity).contains_key(
                token,
            ) && after.components(entity)[token] == before.components(entity)[token],
        ({
            let left = before.location(entity).unwrap();
            let last = before.occupant(
                EntityLocation {
                    archetype_index: left.archetype_index,
                    location_in_archetype: before.archetype(left.archetype_index).tail(),
                },
            );
            last != entity ==> after.location(last) == Some(left) && after.components(last)
                == before.components(last)
        }),
{
    let left = before.location(entity).unwrap();
    let tail = EntityLocation {
        archetype_index: left.archetype_index,
        location_in_archetype: before.archetype(left.archetype_index).tail(),
    };
    let last = before.occupant(tail);
    assert(before.entities.locations[entity.index as int] == Some(left));
    assert(before.valid_location(left));
    assert(before.archetypes.archetypes[left.archetype_index.0 as int].wf());
    assert(before.valid_location(tail)) by {
        let archetype = before.archetype(left.archetype_index);
        assert(archetype.valid_slot(left.location_in_archetype));
        assert(archetype.chunks.last().wf());
    }
    assert(last.index < before.entities.count);
    assert forall|token: u64| #[trigger]
        before.components(entity).contains_key(token) implies after.components(entity).contains_key(
        token,
    ) && after.components(entity)[token] == before.components(entity)[token] by {
        assert(token != component_type.token());
    }
}

/// In a well-formed world every archetype is dense: every chunk but the last
/// is full, each occupied slot has its entity recorded, and the last chunk
/// holds the rest of the division of the number of the archetype's entities
/// by the number of slots of a chunk, or a whole chunk if nothing is left
/// over.
pub proof fn lemma_world_density(world: WorldView, index: ArchetypeIndex)
    requires
        world.wf(),
        index.0 < world.archetypes.archetypes.len(),
        world.archetype(index).chunks.len() > 0,
    ensures
        forall|c: int|
            0 <= c < world.archetype(index).chunks.len() - 1 ==> (#[trigger] world.archetype(
                index,
            ).chunks[c]).is_full(),
        forall|c: int|
            0 <= c < world.archetype(index).chunks.len() ==> (#[trigger] world.archetype(
                index,
            ).chunks[c]).occupants.len() == world.archetype(index).chunks[c].occupied(),
        entities_in(world, index).len() == occupied_slots(world.archetype(index).chunks),
        world.archetype(index).chunks.last().occupied() == if entities_in(world, index).len() as int
            % deduced_layout(world.archetype(index).layout).max_slots == 0 {
            deduced_layout(world.archetype(index).layout).max_slots
        } else {
            entities_in(world, index).len() as int % deduced_layout(
                world.archetype(index).layout,
            ).max_slots
        },
{
    lemma_entity_count(world, index);
    assert(world.archetypes.archetypes[index.0 as int].wf());
    assert(world.archetypes.archetypes[index.0 as int].tracks_occupants());
    crate::ecs::archetypes::lemma_density(world.archetype(index));
}

} // verus!
