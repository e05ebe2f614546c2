use gol::ecs::archetypes::{get_archetype, ArchetypeEntityLocation, ArchetypeIndex};
use gol::ecs::components::{get_chunk, ChunkIndex};
use gol::ecs::entities::{entity, get_entity_location, Entity, EntityLocation};
use gol::ecs::layout::{component_type_id, ComponentIndex, ComponentTypeId, CHUNK_SIZE};
use gol::ecs::querying::iterate_query;
use gol::ecs::storages::get_component_storage;
use gol::ecs::world::{
    add_component, add_entity, create_world, get_component, AddComponentError, World,
};

fn position() -> ComponentTypeId {
    component_type_id(1, "Position")
}

fn velocity() -> ComponentTypeId {
    component_type_id(2, "Velocity")
}

fn location(world: &World, entity: Entity) -> Option<(usize, usize, usize)> {
    get_entity_location(world.entities().location_map(), entity).map(|location| {
        (
            location.archetype_index.0,
            location.location_in_archetype.chunk.0,
            location.location_in_archetype.component.0,
        )
    })
}

fn query(world: &World, components: Vec<ComponentTypeId>) -> Vec<Entity> {
    let mut found = Vec::new();
    let mut iterator = iterate_query(world, components);
    while let Some(row) = iterator.next() {
        found.push(row.entity);
    }
    found
}

#[test]
fn a_new_world_is_empty() {
    let world = create_world();
    assert_eq!(world.entities().count(), 0);
    assert_eq!(world.archetypes().len(), 0);
    assert_eq!(query(&world, vec![]), vec![]);
}

#[test]
fn entities_are_created_in_order() {
    let mut world = create_world();
    assert_eq!(add_entity(&mut world), entity(0));
    assert_eq!(add_entity(&mut world), entity(1));
    assert_eq!(add_entity(&mut world), entity(2));
    assert_eq!(world.entities().count(), 3);
    assert_eq!(location(&world, entity(1)), None);
    assert_eq!(get_component(&world, entity(1), position()), None);
}

#[test]
fn components_are_read_back_after_migration() {
    let mut world = create_world();
    let e0 = add_entity(&mut world);
    let e1 = add_entity(&mut world);
    let e2 = add_entity(&mut world);
    assert_eq!(add_component(&mut world, e0, position(), &[1, 2, 3, 4]), Ok(()));
    assert_eq!(add_component(&mut world, e1, position(), &[5, 6, 7, 8]), Ok(()));
    assert_eq!(add_component(&mut world, e2, position(), &[9, 10, 11, 12]), Ok(()));
    assert_eq!(add_component(&mut world, e0, velocity(), &[21, 22]), Ok(()));
    assert_eq!(add_component(&mut world, e2, velocity(), &[23, 24]), Ok(()));
    assert_eq!(get_component(&world, e0, position()), Some(&[1u8, 2, 3, 4][..]));
    assert_eq!(get_component(&world, e1, position()), Some(&[5u8, 6, 7, 8][..]));
    assert_eq!(get_component(&world, e2, position()), Some(&[9u8, 10, 11, 12][..]));
    assert_eq!(get_component(&world, e0, velocity()), Some(&[21u8, 22][..]));
    assert_eq!(get_component(&world, e1, velocity()), None);
    assert_eq!(get_component(&world, e2, velocity()), Some(&[23u8, 24][..]));
}

#[test]
fn a_query_yields_the_entities_that_hold_every_type() {
    let mut world = create_world();
    let e0 = add_entity(&mut world);
    let e1 = add_entity(&mut world);
    let e2 = add_entity(&mut world);
    for (entity, bytes) in [(e0, [1u8, 1]), (e1, [2, 2]), (e2, [3, 3])] {
        assert!(add_component(&mut world, entity, position(), &bytes).is_ok());
    }
    assert!(add_component(&mut world, e0, velocity(), &[10]).is_ok());
    assert!(add_component(&mut world, e2, velocity(), &[30]).is_ok());
    let with_position = query(&world, vec![position()]);
    assert_eq!(with_position.len(), 3);
    for entity in [e0, e1, e2] {
        assert_eq!(with_position.iter().filter(|found| **found == entity).count(), 1);
    }
    assert_eq!(query(&world, vec![position(), velocity()]), vec![e0, e2]);
    assert_eq!(query(&world, vec![velocity()]), vec![e0, e2]);
    assert_eq!(query(&world, vec![component_type_id(3, "Health")]), vec![]);
    // each row gives the values that were assigned last
    let mut iterator = iterate_query(&world, vec![position(), velocity()]);
    let mut rows = Vec::new();
    while let Some(row) = iterator.next() {
        rows.push((
            row.entity,
            gol::ecs::components::fetch(row.chunk, position(), row.component_index).to_vec(),
            gol::ecs::components::fetch(row.chunk, velocity(), row.component_index).to_vec(),
        ));
    }
    assert_eq!(rows, vec![(e0, vec![1, 1], vec![10]), (e2, vec![3, 3], vec![30])]);
    assert!(iterator.next().is_none());
}

#[test]
fn a_query_walks_the_archetypes_in_the_order_of_their_creation() {
    let mut world = create_world();
    let e0 = add_entity(&mut world);
    let e1 = add_entity(&mut world);
    let e2 = add_entity(&mut world);
    assert!(add_component(&mut world, e0, velocity(), &[1]).is_ok());
    assert!(add_component(&mut world, e1, position(), &[2]).is_ok());
    assert!(add_component(&mut world, e0, position(), &[3]).is_ok());
    assert!(add_component(&mut world, e2, velocity(), &[4]).is_ok());
    // archetypes: {velocity}, {position}, {velocity, position}
    assert_eq!(query(&world, vec![position()]), vec![e1, e0]);
    assert_eq!(query(&world, vec![velocity()]), vec![e2, e0]);
    assert_eq!(query(&world, vec![]), vec![e2, e1, e0]);
}

#[test]
fn the_last_entity_of_an_archetype_fills_the_slot_of_one_that_leaves() {
    let mut world = create_world();
    let e0 = add_entity(&mut world);
    let e1 = add_entity(&mut world);
    let e2 = add_entity(&mut world);
    assert!(add_component(&mut world, e0, position(), &[1, 1]).is_ok());
    assert!(add_component(&mut world, e1, position(), &[2, 2]).is_ok());
    assert!(add_component(&mut world, e2, position(), &[3, 3]).is_ok());
    assert_eq!(location(&world, e0), Some((0, 0, 0)));
    assert_eq!(location(&world, e1), Some((0, 0, 1)));
    assert_eq!(location(&world, e2), Some((0, 0, 2)));
    assert!(add_component(&mut world, e0, velocity(), &[9]).is_ok());
    // e0 went to the new archetype; e2, the last of the old one, took its slot
    assert_eq!(location(&world, e0), Some((1, 0, 0)));
    assert_eq!(location(&world, e1), Some((0, 0, 1)));
    assert_eq!(location(&world, e2), Some((0, 0, 0)));
    assert_eq!(get_component(&world, e0, position()), Some(&[1u8, 1][..]));
    assert_eq!(get_component(&world, e0, velocity()), Some(&[9u8][..]));
    assert_eq!(get_component(&world, e1, position()), Some(&[2u8, 2][..]));
    assert_eq!(get_component(&world, e2, position()), Some(&[3u8, 3][..]));
    let old = get_archetype(world.archetypes(), ArchetypeIndex(0));
    let chunk = get_chunk(old.chunks(), ChunkIndex(0));
    assert_eq!(chunk.current_component_index(), ComponentIndex(1));
    assert_eq!(chunk.occupant(ComponentIndex(0)), e2);
    assert_eq!(chunk.occupant(ComponentIndex(1)), e1);
    // the last entity itself leaves without moving anybody
    assert!(add_component(&mut world, e1, velocity(), &[8]).is_ok());
    assert_eq!(location(&world, e1), Some((1, 0, 1)));
    assert_eq!(location(&world, e2), Some((0, 0, 0)));
    assert_eq!(get_component(&world, e2, position()), Some(&[3u8, 3][..]));
    assert_eq!(get_component(&world, e1, position()), Some(&[2u8, 2][..]));
}

#[test]
fn archetypes_stay_dense_across_chunks() {
    // three entities fit in a chunk of positions
    let size = 5000;
    let mut world = create_world();
    let mut all = Vec::new();
    for number in 0..8u8 {
        let entity = add_entity(&mut world);
        assert!(add_component(&mut world, entity, position(), &vec![number; size]).is_ok());
        all.push(entity);
    }
    {
        let archetype = get_archetype(world.archetypes(), ArchetypeIndex(0));
        assert_eq!(archetype.chunks().len(), 3);
        assert_eq!(get_chunk(archetype.chunks(), ChunkIndex(0)).current_component_index().0, 2);
        assert_eq!(get_chunk(archetype.chunks(), ChunkIndex(1)).current_component_index().0, 2);
        // 8 mod 3 entities in the last chunk
        assert_eq!(get_chunk(archetype.chunks(), ChunkIndex(2)).current_component_index().0, 1);
    }
    // entity 1 leaves the first chunk: entity 7 comes over from the last chunk
    assert!(add_component(&mut world, all[1], velocity(), &[7]).is_ok());
    assert_eq!(location(&world, all[7]), Some((0, 0, 1)));
    assert_eq!(location(&world, all[1]), Some((1, 0, 0)));
    assert_eq!(get_component(&world, all[7], position()), Some(&vec![7u8; size][..]));
    assert_eq!(get_component(&world, all[1], position()), Some(&vec![1u8; size][..]));
    // entity 0 leaves: entity 6, alone in the last chunk, comes over and the chunk is pooled
    assert!(add_component(&mut world, all[0], velocity(), &[6]).is_ok());
    assert_eq!(location(&world, all[6]), Some((0, 0, 0)));
    let archetype = get_archetype(world.archetypes(), ArchetypeIndex(0));
    assert_eq!(archetype.chunks().len(), 2);
    assert_eq!(get_chunk(archetype.chunks(), ChunkIndex(1)).current_component_index().0, 2);
    assert_eq!(world.archetypes().chunk_pool().len(), 1);
    for (number, entity) in all.iter().enumerate() {
        assert_eq!(get_component(&world, *entity, position()), Some(&vec![number as u8; size][..]));
    }
    assert_eq!(get_component(&world, all[0], velocity()), Some(&[6u8][..]));
    assert_eq!(query(&world, vec![position()]).len(), 8);
    assert_eq!(query(&world, vec![velocity()]), vec![all[1], all[0]]);
}

#[test]
fn an_entity_joins_the_archetype_of_its_component_set_whatever_the_order() {
    let mut world = create_world();
    let e0 = add_entity(&mut world);
    let e1 = add_entity(&mut world);
    assert!(add_component(&mut world, e0, position(), &[1, 2]).is_ok());
    assert!(add_component(&mut world, e0, velocity(), &[3]).is_ok());
    assert!(add_component(&mut world, e1, velocity(), &[4]).is_ok());
    assert!(add_component(&mut world, e1, position(), &[5, 6]).is_ok());
    // {position}, {position, velocity}, {velocity}: no fourth archetype
    assert_eq!(world.archetypes().len(), 3);
    assert_eq!(location(&world, e0), Some((1, 0, 0)));
    assert_eq!(location(&world, e1), Some((1, 0, 1)));
    assert_eq!(get_component(&world, e1, position()), Some(&[5u8, 6][..]));
    assert_eq!(get_component(&world, e1, velocity()), Some(&[4u8][..]));
    assert_eq!(get_component(&world, e0, position()), Some(&[1u8, 2][..]));
    assert_eq!(get_component(&world, e0, velocity()), Some(&[3u8][..]));
    let expected = EntityLocation {
        archetype_index: ArchetypeIndex(1),
        location_in_archetype: ArchetypeEntityLocation {
            chunk: ChunkIndex(0),
            component: ComponentIndex(1),
        },
    };
    assert_eq!(get_entity_location(world.entities().location_map(), e1), Some(expected));
}

#[test]
fn add_component_rejects_what_it_cannot_store() {
    let marker = component_type_id(3, "Marker");
    let huge = component_type_id(4, "Huge");
    let mut world = create_world();
    let e0 = add_entity(&mut world);
    assert_eq!(
        add_component(&mut world, entity(7), position(), &[1]),
        Err(AddComponentError::NoSuchEntity)
    );
    assert_eq!(add_component(&mut world, e0, marker, &[]), Err(AddComponentError::NothingToStore));
    assert_eq!(
        add_component(&mut world, e0, huge, &vec![0u8; CHUNK_SIZE + 1]),
        Err(AddComponentError::TooLarge)
    );
    assert_eq!(world.archetypes().len(), 0);
    assert_eq!(add_component(&mut world, e0, position(), &[1, 2]), Ok(()));
    assert_eq!(
        add_component(&mut world, e0, position(), &[3, 4]),
        Err(AddComponentError::AlreadyPresent)
    );
    let e1 = add_entity(&mut world);
    assert_eq!(
        add_component(&mut world, e1, position(), &[1, 2, 3]),
        Err(AddComponentError::SizeMismatch)
    );
    assert_eq!(
        add_component(&mut world, e0, huge, &vec![0u8; CHUNK_SIZE - 1]),
        Err(AddComponentError::TooLarge)
    );
    // nothing has changed
    assert_eq!(get_component(&world, e0, position()), Some(&[1u8, 2][..]));
    assert_eq!(location(&world, e0), Some((0, 0, 0)));
    assert_eq!(location(&world, e1), None);
    assert_eq!(world.archetypes().len(), 1);
    // a component that fills the chunk exactly is accepted, and so is an empty one beside others
    assert_eq!(add_component(&mut world, e0, huge, &vec![7u8; CHUNK_SIZE - 2]), Ok(()));
    assert_eq!(add_component(&mut world, e0, marker, &[]), Ok(()));
    assert_eq!(get_component(&world, e0, marker), Some(&[][..]));
    assert_eq!(get_component(&world, e0, huge), Some(&vec![7u8; CHUNK_SIZE - 2][..]));
    assert_eq!(get_component(&world, e0, position()), Some(&[1u8, 2][..]));
}

#[test]
fn a_storage_is_made_once_for_each_type() {
    let mut world = create_world();
    let e0 = add_entity(&mut world);
    let e1 = add_entity(&mut world);
    assert!(add_component(&mut world, e0, position(), &[1, 2]).is_ok());
    assert!(add_component(&mut world, e1, component_type_id(1, "Place"), &[3, 4]).is_ok());
    let storage = get_component_storage(world.component_storages(), position());
    assert_eq!(storage.size, 2);
    assert_eq!(storage.component_type_id.name(), "Position");
}

#[test]
fn a_chunk_that_was_given_up_is_used_again() {
    // two entities fit in a chunk of positions
    let mut world = create_world();
    let e0 = add_entity(&mut world);
    let e1 = add_entity(&mut world);
    let e2 = add_entity(&mut world);
    for (number, entity) in [e0, e1, e2].into_iter().enumerate() {
        assert!(add_component(&mut world, entity, position(), &vec![number as u8; 8000]).is_ok());
    }
    assert_eq!(get_archetype(world.archetypes(), ArchetypeIndex(0)).chunks().len(), 2);
    assert_eq!(world.archetypes().chunk_pool().len(), 0);
    // e2 leaves its chunk empty: the chunk goes to the pool after the new archetype took a new one
    assert!(add_component(&mut world, e2, velocity(), &[1]).is_ok());
    assert_eq!(get_archetype(world.archetypes(), ArchetypeIndex(0)).chunks().len(), 1);
    assert_eq!(world.archetypes().chunk_pool().len(), 1);
    // the next archetype takes the pooled chunk
    let health = component_type_id(3, "Health");
    assert!(add_component(&mut world, e0, health, &[2]).is_ok());
    assert_eq!(world.archetypes().chunk_pool().len(), 0);
    assert_eq!(get_component(&world, e0, position()), Some(&vec![0u8; 8000][..]));
    assert_eq!(get_component(&world, e1, position()), Some(&vec![1u8; 8000][..]));
    assert_eq!(get_component(&world, e2, position()), Some(&vec![2u8; 8000][..]));
    assert_eq!(get_component(&world, e0, health), Some(&[2u8][..]));
    assert_eq!(get_component(&world, e2, velocity()), Some(&[1u8][..]));
    assert_eq!(location(&world, e1), Some((0, 0, 0)));
}

#[test]
fn a_component_is_found_at_the_recorded_location() {
    let mut world = create_world();
    let e0 = add_entity(&mut world);
    let e1 = add_entity(&mut world);
    assert!(add_component(&mut world, e0, position(), &[1, 2]).is_ok());
    assert!(add_component(&mut world, e1, position(), &[3, 4]).is_ok());
    assert!(add_component(&mut world, e0, velocity(), &[5]).is_ok());
    for (entity, expected) in [(e0, [1u8, 2]), (e1, [3, 4])] {
        let recorded = get_entity_location(world.entities().location_map(), entity).unwrap();
        let archetype = get_archetype(world.archetypes(), recorded.archetype_index);
        let chunk = get_chunk(archetype.chunks(), recorded.location_in_archetype.chunk);
        assert_eq!(chunk.occupant(recorded.location_in_archetype.component), entity);
        assert_eq!(
            gol::ecs::components::fetch(chunk, position(), recorded.location_in_archetype.component),
            &expected[..]
        );
    }
}
