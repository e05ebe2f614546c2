use gol::ecs::archetypes::{
    archetypes, find_or_create, get_archetype, get_archetype_mut,
    move_to_next_archetype_entity_location, ArchetypeEntityLocation, ArchetypeIndex,
};
use gol::ecs::components::{
    add_chunk, component_chunk, create_component_chunks, fetch, get_chunk, get_chunk_mut,
    store_component_at_location, store_component_in_chunk, ChunkIndex, ComponentChunkPool,
    ComponentChunks,
};
use gol::ecs::layout::{
    clone_entity_layout_and_add_component, component_type_id, create_entity_layout_from_component_and_size,
    deduce_chunk_layout, ComponentIndex, ComponentTypeId, EntityLayout,
};
use gol::ecs::storages::{
    component_storages, create_packed_component_storage, find_component_storage,
    get_component_storage, move_components, set_component_storage_if_not_set_already,
    UnknownComponentStorage,
};

fn position() -> ComponentTypeId {
    component_type_id(1, "Position")
}

fn velocity() -> ComponentTypeId {
    component_type_id(2, "Velocity")
}

fn health() -> ComponentTypeId {
    component_type_id(3, "Health")
}

fn position_velocity() -> EntityLayout {
    let layout = create_entity_layout_from_component_and_size(position(), 4);
    clone_entity_layout_and_add_component(&layout, velocity(), 2)
}

fn slot(chunk: usize, component: usize) -> ArchetypeEntityLocation {
    ArchetypeEntityLocation { chunk: ChunkIndex(chunk), component: ComponentIndex(component) }
}

/// Two chunks of 4000-byte positions, four slots each: the first full, the second with two
/// occupied slots, each component filled with the number of its entity.
fn two_chunks_of_positions() -> ComponentChunks {
    let layout = create_entity_layout_from_component_and_size(position(), 4000);
    let mut pool = ComponentChunkPool::default();
    let mut chunks = create_component_chunks();
    add_chunk(&mut chunks, component_chunk(&mut pool, ChunkIndex(0), deduce_chunk_layout(&layout)));
    add_chunk(&mut chunks, component_chunk(&mut pool, ChunkIndex(1), deduce_chunk_layout(&layout)));
    for _ in 0..3 {
        get_chunk_mut(&mut chunks, ChunkIndex(0)).current_component_index_mut().increment();
    }
    get_chunk_mut(&mut chunks, ChunkIndex(1)).current_component_index_mut().increment();
    let mut number = 0u8;
    for (chunk, slots) in [(0usize, 4usize), (1, 2)] {
        for component in 0..slots {
            store_component_at_location(&mut chunks, slot(chunk, component), position(), &vec![number; 4000]);
            number += 1;
        }
    }
    chunks
}

#[test]
fn the_first_storage_of_a_type_stays() {
    let mut storages = component_storages();
    assert!(find_component_storage(&storages, position()).is_none());
    set_component_storage_if_not_set_already(&mut storages, position(), 8);
    set_component_storage_if_not_set_already(&mut storages, component_type_id(1, "Place"), 12);
    set_component_storage_if_not_set_already(&mut storages, velocity(), 4);
    let storage = get_component_storage(&storages, position());
    assert_eq!(storage.size, 8);
    assert_eq!(storage.component_type_id.name(), "Position");
    assert_eq!(find_component_storage(&storages, velocity()).unwrap().size, 4);
    assert!(find_component_storage(&storages, health()).is_none());
    let made = create_packed_component_storage(health(), 1);
    assert_eq!(made.size, 1);
    assert!(made.component_type_id == health());
}

#[test]
fn a_storage_writes_the_column_of_its_type() {
    let mut pool = ComponentChunkPool::default();
    let mut chunk =
        component_chunk(&mut pool, ChunkIndex(0), deduce_chunk_layout(&position_velocity()));
    let storage = create_packed_component_storage(velocity(), 2);
    storage.add_component(&mut chunk, ComponentIndex(5), &[7, 8]);
    assert_eq!(fetch(&chunk, velocity(), ComponentIndex(5)), &[7u8, 8][..]);
    assert_eq!(fetch(&chunk, velocity(), ComponentIndex(4)), &[0u8, 0][..]);
    assert_eq!(fetch(&chunk, position(), ComponentIndex(5)), &[0u8, 0, 0, 0][..]);
}

#[test]
fn taking_a_component_out_puts_the_last_one_in_its_place() {
    let storage = create_packed_component_storage(position(), 4000);
    // the last occupied slot is slot 1 of chunk 1
    let mut chunks = two_chunks_of_positions();
    let taken = storage.swap_remove_component_in_chunk(&mut chunks, ChunkIndex(0), ComponentIndex(1));
    assert_eq!(taken, vec![1u8; 4000]);
    assert_eq!(fetch(get_chunk(&chunks, ChunkIndex(0)), position(), ComponentIndex(1)), &vec![5u8; 4000][..]);
    assert_eq!(fetch(get_chunk(&chunks, ChunkIndex(1)), position(), ComponentIndex(1)), &vec![1u8; 4000][..]);
    assert_eq!(fetch(get_chunk(&chunks, ChunkIndex(0)), position(), ComponentIndex(0)), &vec![0u8; 4000][..]);
    assert_eq!(fetch(get_chunk(&chunks, ChunkIndex(0)), position(), ComponentIndex(2)), &vec![2u8; 4000][..]);
    assert_eq!(fetch(get_chunk(&chunks, ChunkIndex(0)), position(), ComponentIndex(3)), &vec![3u8; 4000][..]);
    assert_eq!(fetch(get_chunk(&chunks, ChunkIndex(1)), position(), ComponentIndex(0)), &vec![4u8; 4000][..]);
    // taking the last one itself moves nothing
    let taken = storage.swap_remove_component_in_chunk(&mut chunks, ChunkIndex(1), ComponentIndex(1));
    assert_eq!(taken, vec![1u8; 4000]);
    assert_eq!(fetch(get_chunk(&chunks, ChunkIndex(1)), position(), ComponentIndex(1)), &vec![1u8; 4000][..]);
}

#[test]
fn a_component_moves_to_the_last_slot_of_the_target_chunk() {
    let storage = create_packed_component_storage(position(), 4000);
    let mut source = two_chunks_of_positions();
    let mut target = two_chunks_of_positions();
    storage.move_component(&mut source, ChunkIndex(0), ComponentIndex(2), &mut target, ChunkIndex(1));
    // the last occupied slot of the target chunk is slot 1
    assert_eq!(fetch(get_chunk(&target, ChunkIndex(1)), position(), ComponentIndex(1)), &vec![2u8; 4000][..]);
    assert_eq!(fetch(get_chunk(&target, ChunkIndex(1)), position(), ComponentIndex(0)), &vec![4u8; 4000][..]);
    assert_eq!(fetch(get_chunk(&target, ChunkIndex(0)), position(), ComponentIndex(2)), &vec![2u8; 4000][..]);
    assert_eq!(fetch(get_chunk(&source, ChunkIndex(0)), position(), ComponentIndex(2)), &vec![5u8; 4000][..]);
}

#[test]
fn every_component_of_an_entity_moves_to_the_target_archetype() {
    let mut storages = component_storages();
    set_component_storage_if_not_set_already(&mut storages, position(), 4);
    set_component_storage_if_not_set_already(&mut storages, velocity(), 2);
    set_component_storage_if_not_set_already(&mut storages, health(), 1);
    let source_layout = position_velocity();
    // the target has the columns in another order, and one more
    let target_layout = create_entity_layout_from_component_and_size(health(), 1);
    let target_layout = clone_entity_layout_and_add_component(&target_layout, velocity(), 2);
    let target_layout = clone_entity_layout_and_add_component(&target_layout, position(), 4);
    let mut sources = archetypes();
    let mut targets = archetypes();
    let source_index = find_or_create(&mut sources, &source_layout);
    let target_index = find_or_create(&mut targets, &target_layout);
    assert_eq!((source_index, target_index), (ArchetypeIndex(0), ArchetypeIndex(0)));
    for number in 0..3u8 {
        let location = move_to_next_archetype_entity_location(&mut sources, &source_layout);
        let chunks = get_chunk_mut_of(&mut sources, location.chunk);
        store_component_in_chunk(chunks, position(), location.component, &[number; 4]);
        let chunks = get_chunk_mut_of(&mut sources, location.chunk);
        store_component_in_chunk(chunks, velocity(), location.component, &[10 + number; 2]);
    }
    let arrived = move_to_next_archetype_entity_location(&mut targets, &target_layout);
    move_components(
        &storages,
        &source_layout,
        get_archetype_mut(&mut sources, source_index),
        slot(0, 0),
        get_archetype_mut(&mut targets, target_index),
        arrived,
    );
    let target_chunk = get_chunk(get_archetype(&targets, target_index).chunks(), ChunkIndex(0));
    assert_eq!(fetch(target_chunk, position(), ComponentIndex(0)), &[0u8; 4][..]);
    assert_eq!(fetch(target_chunk, velocity(), ComponentIndex(0)), &[10u8; 2][..]);
    assert_eq!(fetch(target_chunk, health(), ComponentIndex(0)), &[0u8][..]);
    let source_chunk = get_chunk(get_archetype(&sources, source_index).chunks(), ChunkIndex(0));
    assert_eq!(fetch(source_chunk, position(), ComponentIndex(0)), &[2u8; 4][..]);
    assert_eq!(fetch(source_chunk, velocity(), ComponentIndex(0)), &[12u8; 2][..]);
    assert_eq!(fetch(source_chunk, position(), ComponentIndex(1)), &[1u8; 4][..]);
    assert_eq!(fetch(source_chunk, velocity(), ComponentIndex(1)), &[11u8; 2][..]);
}

fn get_chunk_mut_of(
    registry: &mut gol::ecs::archetypes::Archetypes,
    chunk: ChunkIndex,
) -> &mut gol::ecs::components::ComponentChunk {
    get_chunk_mut(get_archetype_mut(registry, ArchetypeIndex(0)).chunks_mut(), chunk)
}
