use gol::ecs::archetypes::ArchetypeEntityLocation;
use gol::ecs::components::{
    add_chunk, allocate_chunk_storage, are_chunks_full, chunk_storage_from, component_chunk,
    copy_component_from_chunk_storage, create_component_chunks, current_chunk_index, fetch,
    get_chunk, get_chunk_mut, get_component_from_chunk_storage, is_chunk_full, next_chunk_index,
    pool_chunk_storage, recycle_chunk, remove_last_chunk, stock_chunk_pool,
    store_component_at_location, store_component_in_chunk, store_component_in_chunk_at_offset,
    swap_read_component_in_chunk_storage, try_allocate_chunk_storage, ChunkIndex,
    ComponentChunkPool,
};
use gol::ecs::layout::{
    clone_entity_layout_and_add_component, component_type_id, create_entity_layout_from_component_and_size,
    deduce_chunk_layout, ComponentIndex, EntityLayout, CHUNK_SIZE,
};

fn position_velocity() -> EntityLayout {
    let position = component_type_id(1, "Position");
    let velocity = component_type_id(2, "Velocity");
    let layout = create_entity_layout_from_component_and_size(position, 4);
    clone_entity_layout_and_add_component(&layout, velocity, 2)
}

#[test]
fn new_storage_is_one_chunk_of_zeros() {
    let storage = allocate_chunk_storage();
    assert_eq!(storage.len(), CHUNK_SIZE);
    assert!(storage.iter().all(|byte| *byte == 0));
}

#[test]
fn a_new_chunk_has_its_first_slot_occupied() {
    let mut pool = ComponentChunkPool::default();
    let chunk = component_chunk(&mut pool, ChunkIndex(3), deduce_chunk_layout(&position_velocity()));
    assert_eq!(chunk.chunk_index(), ChunkIndex(3));
    assert_eq!(chunk.current_component_index(), ComponentIndex(0));
    assert_eq!(chunk.chunk_layout().slots(), 2730);
    assert!(!is_chunk_full(&chunk));
    assert_eq!(pool.len(), 0);
}

#[test]
fn a_chunk_with_one_slot_is_full_at_once() {
    let big = component_type_id(9, "Big");
    let layout = create_entity_layout_from_component_and_size(big, CHUNK_SIZE);
    let mut pool = ComponentChunkPool::default();
    let chunk = component_chunk(&mut pool, ChunkIndex(0), deduce_chunk_layout(&layout));
    assert!(is_chunk_full(&chunk));
}

#[test]
fn raw_bytes_are_written_and_read_at_an_offset() {
    let mut pool = ComponentChunkPool::default();
    let mut chunk =
        component_chunk(&mut pool, ChunkIndex(0), deduce_chunk_layout(&position_velocity()));
    store_component_in_chunk_at_offset(&mut chunk, 10, &[1, 2, 3]);
    assert_eq!(get_component_from_chunk_storage(&chunk, 9, 5), &[0u8, 1, 2, 3, 0][..]);
    assert_eq!(copy_component_from_chunk_storage(&chunk, 11, 2), vec![2u8, 3]);
    store_component_in_chunk_at_offset(&mut chunk, CHUNK_SIZE - 1, &[9]);
    assert_eq!(get_component_from_chunk_storage(&chunk, CHUNK_SIZE - 1, 1), &[9u8][..]);
}

#[test]
fn components_are_stored_by_type_and_slot() {
    let position = component_type_id(1, "Position");
    let velocity = component_type_id(2, "Velocity");
    let mut pool = ComponentChunkPool::default();
    let mut chunk =
        component_chunk(&mut pool, ChunkIndex(0), deduce_chunk_layout(&position_velocity()));
    store_component_in_chunk(&mut chunk, position, ComponentIndex(0), &[1, 2, 3, 4]);
    store_component_in_chunk(&mut chunk, position, ComponentIndex(1), &[5, 6, 7, 8]);
    store_component_in_chunk(&mut chunk, velocity, ComponentIndex(0), &[9, 10]);
    store_component_in_chunk(&mut chunk, velocity, ComponentIndex(2729), &[11, 12]);
    assert_eq!(fetch(&chunk, position, ComponentIndex(0)), &[1u8, 2, 3, 4][..]);
    assert_eq!(fetch(&chunk, position, ComponentIndex(1)), &[5u8, 6, 7, 8][..]);
    assert_eq!(fetch(&chunk, velocity, ComponentIndex(0)), &[9u8, 10][..]);
    assert_eq!(fetch(&chunk, velocity, ComponentIndex(1)), &[0u8, 0][..]);
    assert_eq!(fetch(&chunk, velocity, ComponentIndex(2729)), &[11u8, 12][..]);
    // the position column starts the chunk, the velocity column follows its 2730 slots
    assert_eq!(get_component_from_chunk_storage(&chunk, 0, 8), &[1u8, 2, 3, 4, 5, 6, 7, 8][..]);
    assert_eq!(get_component_from_chunk_storage(&chunk, 4 * 2730, 2), &[9u8, 10][..]);
}

#[test]
fn the_pool_hands_out_the_chunk_recycled_last() {
    let position = component_type_id(1, "Position");
    let mut pool = ComponentChunkPool::default();
    let layout = create_entity_layout_from_component_and_size(position, 4);
    let mut first = component_chunk(&mut pool, ChunkIndex(0), deduce_chunk_layout(&layout));
    store_component_in_chunk(&mut first, position, ComponentIndex(0), &[1, 1, 1, 1]);
    let mut second = component_chunk(&mut pool, ChunkIndex(1), deduce_chunk_layout(&layout));
    store_component_in_chunk(&mut second, position, ComponentIndex(0), &[2, 2, 2, 2]);
    recycle_chunk(&mut pool, first);
    recycle_chunk(&mut pool, second);
    assert_eq!(pool.len(), 2);
    let again = component_chunk(&mut pool, ChunkIndex(5), deduce_chunk_layout(&position_velocity()));
    assert_eq!(pool.len(), 1);
    assert_eq!(again.chunk_index(), ChunkIndex(5));
    assert_eq!(again.current_component_index(), ComponentIndex(0));
    assert_eq!(again.chunk_layout().column_count(), 2);
    // the bytes are those of the chunk that was recycled last
    assert_eq!(get_component_from_chunk_storage(&again, 0, 4), &[2u8, 2, 2, 2][..]);
}

#[test]
fn chunk_lists_grow_and_shrink_at_the_end() {
    let mut pool = ComponentChunkPool::default();
    let mut chunks = create_component_chunks();
    assert_eq!(chunks.len(), 0);
    assert!(are_chunks_full(&chunks));
    assert_eq!(next_chunk_index(&chunks), ChunkIndex(0));
    assert!(remove_last_chunk(&mut chunks).is_none());
    let layout = position_velocity();
    add_chunk(&mut chunks, component_chunk(&mut pool, ChunkIndex(0), deduce_chunk_layout(&layout)));
    add_chunk(&mut chunks, component_chunk(&mut pool, ChunkIndex(1), deduce_chunk_layout(&layout)));
    assert_eq!(chunks.len(), 2);
    assert_eq!(current_chunk_index(&chunks), ChunkIndex(1));
    assert_eq!(next_chunk_index(&chunks), ChunkIndex(2));
    assert!(!are_chunks_full(&chunks));
    assert_eq!(get_chunk(&chunks, ChunkIndex(1)).chunk_index(), ChunkIndex(1));
    let removed = remove_last_chunk(&mut chunks).unwrap();
    assert_eq!(removed.chunk_index(), ChunkIndex(1));
    assert_eq!(chunks.len(), 1);
    assert_eq!(get_chunk_mut(&mut chunks, ChunkIndex(0)).chunk_index(), ChunkIndex(0));
}

#[test]
fn a_component_is_stored_at_a_location() {
    let position = component_type_id(1, "Position");
    let mut pool = ComponentChunkPool::default();
    let mut chunks = create_component_chunks();
    let layout = position_velocity();
    add_chunk(&mut chunks, component_chunk(&mut pool, ChunkIndex(0), deduce_chunk_layout(&layout)));
    let location = ArchetypeEntityLocation { chunk: ChunkIndex(0), component: ComponentIndex(7) };
    store_component_at_location(&mut chunks, location, position, &[4, 3, 2, 1]);
    assert_eq!(
        fetch(get_chunk(&chunks, ChunkIndex(0)), position, ComponentIndex(7)),
        &[4u8, 3, 2, 1][..]
    );
    assert_eq!(get_component_from_chunk_storage(get_chunk(&chunks, ChunkIndex(0)), 28, 4), &[4u8, 3, 2, 1][..]);
}

#[test]
fn byte_ranges_change_places() {
    let mut pool = ComponentChunkPool::default();
    let mut chunks = create_component_chunks();
    let layout = position_velocity();
    add_chunk(&mut chunks, component_chunk(&mut pool, ChunkIndex(0), deduce_chunk_layout(&layout)));
    add_chunk(&mut chunks, component_chunk(&mut pool, ChunkIndex(1), deduce_chunk_layout(&layout)));
    store_component_in_chunk_at_offset(get_chunk_mut(&mut chunks, ChunkIndex(0)), 0, &[1, 2, 3, 4]);
    store_component_in_chunk_at_offset(get_chunk_mut(&mut chunks, ChunkIndex(0)), 8, &[5, 6, 7, 8]);
    store_component_in_chunk_at_offset(get_chunk_mut(&mut chunks, ChunkIndex(1)), 4, &[9, 9, 9, 9]);
    // inside one chunk
    let read = swap_read_component_in_chunk_storage(&mut chunks, ChunkIndex(0), ChunkIndex(0), 0, 8, 4);
    assert_eq!(read, vec![1u8, 2, 3, 4]);
    assert_eq!(
        get_component_from_chunk_storage(get_chunk(&chunks, ChunkIndex(0)), 0, 12),
        &[5u8, 6, 7, 8, 0, 0, 0, 0, 1, 2, 3, 4][..]
    );
    // from one chunk to another
    let read = swap_read_component_in_chunk_storage(&mut chunks, ChunkIndex(0), ChunkIndex(1), 0, 4, 4);
    assert_eq!(read, vec![5u8, 6, 7, 8]);
    assert_eq!(get_component_from_chunk_storage(get_chunk(&chunks, ChunkIndex(0)), 0, 4), &[9u8, 9, 9, 9][..]);
    assert_eq!(get_component_from_chunk_storage(get_chunk(&chunks, ChunkIndex(1)), 4, 4), &[5u8, 6, 7, 8][..]);
    // a range with itself
    let read = swap_read_component_in_chunk_storage(&mut chunks, ChunkIndex(1), ChunkIndex(1), 4, 4, 4);
    assert_eq!(read, vec![5u8, 6, 7, 8]);
    assert_eq!(get_component_from_chunk_storage(get_chunk(&chunks, ChunkIndex(1)), 4, 4), &[5u8, 6, 7, 8][..]);
}

#[test]
fn the_slot_iterator_visits_every_occupied_slot_in_order() {
    let big = component_type_id(9, "Big");
    let layout = create_entity_layout_from_component_and_size(big, 6000);
    let mut pool = ComponentChunkPool::default();
    let mut chunks = create_component_chunks();
    add_chunk(&mut chunks, component_chunk(&mut pool, ChunkIndex(0), deduce_chunk_layout(&layout)));
    get_chunk_mut(&mut chunks, ChunkIndex(0)).chunk_layout().slots();
    add_chunk(&mut chunks, component_chunk(&mut pool, ChunkIndex(1), deduce_chunk_layout(&layout)));
    let mut iterator = chunks.component_iter();
    let mut seen = Vec::new();
    while let Some((chunk, slot)) = iterator.next() {
        seen.push((chunk.chunk_index().0, slot.0));
    }
    assert_eq!(seen, vec![(0, 0), (1, 0)]);
    assert!(iterator.next().is_none());
}

#[test]
fn a_stocked_pool_has_one_more_chunk_of_zeros() {
    let storage = try_allocate_chunk_storage().unwrap();
    assert_eq!(storage, vec![0u8; CHUNK_SIZE]);
    let mut pool = ComponentChunkPool::default();
    assert!(stock_chunk_pool(&mut pool));
    assert!(stock_chunk_pool(&mut pool));
    assert_eq!(pool.len(), 2);
    let chunk = component_chunk(&mut pool, ChunkIndex(4), deduce_chunk_layout(&position_velocity()));
    assert_eq!(pool.len(), 1);
    assert_eq!(chunk.chunk_index(), ChunkIndex(4));
    assert_eq!(chunk.chunk_layout().slots(), 2730);
    assert_eq!(get_component_from_chunk_storage(&chunk, 0, CHUNK_SIZE), &vec![0u8; CHUNK_SIZE][..]);
}

#[test]
fn reserved_storage_is_filled_with_zeros_to_the_size_of_a_chunk() {
    assert_eq!(chunk_storage_from(Vec::new(), true), Some(vec![0u8; CHUNK_SIZE]));
    assert_eq!(chunk_storage_from(Vec::new(), false), None);
    let filled = chunk_storage_from(vec![7, 8, 9], true).unwrap();
    assert_eq!(filled.len(), CHUNK_SIZE);
    assert_eq!(&filled[..4], &[7u8, 8, 9, 0][..]);
    assert_eq!(chunk_storage_from(vec![7, 8, 9], false), None);
    let cut = chunk_storage_from(vec![1u8; CHUNK_SIZE + 5], true).unwrap();
    assert_eq!(cut, vec![1u8; CHUNK_SIZE]);
}

#[test]
fn storage_goes_into_the_pool_only_if_there_is_some() {
    let mut pool = ComponentChunkPool::default();
    assert!(!pool_chunk_storage(&mut pool, None));
    assert_eq!(pool.len(), 0);
    assert!(pool_chunk_storage(&mut pool, Some(vec![3u8; CHUNK_SIZE])));
    assert!(pool_chunk_storage(&mut pool, Some(vec![4u8; CHUNK_SIZE])));
    assert_eq!(pool.len(), 2);
    // the chunk that was put in last comes out first, with its bytes
    let chunk = component_chunk(&mut pool, ChunkIndex(1), deduce_chunk_layout(&position_velocity()));
    assert_eq!(get_component_from_chunk_storage(&chunk, 0, CHUNK_SIZE), &vec![4u8; CHUNK_SIZE][..]);
    assert_eq!(chunk.chunk_index(), ChunkIndex(1));
    assert_eq!(pool.len(), 1);
}
