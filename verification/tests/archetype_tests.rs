use gol::ecs::archetypes::{
    append_archetype, archetype_component_search_index, archetypes, contains_archetype,
    create_archetype, create_archetype_entity_location, create_archetype_if_non_existant,
    find_archetype, find_or_create, get_archetype, get_archetype_for_entity_location,
    get_archetype_for_layout, get_archetype_mut, get_next_index, get_or_create_archetype_mut,
    move_to_next_archetype_entity_location, move_to_previous_archetype_entity_location,
    push_layout_to_search, record_occupant, search_archetypes_for, swap_remove_occupant,
    ArchetypeEntityLocation, ArchetypeIndex,
};
use gol::ecs::components::{get_chunk, ChunkIndex};
use gol::ecs::entities::{entity, EntityLocation};
use gol::ecs::layout::{
    clone_entity_layout_and_add_component, component_type_id, create_entity_layout_from_component_and_size,
    ComponentIndex, ComponentTypeId, EntityLayout,
};
use gol::ecs::querying::any_component_filter;

fn position() -> ComponentTypeId {
    component_type_id(1, "Position")
}

fn velocity() -> ComponentTypeId {
    component_type_id(2, "Velocity")
}

fn health() -> ComponentTypeId {
    component_type_id(3, "Health")
}

fn layout_of(types: &[(ComponentTypeId, usize)]) -> EntityLayout {
    let mut layout = create_entity_layout_from_component_and_size(types[0].0, types[0].1);
    for (component, size) in &types[1..] {
        layout = clone_entity_layout_and_add_component(&layout, *component, *size);
    }
    layout
}

#[test]
fn find_or_create_is_idempotent() {
    let mut registry = archetypes();
    let layout = layout_of(&[(position(), 8), (velocity(), 4)]);
    let first = find_or_create(&mut registry, &layout);
    let second = find_or_create(&mut registry, &layout);
    assert_eq!(first, ArchetypeIndex(0));
    assert_eq!(second, first);
    assert_eq!(registry.len(), 1);
}

#[test]
fn find_or_create_ignores_the_order_of_the_types() {
    let mut registry = archetypes();
    let only_position = layout_of(&[(position(), 8)]);
    let one_way = layout_of(&[(position(), 8), (velocity(), 4)]);
    let other_way = layout_of(&[(velocity(), 4), (position(), 8)]);
    assert_eq!(find_or_create(&mut registry, &only_position), ArchetypeIndex(0));
    assert_eq!(find_or_create(&mut registry, &one_way), ArchetypeIndex(1));
    assert_eq!(find_or_create(&mut registry, &other_way), ArchetypeIndex(1));
    assert_eq!(registry.len(), 2);
    // the columns stay in the order in which the archetype was made
    let archetype = get_archetype(&registry, ArchetypeIndex(1));
    assert!(archetype.layout().component_at(0) == position());
    assert!(archetype.layout().component_at(1) == velocity());
    assert_eq!(usize::from(archetype.index()), 1);
}

#[test]
fn archetypes_are_found_by_their_component_set() {
    let mut registry = archetypes();
    let layout = layout_of(&[(position(), 8), (velocity(), 4)]);
    assert!(!contains_archetype(&registry, &layout));
    assert!(find_archetype(&registry, &layout).is_none());
    assert!(get_archetype_for_layout(&registry, &layout).is_none());
    assert_eq!(get_next_index(&registry), ArchetypeIndex(0));
    create_archetype_if_non_existant(&mut registry, &layout);
    assert!(contains_archetype(&registry, &layout));
    assert_eq!(find_archetype(&registry, &layout), Some(ArchetypeIndex(0)));
    assert_eq!(get_archetype_for_layout(&registry, &layout).unwrap().index(), ArchetypeIndex(0));
    assert_eq!(get_next_index(&registry), ArchetypeIndex(1));
    // a subset or a superset is another archetype
    assert!(!contains_archetype(&registry, &layout_of(&[(position(), 8)])));
    assert!(!contains_archetype(
        &registry,
        &layout_of(&[(position(), 8), (velocity(), 4), (health(), 1)])
    ));
    let made = get_or_create_archetype_mut(&mut registry, &layout_of(&[(health(), 1)]));
    assert_eq!(made.index(), ArchetypeIndex(1));
    let found = get_or_create_archetype_mut(&mut registry, &layout_of(&[(velocity(), 4), (position(), 8)]));
    assert_eq!(found.index(), ArchetypeIndex(0));
    assert_eq!(registry.len(), 2);
    let location = EntityLocation {
        archetype_index: ArchetypeIndex(1),
        location_in_archetype: create_archetype_entity_location(ChunkIndex(0), ComponentIndex(0)),
    };
    assert_eq!(get_archetype_for_entity_location(&registry, location).index(), ArchetypeIndex(1));
    assert_eq!(get_archetype_mut(&mut registry, ArchetypeIndex(0)).layout().len(), 2);
}

#[test]
fn the_search_index_is_searched_with_a_filter_from_a_position() {
    let mut index = archetype_component_search_index();
    push_layout_to_search(&mut index, &layout_of(&[(position(), 8)]));
    push_layout_to_search(&mut index, &layout_of(&[(position(), 8), (velocity(), 4)]));
    push_layout_to_search(&mut index, &layout_of(&[(velocity(), 4)]));
    push_layout_to_search(&mut index, &layout_of(&[(velocity(), 4), (health(), 1), (position(), 8)]));
    assert_eq!(index.len(), 4);
    let with_position = any_component_filter(vec![position()]);
    assert_eq!(
        search_archetypes_for(&index, &with_position, 0),
        vec![ArchetypeIndex(0), ArchetypeIndex(1), ArchetypeIndex(3)]
    );
    assert_eq!(
        search_archetypes_for(&index, &with_position, 1),
        vec![ArchetypeIndex(1), ArchetypeIndex(3)]
    );
    assert_eq!(search_archetypes_for(&index, &with_position, 4), vec![]);
    assert_eq!(search_archetypes_for(&index, &with_position, 9), vec![]);
    let both = any_component_filter(vec![velocity(), position()]);
    assert_eq!(search_archetypes_for(&index, &both, 0), vec![ArchetypeIndex(1), ArchetypeIndex(3)]);
    let exact = layout_of(&[(velocity(), 4), (position(), 8)]);
    assert_eq!(search_archetypes_for(&index, &exact, 0), vec![ArchetypeIndex(1)]);
    let everything = any_component_filter(vec![]);
    assert_eq!(search_archetypes_for(&index, &everything, 0).len(), 4);
}

#[test]
fn appending_an_archetype_gives_it_the_next_position() {
    let mut registry = archetypes();
    append_archetype(&mut registry, create_archetype(layout_of(&[(position(), 8)]), ArchetypeIndex(0)));
    assert_eq!(registry.len(), 1);
    assert_eq!(get_archetype(&registry, ArchetypeIndex(0)).chunks().len(), 0);
    assert_eq!(registry.search_index().len(), 0);
}

#[test]
fn slots_are_reserved_one_after_another_and_chunk_after_chunk() {
    // two entities fit in a chunk
    let layout = layout_of(&[(position(), 8000)]);
    let mut registry = archetypes();
    let index = find_or_create(&mut registry, &layout);
    let mut reserved = Vec::new();
    for _ in 0..5 {
        let location = move_to_next_archetype_entity_location(&mut registry, &layout);
        reserved.push((location.chunk.0, location.component.0));
    }
    assert_eq!(reserved, vec![(0, 0), (0, 1), (1, 0), (1, 1), (2, 0)]);
    let archetype = get_archetype(&registry, index);
    assert_eq!(archetype.chunks().len(), 3);
    // every chunk but the last is full; the last holds 5 mod 2 entities
    assert_eq!(get_chunk(archetype.chunks(), ChunkIndex(0)).current_component_index(), ComponentIndex(1));
    assert_eq!(get_chunk(archetype.chunks(), ChunkIndex(1)).current_component_index(), ComponentIndex(1));
    assert_eq!(get_chunk(archetype.chunks(), ChunkIndex(2)).current_component_index(), ComponentIndex(0));
    assert_eq!(get_chunk(archetype.chunks(), ChunkIndex(2)).chunk_index(), ChunkIndex(2));
}

#[test]
fn released_slots_shrink_the_archetype_and_feed_the_pool() {
    let layout = layout_of(&[(position(), 8000)]);
    let mut registry = archetypes();
    let index = find_or_create(&mut registry, &layout);
    for _ in 0..3 {
        move_to_next_archetype_entity_location(&mut registry, &layout);
    }
    assert_eq!(get_archetype(&registry, index).chunks().len(), 2);
    assert_eq!(registry.chunk_pool().len(), 0);
    // the third entity was alone in its chunk: the chunk goes to the pool
    move_to_previous_archetype_entity_location(&mut registry, index);
    assert_eq!(get_archetype(&registry, index).chunks().len(), 1);
    assert_eq!(registry.chunk_pool().len(), 1);
    // the second entity shared its chunk: only the cursor moves
    move_to_previous_archetype_entity_location(&mut registry, index);
    assert_eq!(get_archetype(&registry, index).chunks().len(), 1);
    assert_eq!(
        get_chunk(get_archetype(&registry, index).chunks(), ChunkIndex(0)).current_component_index(),
        ComponentIndex(0)
    );
    move_to_previous_archetype_entity_location(&mut registry, index);
    assert_eq!(get_archetype(&registry, index).chunks().len(), 0);
    assert_eq!(registry.chunk_pool().len(), 2);
    // the next chunk comes from the pool, for whatever archetype
    let other = layout_of(&[(velocity(), 4)]);
    let other_index = find_or_create(&mut registry, &other);
    let location = move_to_next_archetype_entity_location(&mut registry, &other);
    assert_eq!(location, ArchetypeEntityLocation { chunk: ChunkIndex(0), component: ComponentIndex(0) });
    assert_eq!(registry.chunk_pool().len(), 1);
    let chunk = get_chunk(get_archetype(&registry, other_index).chunks(), ChunkIndex(0));
    assert_eq!(chunk.chunk_layout().slots(), 4096);
}

#[test]
fn the_last_occupant_takes_the_place_of_the_one_that_leaves() {
    let layout = layout_of(&[(position(), 8000)]);
    let mut registry = archetypes();
    let index = find_or_create(&mut registry, &layout);
    for number in 0..3 {
        let location = move_to_next_archetype_entity_location(&mut registry, &layout);
        record_occupant(&mut registry, index, location.chunk, entity(10 + number));
    }
    let first = ArchetypeEntityLocation { chunk: ChunkIndex(0), component: ComponentIndex(0) };
    let moved = swap_remove_occupant(&mut registry, index, first);
    assert_eq!(moved, entity(12));
    move_to_previous_archetype_entity_location(&mut registry, index);
    let chunk = get_chunk(get_archetype(&registry, index).chunks(), ChunkIndex(0));
    assert_eq!(chunk.occupant(ComponentIndex(0)), entity(12));
    assert_eq!(chunk.occupant(ComponentIndex(1)), entity(11));
    // taking the last occupant out moves nobody
    let last = ArchetypeEntityLocation { chunk: ChunkIndex(0), component: ComponentIndex(1) };
    assert_eq!(swap_remove_occupant(&mut registry, index, last), entity(11));
    move_to_previous_archetype_entity_location(&mut registry, index);
    let chunk = get_chunk(get_archetype(&registry, index).chunks(), ChunkIndex(0));
    assert_eq!(chunk.occupant(ComponentIndex(0)), entity(12));
    assert_eq!(chunk.current_component_index(), ComponentIndex(0));
}
