use gol::ecs::archetypes::{ArchetypeEntityLocation, ArchetypeIndex};
use gol::ecs::components::ChunkIndex;
use gol::ecs::entities::{
    add_entity_to_location, change_entity_location, entities, entity, entity_is_located,
    entity_location_map, get_entity_location, increment_entity_count, last_entity_index,
    EntityLocation, EntityLocationMap,
};
use gol::ecs::layout::ComponentIndex;

fn slot(chunk: usize, component: usize) -> ArchetypeEntityLocation {
    ArchetypeEntityLocation { chunk: ChunkIndex(chunk), component: ComponentIndex(component) }
}

fn map_of(count: usize) -> EntityLocationMap {
    let mut all = entities();
    for _ in 0..count {
        increment_entity_count(&mut all);
    }
    all.into_location_map()
}

#[test]
fn entities_are_numbered_from_zero() {
    let mut all = entities();
    assert_eq!(all.count(), 0);
    increment_entity_count(&mut all);
    assert_eq!(last_entity_index(&all), 0);
    increment_entity_count(&mut all);
    increment_entity_count(&mut all);
    assert_eq!(last_entity_index(&all), 2);
    assert_eq!(all.count(), 3);
    assert_eq!(all.location_map().len(), 3);
    assert_eq!(entity(2).index, 2);
}

#[test]
fn a_new_entity_has_no_location() {
    let map = map_of(1);
    assert!(!entity_is_located(&map, entity(0)));
    assert_eq!(get_entity_location(&map, entity(0)), None);
    // nor has an entity that was never created
    assert!(!entity_is_located(&map, entity(5)));
    assert_eq!(get_entity_location(&map, entity(5)), None);
    assert_eq!(entity_location_map().len(), 0);
}

#[test]
fn locations_are_recorded_and_replaced() {
    let mut map = map_of(2);
    // the later entity may be located first: each entity has its own entry
    add_entity_to_location(&mut map, entity(1), ArchetypeIndex(4), slot(2, 3));
    assert!(entity_is_located(&map, entity(1)));
    assert!(!entity_is_located(&map, entity(0)));
    assert_eq!(
        get_entity_location(&map, entity(1)),
        Some(EntityLocation { archetype_index: ArchetypeIndex(4), location_in_archetype: slot(2, 3) })
    );
    change_entity_location(&mut map, entity(1), ArchetypeIndex(5), slot(0, 1));
    assert_eq!(
        get_entity_location(&map, entity(1)),
        Some(EntityLocation { archetype_index: ArchetypeIndex(5), location_in_archetype: slot(0, 1) })
    );
    add_entity_to_location(&mut map, entity(0), ArchetypeIndex(4), slot(0, 0));
    assert_eq!(
        get_entity_location(&map, entity(0)),
        Some(EntityLocation { archetype_index: ArchetypeIndex(4), location_in_archetype: slot(0, 0) })
    );
    assert_eq!(map.len(), 2);
}
