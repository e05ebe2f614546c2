use gol::ecs::layout::{
    clone_entity_layout_and_add_component, component_type_id, create_entity_layout_from_component_and_size,
};
use gol::ecs::querying::{
    any_component_filter, contains_all_components, contains_component, FilterResult, LayoutFilter,
};

#[test]
fn a_filter_result_passes_when_it_matches() {
    assert!(FilterResult::Match(true).is_pass());
    assert!(!FilterResult::Match(false).is_pass());
}

#[test]
fn a_layout_matches_the_same_set_in_any_order() {
    let position = component_type_id(1, "Position");
    let velocity = component_type_id(2, "Velocity");
    let health = component_type_id(3, "Health");
    let layout = create_entity_layout_from_component_and_size(position, 8);
    let layout = clone_entity_layout_and_add_component(&layout, velocity, 4);
    assert!(layout.matches_layout(&[position, velocity]).is_pass());
    assert!(layout.matches_layout(&[velocity, position]).is_pass());
    assert!(!layout.matches_layout(&[position]).is_pass());
    assert!(!layout.matches_layout(&[position, velocity, health]).is_pass());
    assert!(!layout.matches_layout(&[position, health]).is_pass());
    assert!(!layout.matches_layout(&[]).is_pass());
}

#[test]
fn an_any_component_filter_matches_every_superset() {
    let position = component_type_id(1, "Position");
    let velocity = component_type_id(2, "Velocity");
    let health = component_type_id(3, "Health");
    let filter = any_component_filter(vec![position, velocity]);
    assert!(filter.matches_layout(&[position, velocity]).is_pass());
    assert!(filter.matches_layout(&[health, velocity, position]).is_pass());
    assert!(!filter.matches_layout(&[position]).is_pass());
    assert!(!filter.matches_layout(&[position, health]).is_pass());
    assert!(any_component_filter(vec![]).matches_layout(&[]).is_pass());
    assert!(any_component_filter(vec![]).matches_layout(&[health]).is_pass());
}

#[test]
fn components_are_looked_up_by_token() {
    let position = component_type_id(1, "Position");
    let velocity = component_type_id(2, "Velocity");
    let renamed = component_type_id(1, "Place");
    assert!(contains_component(&[velocity, position], renamed));
    assert!(!contains_component(&[velocity], position));
    assert!(!contains_component(&[], position));
    assert!(contains_all_components(&[position], &[velocity, position]));
    assert!(contains_all_components(&[], &[velocity]));
    assert!(!contains_all_components(&[position, velocity], &[velocity]));
}
