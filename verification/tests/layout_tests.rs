use gol::ecs::layout::{
    clone_entity_layout_and_add_component, component_chunk_layout, component_chunk_layout_stream,
    component_type_id, copy_layout_components, create_entity_layout_from_component_and_size,
    deduce_chunk_layout, deduce_component_chunk_layout_stream,
    deduce_component_chunk_layout_streams, get_chunk_stream_for_component,
    get_chunk_stream_offset_for_component, get_layout_size, get_offset_in_chunk_stream,
    ComponentIndex, CHUNK_SIZE,
};

#[test]
fn component_types_are_equal_when_their_tokens_are() {
    let a = component_type_id(7, "Position");
    let b = component_type_id(7, "position again");
    let c = component_type_id(8, "Position");
    assert!(a == b);
    assert!(a != c);
    assert_eq!(a.type_id(), 7);
    assert_eq!(a.name(), "Position");
}

#[test]
fn single_component_layout_has_its_size() {
    let position = component_type_id(1, "Position");
    let layout = create_entity_layout_from_component_and_size(position, 8);
    assert_eq!(layout.len(), 1);
    assert_eq!(get_layout_size(&layout), 8);
    assert!(layout.contains(position));
    assert_eq!(layout.size_at(0), 8);
    assert!(layout.component_at(0) == position);
}

#[test]
fn adding_a_component_appends_a_column() {
    let position = component_type_id(1, "Position");
    let velocity = component_type_id(2, "Velocity");
    let first = create_entity_layout_from_component_and_size(position, 8);
    let second = clone_entity_layout_and_add_component(&first, velocity, 4);
    assert_eq!(first.len(), 1);
    assert_eq!(second.len(), 2);
    assert_eq!(get_layout_size(&second), 12);
    assert!(second.component_at(0) == position);
    assert!(second.component_at(1) == velocity);
    assert_eq!(second.size_at(1), 4);
    assert!(!first.contains(velocity));
    let copy = copy_layout_components(&second);
    assert_eq!(copy.len(), 2);
    assert!(copy[0] == position && copy[1] == velocity);
    let clone = second.clone();
    assert_eq!(clone.len(), 2);
    assert_eq!(get_layout_size(&clone), 12);
}

#[test]
fn chunk_layout_is_columnar() {
    let position = component_type_id(1, "Position");
    let velocity = component_type_id(2, "Velocity");
    let health = component_type_id(3, "Health");
    let layout = create_entity_layout_from_component_and_size(position, 8);
    let layout = clone_entity_layout_and_add_component(&layout, velocity, 4);
    let layout = clone_entity_layout_and_add_component(&layout, health, 1);
    let chunk_layout = deduce_chunk_layout(&layout);
    // 16384 / 13
    assert_eq!(chunk_layout.slots(), 1260);
    assert_eq!(chunk_layout.column_count(), 3);
    assert_eq!(chunk_layout.stream(0).offset, 0);
    assert_eq!(chunk_layout.stream(0).stride, 8);
    assert_eq!(chunk_layout.stream(1).offset, 8 * 1260);
    assert_eq!(chunk_layout.stream(1).stride, 4);
    assert_eq!(chunk_layout.stream(2).offset, 12 * 1260);
    assert_eq!(chunk_layout.stream(2).stride, 1);
    assert!(chunk_layout.stream(2).component_type_id == health);
    assert!(chunk_layout.stream(2).offset + 1260 <= CHUNK_SIZE);
}

#[test]
fn slot_offset_is_column_offset_plus_slot_times_stride() {
    let position = component_type_id(1, "Position");
    let velocity = component_type_id(2, "Velocity");
    let layout = create_entity_layout_from_component_and_size(position, 8);
    let layout = clone_entity_layout_and_add_component(&layout, velocity, 4);
    let chunk_layout = deduce_chunk_layout(&layout);
    assert_eq!(chunk_layout.slots(), 1365);
    let stream = get_chunk_stream_for_component(velocity, &chunk_layout);
    assert_eq!(stream.offset, 10920);
    assert_eq!(get_offset_in_chunk_stream(stream, ComponentIndex(3)), 10932);
    assert_eq!(
        get_chunk_stream_offset_for_component(velocity, &chunk_layout, ComponentIndex(0)),
        10920
    );
    assert_eq!(
        get_chunk_stream_offset_for_component(position, &chunk_layout, ComponentIndex(5)),
        40
    );
    assert_eq!(
        get_chunk_stream_offset_for_component(velocity, &chunk_layout, ComponentIndex(1364)),
        10920 + 1364 * 4
    );
}

#[test]
fn an_entity_larger_than_a_chunk_leaves_no_slot() {
    let huge = component_type_id(9, "Huge");
    let layout = create_entity_layout_from_component_and_size(huge, CHUNK_SIZE + 1);
    let chunk_layout = deduce_chunk_layout(&layout);
    assert_eq!(chunk_layout.slots(), 0);
    assert_eq!(chunk_layout.stream(0).offset, 0);
    assert_eq!(chunk_layout.stream(0).stride, CHUNK_SIZE + 1);
}

#[test]
fn an_entity_of_a_whole_chunk_has_one_slot() {
    let big = component_type_id(9, "Big");
    let layout = create_entity_layout_from_component_and_size(big, CHUNK_SIZE);
    assert_eq!(deduce_chunk_layout(&layout).slots(), 1);
}

#[test]
fn streams_follow_one_another() {
    let a = component_type_id(1, "A");
    let b = component_type_id(2, "B");
    let layout = create_entity_layout_from_component_and_size(a, 3);
    let layout = clone_entity_layout_and_add_component(&layout, b, 5);
    let streams = deduce_component_chunk_layout_streams(&layout, 10);
    assert_eq!(streams.len(), 2);
    assert_eq!((streams[0].offset, streams[0].stride), (0, 3));
    assert_eq!((streams[1].offset, streams[1].stride), (30, 5));
    let chunk_layout = component_chunk_layout(10, streams);
    assert_eq!(chunk_layout.slots(), 10);
    let mut offset = 30;
    let stream = deduce_component_chunk_layout_stream(&mut offset, 10, b, 5);
    assert_eq!(offset, 80);
    assert_eq!(stream.offset, 30);
    let made = component_chunk_layout_stream(a, 4, 2);
    assert_eq!((made.offset, made.stride), (4, 2));
}

#[test]
fn component_index_moves_by_one() {
    let mut index = ComponentIndex(0);
    assert!(index.is_first());
    index.increment();
    assert_eq!(index, ComponentIndex(1));
    assert!(!index.is_first());
    index.decrement();
    assert!(index.is_first());
}
