//! What the arrival of an entity in an archetype, and its departure from one,
//! do to the entities of that archetype.

use crate::ecs::archetypes::{ArchetypeEntityLocation, ArchetypeView};
use crate::ecs::components::ChunkView;
use crate::ecs::entities::Entity;
use crate::ecs::layout::{
    deduced_layout, lemma_column_of_stream, lemma_deduced_columns, lemma_deduced_layout_wf,
};
use crate::ecs::storages::{row_received, rows_swapped, swapped_source};
use vstd::prelude::*;

verus! {

/// The second archetype is the first with one more entity, in its last
/// occupied slot, with the given components. The entities that were there
/// are where they were, with the components they had.
pub open spec fn entity_added(
    before: ArchetypeView,
    after: ArchetypeView,
    entity: Entity,
    row: Map<u64, Seq<u8>>,
) -> bool {
    &&& after.layout == before.layout
    &&& after.index == before.index
    &&& after.chunks.len() > 0
    &&& !before.valid_slot(after.tail())
    &&& forall|location: ArchetypeEntityLocation| #[trigger]
        after.valid_slot(location) <==> before.valid_slot(location) || location == after.tail()
    &&& forall|location: ArchetypeEntityLocation| #[trigger]
        before.valid_slot(location) ==> after.row(location) == before.row(location)
            && after.occupant(location) == before.occupant(location)
    &&& after.row(after.tail()) == row
    &&& after.occupant(after.tail()) == entity
}

/// The second archetype is the first without the entity of the slot `gone`.
/// The entity of the last occupied slot has taken that slot, with its
/// components; every other entity is where it was, with the components it
/// had.
pub open spec fn entity_removed(
    before: ArchetypeView,
    after: ArchetypeView,
    gone: ArchetypeEntityLocation,
) -> bool {
    &&& after.layout == before.layout
    &&& after.index == before.index
    &&& forall|location: ArchetypeEntityLocation| #[trigger]
        after.valid_slot(location) <==> before.valid_slot(location) && location != before.tail()
    &&& forall|location: ArchetypeEntityLocation| #[trigger]
        after.valid_slot(location) ==> after.row(location) == before.row(
            if location == gone {
                before.tail()
            } else {
                location
            },
        ) && after.occupant(location) == before.occupant(
            if location == gone {
                before.tail()
            } else {
                location
            },
        )
}

/// The components that arrive with an entity: for the new type the new
/// component, for every other type of the layout the component of that type
/// in the given slot of the source chunk.
pub open spec fn arriving_row(
    types: Set<u64>,
    token: u64,
    component: Seq<u8>,
    source: ChunkView,
    source_slot: int,
) -> Map<u64, Seq<u8>> {
    Map::new(
        |t: u64| types.contains(t),
        |t: u64|
            if t == token {
                component
            } else {
                source.component(t, source_slot)
            },
    )
}

/// Occupying a slot, filling it with the components that were moved and the
/// new component, and recording the entity adds the entity to the archetype.
pub proof fn lemma_entity_added(
    before: ArchetypeView,
    reserved: ArchetypeView,
    moved_chunk: ChunkView,
    stored: ArchetypeView,
    after: ArchetypeView,
    bytes: Seq<u8>,
    entity: Entity,
    moved_types: Seq<u64>,
    source: ChunkView,
    source_slot: int,
    token: u64,
    component: Seq<u8>,
)
    requires
        before.wf(),
        before.tracks_occupants(),
        reserved == before.with_slot_reserved(bytes),
        reserved.wf(),
        row_received(
            reserved.chunks[reserved.tail().chunk.0 as int],
            moved_chunk,
            reserved.tail().component.0 as int,
            moved_types,
            source,
            source_slot,
        ),
        stored == (ArchetypeView {
            chunks: reserved.chunks.update(
                reserved.tail().chunk.0 as int,
                stored.chunks[reserved.tail().chunk.0 as int],
            ),
            ..reserved
        }),
        moved_chunk.same_except_cell(
            stored.chunks[reserved.tail().chunk.0 as int],
            moved_chunk.layout.column_of(token),
            reserved.tail().component.0 as int,
        ),
        stored.chunks[reserved.tail().chunk.0 as int].component(
            token,
            reserved.tail().component.0 as int,
        ) == component,
        after == stored.with_occupant_recorded(reserved.tail().chunk, entity),
        before.layout.type_set() == moved_types.to_set().insert(token),
        !moved_types.contains(token),
    ensures
        after.wf(),
        after.tracks_occupants(),
        after.tail() == reserved.tail(),
        entity_added(
            before,
            after,
            entity,
            arriving_row(before.layout.type_set(), token, component, source, source_slot),
        ),
{
    let tail = reserved.tail();
    let tc = tail.chunk.0 as int;
    let ts = tail.component.0 as int;
    let layout = deduced_layout(before.layout);
    lemma_deduced_layout_wf(before.layout);
    assert(reserved.chunks[tc].wf());
    assert(reserved.chunks[tc].layout == layout);
    let reserved_chunk = reserved.chunks[tc];
    let stored_chunk = stored.chunks[tc];
    assert(reserved_chunk.same_shape(moved_chunk));
    assert(moved_chunk.same_shape(stored_chunk));
    crate::ecs::archetypes::lemma_same_shape_wf(reserved, stored);
    crate::ecs::archetypes::lemma_same_shape_wf(stored, after);
    assert(after.tail() == tail);
    assert forall|c: int| 0 <= c < after.chunks.len() implies (
    #[trigger] after.chunks[c]).tracks_occupants() by {
        if c < before.chunks.len() {
            assert(before.chunks[c].tracks_occupants());
        }
    }
    assert forall|location: ArchetypeEntityLocation| #[trigger]
        after.valid_slot(location) <==> before.valid_slot(location) || location == after.tail() by {
        if before.valid_slot(location) {
            assert(before.chunks[location.chunk.0 as int].wf());
        }
    }
    if before.chunks.len() > 0 {
        assert(before.chunks.last().wf());
    }
    assert forall|location: ArchetypeEntityLocation| #[trigger]
        before.valid_slot(location) implies after.row(location) == before.row(location)
        && after.occupant(location) == before.occupant(location) by {
        let c = location.chunk.0 as int;
        let s = location.component.0 as int;
        assert(before.chunks[c].wf());
        assert(before.chunks[c].layout == layout);
        assert(before.chunks[c].tracks_occupants());
        assert forall|t: u64| before.layout.type_set().contains(t) implies after.chunks[c].component(
            t,
            s,
        ) == before.chunks[c].component(t, s) by {
            lemma_deduced_columns(before.layout, t);
            if c == tc {
                let k = layout.column_of(t);
                assert(moved_chunk.cell(k, s) == reserved_chunk.cell(k, s));
                assert(stored_chunk.cell(k, s) == moved_chunk.cell(k, s));
            }
        }
        assert(after.row(location) =~= before.row(location));
    }
    let row = arriving_row(before.layout.type_set(), token, component, source, source_slot);
    assert(after.row(tail) =~= row) by {
        assert forall|t: u64| before.layout.type_set().contains(t) implies after.chunks[tc].component(
            t,
            ts,
        ) == row[t] by {
            lemma_deduced_columns(before.layout, t);
            let k = layout.column_of(t);
            lemma_column_of_stream(layout, k);
            if t != token {
                assert(moved_types.to_set().insert(token).contains(t));
                assert(moved_types.contains(t));
                assert(layout.column_of(token) != k) by {
                    lemma_deduced_columns(before.layout, token);
                    assert(before.layout.type_set().contains(token));
                    lemma_column_of_stream(layout, layout.column_of(token));
                }
                assert(stored_chunk.cell(k, ts) == moved_chunk.cell(k, ts));
                assert(moved_chunk.cell(k, ts) == source.component(t, source_slot));
            }
        }
    }
}

/// Exchanging the components of a slot with those of the last occupied slot,
/// doing the same with the recorded occupants, and giving up the last
/// occupied slot removes the entity of the slot from the archetype.
pub proof fn lemma_entity_removed(
    before: ArchetypeView,
    swapped: ArchetypeView,
    unrecorded: ArchetypeView,
    after: ArchetypeView,
    gone: ArchetypeEntityLocation,
)
    requires
        before.wf(),
        before.tracks_occupants(),
        before.valid_slot(gone),
        swapped == (ArchetypeView { chunks: swapped.chunks, ..before }),
        rows_swapped(
            before.chunks,
            swapped.chunks,
            before.layout.components.len() as int,
            gone,
            before.tail(),
        ),
        unrecorded == swapped.with_occupant_removed(gone),
        after == unrecorded.with_slot_released(),
    ensures
        after.wf(),
        after.tracks_occupants(),
        entity_removed(before, after, gone),
{
    let tail = before.tail();
    let last = before.chunks.len() - 1;
    let layout = deduced_layout(before.layout);
    let count = before.layout.components.len() as int;
    lemma_deduced_layout_wf(before.layout);
    assert(before.chunks[last].wf());
    assert(before.chunks[last].tracks_occupants());
    assert(before.chunks[gone.chunk.0 as int].wf());
    assert(before.chunks[gone.chunk.0 as int].tracks_occupants());
    assert forall|c: int| 0 <= c < before.chunks.len() implies (#[trigger] before.chunks[c]).same_shape(
        swapped.chunks[c],
    ) && before.chunks[c].layout == layout && before.chunks[c].tracks_occupants()
        && before.chunks[c].wf() by {}
    crate::ecs::archetypes::lemma_same_shape_wf(before, swapped);
    crate::ecs::archetypes::lemma_same_shape_wf(swapped, unrecorded);
    crate::ecs::archetypes::lemma_released_wf(unrecorded);
    assert forall|c: int| 0 <= c < after.chunks.len() implies (
    #[trigger] after.chunks[c]).tracks_occupants() by {
        assert(before.chunks[c].same_shape(swapped.chunks[c]));
        assert(before.chunks[c].tracks_occupants());
    }
    assert forall|location: ArchetypeEntityLocation| #[trigger]
        after.valid_slot(location) <==> before.valid_slot(location) && location != tail by {
        if location.chunk.0 < before.chunks.len() {
            assert(before.chunks[location.chunk.0 as int].same_shape(
                swapped.chunks[location.chunk.0 as int],
            ));
        }
    }
    assert forall|location: ArchetypeEntityLocation| #[trigger]
        after.valid_slot(location) implies after.row(location) == before.row(
        if location == gone {
            tail
        } else {
            location
        },
    ) && after.occupant(location) == before.occupant(
        if location == gone {
            tail
        } else {
            location
        },
    ) by {
        let c = location.chunk.0 as int;
        let s = location.component.0 as int;
        let from = if location == gone {
            tail
        } else {
            location
        };
        assert(before.chunks[c].same_shape(swapped.chunks[c]));
        assert(before.chunks[c].wf());
        assert forall|t: u64| before.layout.type_set().contains(t) implies after.chunks[c].component(
            t,
            s,
        ) == before.chunks[from.chunk.0 as int].component(t, from.component.0 as int) by {
            lemma_deduced_columns(before.layout, t);
            let k = layout.column_of(t);
            assert(after.chunks[c].cell(k, s) == swapped.chunks[c].cell(k, s));
            assert(swapped.chunks[c].cell(k, s) == before.chunks[swapped_source(
                c,
                s,
                k,
                count,
                gone,
                tail,
            ).0].cell(k, swapped_source(c, s, k, count, gone, tail).1));
        }
        assert(after.row(location) =~= before.row(from));
    }
}

} // verus!
