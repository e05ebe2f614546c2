//! Per-type component storage: what moves the component of one type from a
//! slot of one archetype to a slot of another.

use crate::ecs::archetypes::{lemma_same_shape_wf, Archetype, ArchetypeEntityLocation, ArchetypeView};
use crate::ecs::components::{
    cells_swapped, chunks_wf, current_chunk_index, get_chunk, get_chunk_mut,
    lemma_swapped_ranges_cells, store_component_in_chunk, swap_read_component_in_chunk_storage,
    ChunkIndex, ChunkView, ComponentChunk, ComponentChunks,
};
use crate::ecs::layout::{
    deduced_layout, get_chunk_stream_for_component, get_chunk_stream_offset_for_component,
    lemma_cell_in_chunk, lemma_cells_disjoint, lemma_column_of_stream, lemma_deduced_columns,
    lemma_deduced_layout_wf, ComponentIndex, ComponentTypeId, EntityLayout, EntityLayoutView,
};
use std::collections::HashMap;
use vstd::prelude::*;

verus! {

/// Storage of the components of one type, packed slot after slot in the
/// column of the type.
#[derive(Clone, Copy, Debug)]
pub struct PackedComponentStorage {
    pub component_type_id: ComponentTypeId,
    pub size: usize,
}

/// The storage of the components of the given type and size.
pub fn create_packed_component_storage(component_type_id: ComponentTypeId, size: usize) -> (r:
    PackedComponentStorage)
    ensures
        r == (PackedComponentStorage { component_type_id, size }),
{
    PackedComponentStorage { component_type_id, size }
}

/// The source is a well-formed list of chunks with the given slot among its
/// slots and a column for the type.
pub open spec fn can_take_from(
    token: u64,
    source_chunks: Seq<ChunkView>,
    source_chunk_index: ChunkIndex,
    source_component_index: ComponentIndex,
) -> bool {
    &&& chunks_wf(source_chunks)
    &&& source_chunk_index.0 < source_chunks.len()
    &&& source_component_index.0 < source_chunks[0].layout.max_slots
    &&& source_chunks[0].layout.has_component(token)
}

/// The target chunk is well formed and has a column for the type, of the
/// width that the type has in the source.
pub open spec fn can_put_into(
    token: u64,
    source_chunks: Seq<ChunkView>,
    target_chunks: Seq<ChunkView>,
    target_chunk_index: ChunkIndex,
) -> bool {
    let target = target_chunks[target_chunk_index.0 as int];
    &&& target_chunk_index.0 < target_chunks.len()
    &&& target.wf()
    &&& target.layout.has_component(token)
    &&& target.layout.stride_of(token) == source_chunks[0].layout.stride_of(token)
}

/// In the source, the component of the type in the given slot and the one in
/// the last occupied slot have changed places; nothing else has changed.
pub open spec fn taken_from(
    token: u64,
    before: Seq<ChunkView>,
    after: Seq<ChunkView>,
    source_chunk_index: ChunkIndex,
    source_component_index: ComponentIndex,
) -> bool {
    cells_swapped(
        before,
        after,
        before[0].layout.column_of(token),
        source_chunk_index.0 as int,
        source_component_index.0 as int,
        before.len() - 1,
        before.last().current_component_index.0 as int,
    )
}

/// In the target, the last occupied slot of the given chunk holds the given
/// component of the type; nothing else has changed.
pub open spec fn put_into(
    token: u64,
    component: Seq<u8>,
    before: Seq<ChunkView>,
    after: Seq<ChunkView>,
    target_chunk_index: ChunkIndex,
) -> bool {
    let index = target_chunk_index.0 as int;
    &&& after == before.update(index, after[index])
    &&& before[index].same_except_cell(
        after[index],
        before[index].layout.column_of(token),
        before[index].current_component_index.0 as int,
    )
    &&& after[index].component(token, before[index].current_component_index.0 as int) == component
}

/// Storage that moves components of its type without the caller knowing the
/// type.
pub trait UnknownComponentStorage {
    /// The type whose components the storage moves.
    spec fn stored_type(&self) -> ComponentTypeId;

    /// Moves the component of the storage's type from the given slot of the
    /// source to the last occupied slot of the given target chunk. In the
    /// source, the component of the last occupied slot takes the place of the
    /// one that left.
    fn move_component(
        &self,
        source_chunks: &mut ComponentChunks,
        source_chunk_index: ChunkIndex,
        source_component_index: ComponentIndex,
        target_chunks: &mut ComponentChunks,
        target_chunk_index: ChunkIndex,
    )
        requires
            can_take_from(
                self.stored_type().token(),
                old(source_chunks)@,
                source_chunk_index,
                source_component_index,
            ),
            can_put_into(
                self.stored_type().token(),
                old(source_chunks)@,
                old(target_chunks)@,
                target_chunk_index,
            ),
        ensures
            taken_from(
                self.stored_type().token(),
                old(source_chunks)@,
                final(source_chunks)@,
                source_chunk_index,
                source_component_index,
            ),
            put_into(
                self.stored_type().token(),
                old(source_chunks)@[source_chunk_index.0 as int].component(
                    self.stored_type().token(),
                    source_component_index.0 as int,
                ),
                old(target_chunks)@,
                final(target_chunks)@,
                target_chunk_index,
            ),
    ;
}

impl PackedComponentStorage {
    /// Writes the component into the given slot of the column of the
    /// storage's type.
    pub fn add_component(
        &self,
        chunk: &mut ComponentChunk,
        component_index: ComponentIndex,
        component: &[u8],
    )
        requires
            old(chunk)@.wf(),
            old(chunk)@.layout.has_component(self.component_type_id.token()),
            component_index.0 < old(chunk)@.layout.max_slots,
            component@.len() == old(chunk)@.layout.stride_of(self.component_type_id.token()),
        ensures
            final(chunk)@.wf(),
            old(chunk)@.same_except_cell(
                final(chunk)@,
                old(chunk)@.layout.column_of(self.component_type_id.token()),
                component_index.0 as int,
            ),
            final(chunk)@.component(self.component_type_id.token(), component_index.0 as int)
                == component@,
    {
        store_component_in_chunk(chunk, self.component_type_id, component_index, component);
    }

    /// Takes the component of the storage's type out of the given slot and
    /// returns it. The component of the last occupied slot of the last chunk
    /// takes its place, so that only that last slot is left without a
    /// component.
    pub fn swap_remove_component_in_chunk(
        &self,
        chunks: &mut ComponentChunks,
        chunk_index: ChunkIndex,
        component_index: ComponentIndex,
    ) -> (r: Vec<u8>)
        requires
            can_take_from(
                self.component_type_id.token(),
                old(chunks)@,
                chunk_index,
                component_index,
            ),
        ensures
            r@ == old(chunks)@[chunk_index.0 as int].component(
                self.component_type_id.token(),
                component_index.0 as int,
            ),
            taken_from(
                self.component_type_id.token(),
                old(chunks)@,
                final(chunks)@,
                chunk_index,
                component_index,
            ),
    {
        let ghost before = chunks@;
        let ghost token = self.component_type_id.token();
        let ghost k = before[0].layout.column_of(token);
        let head_index = current_chunk_index(chunks);
        let chunk = get_chunk(chunks, chunk_index);
        let head_chunk = get_chunk(chunks, head_index);
        let head_component_index = head_chunk.current_component_index();
        proof {
            assert(before[chunk_index.0 as int].wf());
            assert(before[chunk_index.0 as int].layout == before[0].layout);
            assert(before[head_index.0 as int].wf());
            assert(before[head_index.0 as int].layout == before[0].layout);
        }
        let stream = get_chunk_stream_for_component(self.component_type_id, chunk.chunk_layout());
        let size: usize = stream.stride;
        proof {
            lemma_cell_in_chunk(before[0].layout, k, component_index.0 as int);
            lemma_cell_in_chunk(before[0].layout, k, head_component_index.0 as int);
            if component_index != head_component_index {
                lemma_cells_disjoint(
                    before[0].layout,
                    k,
                    component_index.0 as int,
                    k,
                    head_component_index.0 as int,
                );
            }
        }
        let item_offset: usize = get_chunk_stream_offset_for_component(
            self.component_type_id,
            chunk.chunk_layout(),
            component_index,
        );
        let head_offset: usize = get_chunk_stream_offset_for_component(
            self.component_type_id,
            head_chunk.chunk_layout(),
            head_component_index,
        );
        let read = swap_read_component_in_chunk_storage(
            chunks,
            chunk_index,
            head_index,
            item_offset,
            head_offset,
            size,
        );
        proof {
            lemma_swapped_ranges_cells(
                before,
                k,
                chunk_index.0 as int,
                component_index.0 as int,
                head_index.0 as int,
                head_component_index.0 as int,
            );
        }
        read
    }
}

impl UnknownComponentStorage for PackedComponentStorage {
    open spec fn stored_type(&self) -> ComponentTypeId {
        self.component_type_id
    }

    fn move_component(
        &self,
        source_chunks: &mut ComponentChunks,
        source_chunk_index: ChunkIndex,
        source_component_index: ComponentIndex,
        target_chunks: &mut ComponentChunks,
        target_chunk_index: ChunkIndex,
    ) {
        let component = self.swap_remove_component_in_chunk(
            source_chunks,
            source_chunk_index,
            source_component_index,
        );
        let target_chunk = get_chunk_mut(target_chunks, target_chunk_index);
        let target_component_index = target_chunk.current_component_index();
        proof {
            assert(old(source_chunks)@[source_chunk_index.0 as int].layout
                == old(source_chunks)@[0].layout);
            lemma_cell_in_chunk(
                old(source_chunks)@[0].layout,
                old(source_chunks)@[0].layout.column_of(self.component_type_id.token()),
                source_component_index.0 as int,
            );
        }
        self.add_component(target_chunk, target_component_index, component.as_slice());
    }
}


/// The storage of every component type that was used so far, by the token of
/// the type.
pub struct ComponentStorages {
    pub(crate) inner: HashMap<u64, PackedComponentStorage>,
}

impl ComponentStorages {
    /// The storages, by the token of their type.
    pub open(crate) spec fn view(&self) -> Map<u64, PackedComponentStorage> {
        self.inner@
    }

    /// Each storage stands under the token of its own type.
    pub open spec fn wf(&self) -> bool {
        forall|token: u64|
            self@.contains_key(token) ==> (#[trigger] self@[token]).component_type_id.token()
                == token
    }

    /// There is a storage for every type of the layout, with the size that
    /// the layout gives the type.
    pub open spec fn covers(&self, layout: EntityLayoutView) -> bool {
        storages_cover(self@, layout)
    }
}

/// Among the storages there is one for every type of the layout, with the
/// size that the layout gives the type.
pub open spec fn storages_cover(
    storages: Map<u64, PackedComponentStorage>,
    layout: EntityLayoutView,
) -> bool {
    forall|i: int|
        0 <= i < layout.components.len() ==> storages.contains_key(#[trigger] layout.types()[i])
            && storages[layout.types()[i]].size == layout.sizes[i]
}

/// No storages.
pub fn component_storages() -> (r: ComponentStorages)
    ensures
        r@ == Map::<u64, PackedComponentStorage>::empty(),
        r.wf(),
{
    ComponentStorages { inner: HashMap::new() }
}

/// The storage of the given component type.
pub fn get_component_storage(storages: &ComponentStorages, type_id: ComponentTypeId) -> (r:
    &PackedComponentStorage)
    requires
        storages@.contains_key(type_id.token()),
    ensures
        *r == storages@[type_id.token()],
{
    let key: u64 = type_id.type_id();
    storages.inner.get(&key).unwrap()
}

/// The storage of the given component type, if the type was used before.
pub fn find_component_storage(storages: &ComponentStorages, type_id: ComponentTypeId) -> (r: Option<
    PackedComponentStorage,
>)
    ensures
        match r {
            Some(storage) => storages@.contains_key(type_id.token()) && storage
                == storages@[type_id.token()],
            None => !storages@.contains_key(type_id.token()),
        },
{
    let key: u64 = type_id.type_id();
    match storages.inner.get(&key) {
        Some(storage) => Some(*storage),
        None => None,
    }
}

/// Makes the storage of the given component type, with the given size,
/// unless the type has one already.
pub fn set_component_storage_if_not_set_already(
    storages: &mut ComponentStorages,
    type_id: ComponentTypeId,
    size: usize,
)
    requires
        old(storages).wf(),
    ensures
        final(storages).wf(),
        old(storages)@.contains_key(type_id.token()) ==> final(storages)@ == old(storages)@,
        !old(storages)@.contains_key(type_id.token()) ==> final(storages)@ == old(storages)@.insert(
            type_id.token(),
            PackedComponentStorage { component_type_id: type_id, size },
        ),
{
    let key: u64 = type_id.type_id();
    if !storages.inner.contains_key(&key) {
        storages.inner.insert(key, create_packed_component_storage(type_id, size));
        assert forall|token: u64| storages@.contains_key(token) implies (
        #[trigger] storages@[token]).component_type_id.token() == token by {
            if token != key {
                assert(old(storages)@.contains_key(token));
                assert(storages@[token] == old(storages)@[token]);
            }
        }
    }
}

/// The chunk and slot whose value the cell of column `k` in slot `s` of
/// chunk `c` holds once the slots `a` and `b` have changed places in the
/// first `count` columns.
pub open spec fn swapped_source(
    c: int,
    s: int,
    k: int,
    count: int,
    a: ArchetypeEntityLocation,
    b: ArchetypeEntityLocation,
) -> (int, int) {
    if k < count && c == a.chunk.0 && s == a.component.0 {
        (b.chunk.0 as int, b.component.0 as int)
    } else if k < count && c == b.chunk.0 && s == b.component.0 {
        (a.chunk.0 as int, a.component.0 as int)
    } else {
        (c, s)
    }
}

/// The second list of chunks is the first with the components of the slots
/// `a` and `b` exchanged in the first `count` columns.
pub open spec fn rows_swapped(
    before: Seq<ChunkView>,
    after: Seq<ChunkView>,
    count: int,
    a: ArchetypeEntityLocation,
    b: ArchetypeEntityLocation,
) -> bool {
    &&& after.len() == before.len()
    &&& forall|c: int| 0 <= c < before.len() ==> (#[trigger] before[c]).same_shape(after[c])
    &&& forall|c: int, k: int, s: int|
        0 <= c < before.len() && 0 <= k < before[c].layout.streams.len() && 0 <= s
            < before[c].layout.max_slots ==> #[trigger] after[c].cell(k, s) == before[swapped_source(
            c,
            s,
            k,
            count,
            a,
            b,
        ).0].cell(k, swapped_source(c, s, k, count, a, b).1)
}

/// The second chunk is the first with, in the given slot, the components of
/// the moved types replaced by those of a slot of the source chunk.
pub open spec fn row_received(
    before: ChunkView,
    after: ChunkView,
    slot: int,
    moved: Seq<u64>,
    source: ChunkView,
    source_slot: int,
) -> bool {
    &&& before.same_shape(after)
    &&& forall|k: int, s: int|
        0 <= k < before.layout.streams.len() && 0 <= s < before.layout.max_slots
            ==> #[trigger] after.cell(k, s) == if s == slot && moved.contains(
            before.layout.streams[k].component_type_id.token(),
        ) {
            source.component(before.layout.streams[k].component_type_id.token(), source_slot)
        } else {
            before.cell(k, s)
        }
}

proof fn lemma_rows_swapped_step(
    before: Seq<ChunkView>,
    current: Seq<ChunkView>,
    next: Seq<ChunkView>,
    i: int,
    a: ArchetypeEntityLocation,
    b: ArchetypeEntityLocation,
)
    requires
        chunks_wf(before),
        a.chunk.0 < before.len(),
        b.chunk.0 < before.len(),
        0 <= i < before[0].layout.streams.len(),
        a.component.0 < before[0].layout.max_slots,
        b.component.0 < before[0].layout.max_slots,
        rows_swapped(before, current, i, a, b),
        cells_swapped(
            current,
            next,
            i,
            a.chunk.0 as int,
            a.component.0 as int,
            b.chunk.0 as int,
            b.component.0 as int,
        ),
    ensures
        rows_swapped(before, next, i + 1, a, b),
        chunks_wf(next),
{
    assert forall|c: int| 0 <= c < before.len() implies (#[trigger] before[c]).same_shape(next[c]) by {
        assert(before[c].same_shape(current[c]));
        assert(current[c].same_shape(next[c]));
    }
    assert forall|c: int| 0 <= c < before.len() implies (#[trigger] before[c]).layout
        == before[0].layout by {}
    assert forall|c: int, k: int, s: int|
        0 <= c < before.len() && 0 <= k < before[c].layout.streams.len() && 0 <= s
            < before[c].layout.max_slots implies #[trigger] next[c].cell(k, s)
        == before[swapped_source(c, s, k, i + 1, a, b).0].cell(
        k,
        swapped_source(c, s, k, i + 1, a, b).1,
    ) by {
        assert(before[c].same_shape(current[c]));
        assert(before[a.chunk.0 as int].same_shape(current[a.chunk.0 as int]));
        assert(before[b.chunk.0 as int].same_shape(current[b.chunk.0 as int]));
        let ac = a.chunk.0 as int;
        let as_ = a.component.0 as int;
        let bc = b.chunk.0 as int;
        let bs = b.component.0 as int;
        if k == i && c == ac && s == as_ {
            assert(next[ac].cell(i, as_) == current[bc].cell(i, bs));
            assert(current[bc].cell(i, bs) == before[swapped_source(bc, bs, i, i, a, b).0].cell(
                i,
                swapped_source(bc, bs, i, i, a, b).1,
            ));
        } else if k == i && c == bc && s == bs {
            assert(next[bc].cell(i, bs) == current[ac].cell(i, as_));
            assert(current[ac].cell(i, as_) == before[swapped_source(ac, as_, i, i, a, b).0].cell(
                i,
                swapped_source(ac, as_, i, i, a, b).1,
            ));
        } else {
            assert(next[c].cell(k, s) == current[c].cell(k, s));
            assert(current[c].cell(k, s) == before[swapped_source(c, s, k, i, a, b).0].cell(
                k,
                swapped_source(c, s, k, i, a, b).1,
            ));
        }
    }
    assert forall|c: int| 0 <= c < next.len() implies {
        &&& (#[trigger] next[c]).wf()
        &&& next[c].chunk_index.0 == c
        &&& next[c].layout == next[0].layout
        &&& c < next.len() - 1 ==> next[c].is_full()
    } by {
        assert(before[c].same_shape(next[c]));
        assert(before[0].same_shape(next[0]));
        assert(before[c].wf());
    }
}

proof fn lemma_row_received_step(
    before: ChunkView,
    current: ChunkView,
    next: ChunkView,
    slot: int,
    types: Seq<u64>,
    i: int,
    source: ChunkView,
    source_slot: int,
)
    requires
        before.wf(),
        0 <= i < types.len(),
        0 <= slot < before.layout.max_slots,
        before.layout.has_component(types[i]),
        row_received(before, current, slot, types.take(i), source, source_slot),
        current.same_except_cell(next, before.layout.column_of(types[i]), slot),
        next.cell(before.layout.column_of(types[i]), slot) == source.component(types[i], source_slot),
    ensures
        row_received(before, next, slot, types.take(i + 1), source, source_slot),
        next.wf(),
{
    let target_column = before.layout.column_of(types[i]);
    let shorter = types.take(i);
    let longer = types.take(i + 1);
    assert(longer =~= shorter.push(types[i]));
    assert forall|k: int, s: int|
        0 <= k < before.layout.streams.len() && 0 <= s < before.layout.max_slots implies #[trigger] next.cell(
        k,
        s,
    ) == if s == slot && types.take(i + 1).contains(
        before.layout.streams[k].component_type_id.token(),
    ) {
        source.component(before.layout.streams[k].component_type_id.token(), source_slot)
    } else {
        before.cell(k, s)
    } by {
        let token = before.layout.streams[k].component_type_id.token();
        lemma_column_of_stream(before.layout, k);
        assert(longer.contains(token) <==> shorter.contains(token) || token == types[i]) by {
            if shorter.contains(token) {
                let j = choose|j: int| 0 <= j < shorter.len() && shorter[j] == token;
                assert(longer[j] == token);
            }
            if token == types[i] {
                assert(longer[i] == token);
            }
            if longer.contains(token) {
                let j = choose|j: int| 0 <= j < longer.len() && longer[j] == token;
                if j < i {
                    assert(shorter[j] == token);
                }
            }
        }
        if k == target_column && s == slot {
            assert(types.take(i + 1).contains(token));
        } else {
            assert(next.cell(k, s) == current.cell(k, s));
            assert(current.cell(k, s) == if s == slot && types.take(i).contains(token) {
                source.component(token, source_slot)
            } else {
                before.cell(k, s)
            });
        }
    }
}

/// The target has every component type of the source, with the same size.
pub open spec fn extends_layout(target: EntityLayoutView, source: EntityLayoutView) -> bool {
    forall|i: int|
        0 <= i < source.components.len() ==> target.types().contains(#[trigger] source.types()[i])
            && target.sizes[target.types().index_of(source.types()[i])] == source.sizes[i]
}

/// Moves every component of the entity in the given slot of the source
/// archetype to the given slot of the target archetype, one type at a time.
/// In the source, the components of the last occupied slot take the place of
/// those that left.
pub fn move_components(
    storages: &ComponentStorages,
    source_layout: &EntityLayout,
    source_archetype: &mut Archetype,
    source_archetype_entity_location: ArchetypeEntityLocation,
    target_archetype: &mut Archetype,
    target_archetype_entity_location: ArchetypeEntityLocation,
)
    requires
        storages.wf(),
        storages.covers(source_layout@),
        source_layout@ == old(source_archetype)@.layout,
        old(source_archetype)@.wf(),
        old(target_archetype)@.wf(),
        old(source_archetype)@.valid_slot(source_archetype_entity_location),
        old(target_archetype)@.tail() == target_archetype_entity_location,
        old(target_archetype)@.chunks.len() > 0,
        extends_layout(old(target_archetype)@.layout, old(source_archetype)@.layout),
    ensures
        final(source_archetype)@.wf(),
        final(source_archetype)@ == (ArchetypeView {
            chunks: final(source_archetype)@.chunks,
            ..old(source_archetype)@
        }),
        rows_swapped(
            old(source_archetype)@.chunks,
            final(source_archetype)@.chunks,
            old(source_archetype)@.layout.components.len() as int,
            source_archetype_entity_location,
            old(source_archetype)@.tail(),
        ),
        final(target_archetype)@.wf(),
        final(target_archetype)@ == (ArchetypeView {
            chunks: old(target_archetype)@.chunks.update(
                target_archetype_entity_location.chunk.0 as int,
                final(target_archetype)@.chunks[target_archetype_entity_location.chunk.0 as int],
            ),
            ..old(target_archetype)@
        }),
        row_received(
            old(target_archetype)@.chunks[target_archetype_entity_location.chunk.0 as int],
            final(target_archetype)@.chunks[target_archetype_entity_location.chunk.0 as int],
            target_archetype_entity_location.component.0 as int,
            old(source_archetype)@.layout.types(),
            old(source_archetype)@.chunks[source_archetype_entity_location.chunk.0 as int],
            source_archetype_entity_location.component.0 as int,
        ),
{
    let ghost source_before = source_archetype@;
    let ghost target_before = target_archetype@;
    let ghost types = source_before.layout.types();
    let ghost tail = source_before.tail();
    let ghost sc = source_archetype_entity_location.chunk.0 as int;
    let ghost ss = source_archetype_entity_location.component.0 as int;
    let ghost tc = target_archetype_entity_location.chunk.0 as int;
    let ghost ts = target_archetype_entity_location.component.0 as int;
    let count: usize = source_layout.len();
    let mut i: usize = 0;
    proof {
        lemma_deduced_layout_wf(source_before.layout);
        lemma_deduced_layout_wf(target_before.layout);
        assert(source_before.chunks[sc].wf());
        assert(source_before.chunks[0].layout == deduced_layout(source_before.layout));
        assert(source_before.chunks.last().wf());
        assert(target_before.chunks[tc].wf());
        assert(target_before.chunks[tc].layout == deduced_layout(target_before.layout));
        assert(types.take(0) =~= Seq::<u64>::empty());
        assert(target_archetype@.chunks =~= target_before.chunks.update(
            tc,
            target_archetype@.chunks[tc],
        ));
    }
    while i < count
        invariant
            i <= count,
            count == source_layout@.components.len(),
            source_layout@ == source_before.layout,
            types == source_before.layout.types(),
            tail == source_before.tail(),
            sc == source_archetype_entity_location.chunk.0,
            ss == source_archetype_entity_location.component.0,
            tc == target_archetype_entity_location.chunk.0,
            ts == target_archetype_entity_location.component.0,
            storages.wf(),
            storages.covers(source_layout@),
            source_before.wf(),
            target_before.wf(),
            source_before.valid_slot(source_archetype_entity_location),
            target_before.tail() == target_archetype_entity_location,
            target_before.chunks.len() > 0,
            extends_layout(target_before.layout, source_before.layout),
            source_archetype@ == (ArchetypeView {
                chunks: source_archetype@.chunks,
                ..source_before
            }),
            chunks_wf(source_archetype@.chunks),
            rows_swapped(
                source_before.chunks,
                source_archetype@.chunks,
                i as int,
                source_archetype_entity_location,
                tail,
            ),
            target_archetype@ == (ArchetypeView {
                chunks: target_before.chunks.update(tc, target_archetype@.chunks[tc]),
                ..target_before
            }),
            target_archetype@.chunks[tc].wf(),
            row_received(
                target_before.chunks[tc],
                target_archetype@.chunks[tc],
                ts,
                types.take(i as int),
                source_before.chunks[sc],
                ss,
            ),
        decreases count - i,
    {
        let ghost source_current = source_archetype@.chunks;
        let ghost target_current = target_archetype@.chunks;
        let ghost token = types[i as int];
        let type_id = source_layout.component_at(i);
        let component_storage = get_component_storage(storages, type_id);
        proof {
            assert(source_layout@.types()[i as int] == type_id.token());
            assert(component_storage.stored_type().token() == token);
            lemma_deduced_layout_wf(source_before.layout);
            lemma_deduced_layout_wf(target_before.layout);
            lemma_deduced_columns(source_before.layout, token);
            lemma_deduced_columns(target_before.layout, token);
            assert(source_before.chunks[sc].wf());
            assert(source_before.chunks[sc].layout == deduced_layout(source_before.layout));
            assert(source_before.chunks[0].layout == deduced_layout(source_before.layout));
            assert(source_before.chunks.last().layout == deduced_layout(source_before.layout));
            assert(target_before.chunks[tc].layout == deduced_layout(target_before.layout));
            assert(source_before.chunks[0].same_shape(source_current[0]));
            assert(source_before.chunks[sc].same_shape(source_current[sc]));
            assert(source_before.chunks.last().same_shape(source_current.last()));
            assert(target_before.chunks[tc].same_shape(target_current[tc]));
            assert(source_before.layout.types().index_of(token) == i) by {
                assert(source_before.layout.types()[i as int] == token);
            }
        }
        component_storage.move_component(
            &mut source_archetype.chunks,
            source_archetype_entity_location.chunk,
            source_archetype_entity_location.component,
            &mut target_archetype.chunks,
            target_archetype_entity_location.chunk,
        );
        proof {
            let k = deduced_layout(source_before.layout).column_of(token);
            assert(k == i);
            lemma_rows_swapped_step(
                source_before.chunks,
                source_current,
                source_archetype@.chunks,
                i as int,
                source_archetype_entity_location,
                tail,
            );
            // what was moved is what the slot held at the start
            assert(source_current[sc].cell(k, ss) == source_before.chunks[swapped_source(
                sc,
                ss,
                k,
                i as int,
                source_archetype_entity_location,
                tail,
            ).0].cell(
                k,
                swapped_source(sc, ss, k, i as int, source_archetype_entity_location, tail).1,
            ));
            assert(source_current[sc].component(token, ss) == source_before.chunks[sc].component(
                token,
                ss,
            ));
            lemma_row_received_step(
                target_before.chunks[tc],
                target_current[tc],
                target_archetype@.chunks[tc],
                ts,
                types,
                i as int,
                source_before.chunks[sc],
                ss,
            );
            assert(target_archetype@.chunks =~= target_before.chunks.update(
                tc,
                target_archetype@.chunks[tc],
            ));
        }
        i += 1;
    }
    proof {
        assert(types.take(count as int) =~= types);
        lemma_same_shape_wf(source_before, source_archetype@);
        lemma_same_shape_wf(target_before, target_archetype@);
    }
}


/// Sum of the sizes that the storages record for the given types.
pub open spec fn stored_size(storages: Map<u64, PackedComponentStorage>, types: Seq<u64>) -> int
    decreases types.len(),
{
    if types.len() == 0 {
        0
    } else {
        stored_size(storages, types.drop_last()) + storages[types.last()].size
    }
}

/// An entity of a layout that the storages cover takes as many bytes as the
/// storages record for the types of the layout.
pub proof fn lemma_covered_size(storages: Map<u64, PackedComponentStorage>, layout: EntityLayoutView)
    requires
        layout.components.len() == layout.sizes.len(),
        storages_cover(storages, layout),
    ensures
        layout.total_size() == stored_size(storages, layout.types()),
    decreases layout.components.len(),
{
    if layout.components.len() > 0 {
        let shorter = EntityLayoutView {
            components: layout.components.drop_last(),
            sizes: layout.sizes.drop_last(),
        };
        assert(shorter.types() =~= layout.types().drop_last());
        assert forall|i: int| 0 <= i < shorter.components.len() implies storages.contains_key(
            #[trigger] shorter.types()[i],
        ) && storages[shorter.types()[i]].size == shorter.sizes[i] by {
            assert(shorter.types()[i] == layout.types()[i]);
        }
        lemma_covered_size(storages, shorter);
        let last = layout.components.len() - 1;
        assert(layout.types()[last] == layout.types().last());
    }
}

/// Taking one type out of a sequence takes its size out of the sum.
proof fn lemma_stored_size_remove(storages: Map<u64, PackedComponentStorage>, types: Seq<u64>, i: int)
    requires
        0 <= i < types.len(),
    ensures
        stored_size(storages, types) == stored_size(storages, types.remove(i))
            + storages[types[i]].size,
    decreases types.len(),
{
    if i == types.len() - 1 {
        assert(types.remove(i) =~= types.drop_last());
    } else {
        lemma_stored_size_remove(storages, types.drop_last(), i);
        assert(types.remove(i).drop_last() =~= types.drop_last().remove(i));
        assert(types.remove(i).last() == types.last());
    }
}

/// The sum of the recorded sizes of a set of types does not depend on the
/// order in which the types are listed.
pub proof fn lemma_stored_size_of_set(
    storages: Map<u64, PackedComponentStorage>,
    one: Seq<u64>,
    other: Seq<u64>,
)
    requires
        one.no_duplicates(),
        other.no_duplicates(),
        one.to_set() == other.to_set(),
    ensures
        stored_size(storages, one) == stored_size(storages, other),
    decreases one.len(),
{
    one.unique_seq_to_set();
    other.unique_seq_to_set();
    if one.len() > 0 {
        let x = one.last();
        assert(one.to_set().contains(x));
        assert(other.contains(x));
        let j = other.index_of(x);
        assert(other[j] == x);
        let shorter = one.drop_last();
        let removed = other.remove(j);
        assert forall|t: u64| shorter.to_set().contains(t) <==> removed.to_set().contains(t) by {
            if shorter.contains(t) {
                let k = choose|k: int| 0 <= k < shorter.len() && shorter[k] == t;
                assert(one[k] == t);
                assert(t != x);
                assert(one.to_set().contains(t));
                assert(other.contains(t));
                let l = choose|l: int| 0 <= l < other.len() && other[l] == t;
                if l < j {
                    assert(removed[l] == t);
                } else {
                    assert(removed[l - 1] == t);
                }
            }
            if removed.contains(t) {
                let l = choose|l: int| 0 <= l < removed.len() && removed[l] == t;
                let m = if l < j {
                    l
                } else {
                    l + 1
                };
                assert(other[m] == t);
                assert(t != x);
                assert(other.to_set().contains(t));
                assert(one.contains(t));
                let k = choose|k: int| 0 <= k < one.len() && one[k] == t;
                assert(shorter[k] == t);
            }
        }
        assert(shorter.to_set() =~= removed.to_set());
        lemma_stored_size_of_set(storages, shorter, removed);
        lemma_stored_size_remove(storages, other, j);
    } else {
        assert(other.len() == 0);
    }
}

} // verus!
