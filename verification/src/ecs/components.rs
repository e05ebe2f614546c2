//! Chunks of component storage: fixed-size blocks of bytes, cut into one
//! column per component type.

use crate::ecs::archetypes::ArchetypeEntityLocation;
use crate::ecs::entities::Entity;
use crate::ecs::layout::{
    component_chunk_layout, get_chunk_stream_for_component,
    get_chunk_stream_offset_for_component, lemma_cell_in_chunk, lemma_cells_disjoint,
    ChunkLayoutView, ComponentChunkLayout, ComponentIndex, ComponentTypeId, CHUNK_SIZE,
};
use vstd::prelude::*;

verus! {

/// Position of a chunk in the chunk list of its archetype.
#[derive(Clone, Copy, Debug, PartialEq, Eq, Structural)]
pub struct ChunkIndex(pub usize);

/// The bytes with `data` written over them from position `start` on.
pub open spec fn write_range(bytes: Seq<u8>, start: int, data: Seq<u8>) -> Seq<u8> {
    Seq::new(
        bytes.len(),
        |i: int|
            if start <= i < start + data.len() {
                data[i - start]
            } else {
                bytes[i]
            },
    )
}

/// What was written can be read back, and a range that shares no byte with
/// the written one reads as before.
pub proof fn lemma_write_range(bytes: Seq<u8>, start: int, data: Seq<u8>, low: int, high: int)
    requires
        0 <= start,
        start + data.len() <= bytes.len(),
        0 <= low <= high <= bytes.len(),
    ensures
        write_range(bytes, start, data).len() == bytes.len(),
        write_range(bytes, start, data).subrange(start, start + data.len()) == data,
        high <= start || start + data.len() <= low ==> write_range(bytes, start, data).subrange(
            low,
            high,
        ) == bytes.subrange(low, high),
{
    let written = write_range(bytes, start, data);
    assert(written.subrange(start, start + data.len()) =~= data);
    if high <= start || start + data.len() <= low {
        assert(written.subrange(low, high) =~= bytes.subrange(low, high));
    }
}

/// One block of component storage. Its layout cuts the bytes into columns,
/// one per component type; the slots `0` to the current component index are
/// occupied.
pub struct ComponentChunk {
    pub(crate) storage: Vec<u8>,
    pub(crate) chunk_index: ChunkIndex,
    pub(crate) current_component_index: ComponentIndex,
    pub(crate) chunk_layout: ComponentChunkLayout,
    pub(crate) occupants: Vec<Entity>,
}

/// What a chunk holds.
#[verifier::ext_equal]
pub struct ChunkView {
    /// The storage.
    pub bytes: Seq<u8>,
    /// Position of the chunk in the chunk list of its archetype.
    pub chunk_index: ChunkIndex,
    /// The last occupied slot.
    pub current_component_index: ComponentIndex,
    /// Placement of the columns.
    pub layout: ChunkLayoutView,
    /// The entity of each slot for which one was recorded, by slot.
    pub occupants: Seq<Entity>,
}

impl ChunkView {
    /// The storage has the size of a chunk, the layout is well formed, and
    /// the last occupied slot is one of its slots.
    pub open spec fn wf(&self) -> bool {
        &&& self.bytes.len() == CHUNK_SIZE
        &&& self.layout.wf()
        &&& self.current_component_index.0 < self.layout.max_slots
    }

    /// The last occupied slot is the last slot.
    pub open spec fn is_full(&self) -> bool {
        self.current_component_index.0 == self.layout.max_slots - 1
    }

    /// Number of occupied slots.
    pub open spec fn occupied(&self) -> int {
        self.current_component_index.0 + 1
    }

    /// Every occupied slot has its entity recorded, and no other slot.
    pub open spec fn tracks_occupants(&self) -> bool {
        self.occupants.len() == self.occupied()
    }

    /// The bytes of the given slot of column `k`.
    pub open spec fn cell(&self, k: int, slot: int) -> Seq<u8> {
        self.bytes.subrange(self.layout.cell_start(k, slot), self.layout.cell_end(k, slot))
    }

    /// The bytes of the component of the given type in the given slot.
    pub open spec fn component(&self, token: u64, slot: int) -> Seq<u8> {
        self.cell(self.layout.column_of(token), slot)
    }

    /// `other` differs from this chunk at most in what its bytes are.
    pub open spec fn same_shape(&self, other: ChunkView) -> bool {
        &&& other.bytes.len() == self.bytes.len()
        &&& other.chunk_index == self.chunk_index
        &&& other.current_component_index == self.current_component_index
        &&& other.layout == self.layout
        &&& other.occupants == self.occupants
    }

    /// `other` differs from this chunk at most in the bytes of the given cell.
    pub open spec fn same_except_cell(&self, other: ChunkView, k: int, slot: int) -> bool {
        &&& self.same_shape(other)
        &&& forall|k2: int, slot2: int|
            0 <= k2 < self.layout.streams.len() && 0 <= slot2 < self.layout.max_slots && (k2 != k
                || slot2 != slot) ==> #[trigger] other.cell(k2, slot2) == self.cell(k2, slot2)
    }
}

impl ComponentChunk {
    /// What the chunk holds.
    pub open(crate) spec fn view(&self) -> ChunkView {
        ChunkView {
            bytes: self.storage@,
            chunk_index: self.chunk_index,
            current_component_index: self.current_component_index,
            layout: self.chunk_layout@,
            occupants: self.occupants@,
        }
    }

    /// Position of the chunk in the chunk list of its archetype.
    pub fn chunk_index(&self) -> (r: ChunkIndex)
        ensures
            r == self@.chunk_index,
    {
        self.chunk_index
    }

    /// The last occupied slot.
    pub fn current_component_index(&self) -> (r: ComponentIndex)
        ensures
            r == self@.current_component_index,
    {
        self.current_component_index
    }

    /// The last occupied slot, to be changed.
    pub fn current_component_index_mut(&mut self) -> (r: &mut ComponentIndex)
        ensures
            *r == old(self)@.current_component_index,
            final(self)@ == (ChunkView { current_component_index: *final(r), ..old(self)@ }),
    {
        &mut self.current_component_index
    }

    /// Placement of the columns.
    pub fn chunk_layout(&self) -> (r: &ComponentChunkLayout)
        ensures
            r@ == self@.layout,
    {
        &self.chunk_layout
    }

    /// The entity recorded for the given slot.
    pub fn occupant(&self, index: ComponentIndex) -> (r: Entity)
        requires
            index.0 < self@.occupants.len(),
        ensures
            r == self@.occupants[index.0 as int],
    {
        self.occupants[index.0]
    }
}

/// Whether the last occupied slot of the chunk is its last slot.
pub fn is_chunk_full(chunk: &ComponentChunk) -> (r: bool)
    requires
        chunk@.layout.max_slots >= 1,
    ensures
        r == chunk@.is_full(),
{
    chunk.current_component_index.0 == chunk.chunk_layout.slots() - 1
}

/// Writes the component over the bytes of the chunk that start at `offset`.
pub fn store_component_in_chunk_at_offset(chunk: &mut ComponentChunk, offset: usize, component: &[u8])
    requires
        offset + component@.len() <= old(chunk)@.bytes.len(),
    ensures
        final(chunk)@ == (ChunkView {
            bytes: write_range(old(chunk)@.bytes, offset as int, component@),
            ..old(chunk)@
        }),
{
    let mut i: usize = 0;
    assert(chunk@.bytes =~= write_range(
        old(chunk)@.bytes,
        offset as int,
        component@.subrange(0, 0),
    ));
    while i < component.len()
        invariant
            i <= component@.len(),
            offset + component@.len() <= chunk.storage.len(),
            chunk@ == (ChunkView {
                bytes: write_range(
                    old(chunk)@.bytes,
                    offset as int,
                    component@.subrange(0, i as int),
                ),
                ..old(chunk)@
            }),
        decreases component@.len() - i,
    {
        chunk.storage[offset + i] = component[i];
        assert(chunk@.bytes =~= write_range(
            old(chunk)@.bytes,
            offset as int,
            component@.subrange(0, i + 1),
        ));
        i += 1;
    }
    assert(component@.subrange(0, i as int) =~= component@);
}

/// The `size` bytes of the chunk that start at `offset`.
pub fn get_component_from_chunk_storage(chunk: &ComponentChunk, offset: usize, size: usize) -> (r:
    &[u8])
    requires
        offset + size <= chunk@.bytes.len(),
    ensures
        r@ == chunk@.bytes.subrange(offset as int, offset + size),
{
    assert(chunk.storage.len() == chunk@.bytes.len());
    let end: usize = offset + size;
    vstd::slice::slice_subrange(chunk.storage.as_slice(), offset, end)
}

/// A copy of the `size` bytes of the chunk that start at `offset`.
pub fn copy_component_from_chunk_storage(chunk: &ComponentChunk, offset: usize, size: usize) -> (r:
    Vec<u8>)
    requires
        offset + size <= chunk@.bytes.len(),
    ensures
        r@ == chunk@.bytes.subrange(offset as int, offset + size),
{
    let mut copy: Vec<u8> = Vec::with_capacity(size);
    let mut i: usize = 0;
    while i < size
        invariant
            i <= size,
            offset + size <= chunk.storage.len(),
            copy@ == chunk@.bytes.subrange(offset as int, offset + i),
        decreases size - i,
    {
        copy.push(chunk.storage[offset + i]);
        assert(copy@ =~= chunk@.bytes.subrange(offset as int, offset + i + 1));
        i += 1;
    }
    copy
}


/// Writes the component of the given type into the given slot of the chunk.
pub fn store_component_in_chunk(
    chunk: &mut ComponentChunk,
    component_type: ComponentTypeId,
    index: ComponentIndex,
    component: &[u8],
)
    requires
        old(chunk)@.wf(),
        old(chunk)@.layout.has_component(component_type.token()),
        index.0 < old(chunk)@.layout.max_slots,
        component@.len() == old(chunk)@.layout.stride_of(component_type.token()),
    ensures
        final(chunk)@.wf(),
        old(chunk)@.same_except_cell(
            final(chunk)@,
            old(chunk)@.layout.column_of(component_type.token()),
            index.0 as int,
        ),
        final(chunk)@.component(component_type.token(), index.0 as int) == component@,
{
    let ghost before = chunk@;
    let ghost k = before.layout.column_of(component_type.token());
    let stream = get_chunk_stream_for_component(component_type, &chunk.chunk_layout);
    proof {
        lemma_cell_in_chunk(before.layout, k, index.0 as int);
    }
    let offset: usize = get_chunk_stream_offset_for_component(
        component_type,
        &chunk.chunk_layout,
        index,
    );
    store_component_in_chunk_at_offset(chunk, offset, component);
    proof {
        let after = chunk@;
        lemma_write_range(before.bytes, offset as int, component@, 0, 0);
        assert forall|k2: int, slot2: int|
            0 <= k2 < before.layout.streams.len() && 0 <= slot2 < before.layout.max_slots && (k2
                != k || slot2 != index.0) implies #[trigger] after.cell(k2, slot2) == before.cell(
            k2,
            slot2,
        ) by {
            lemma_cell_in_chunk(before.layout, k2, slot2);
            lemma_cells_disjoint(before.layout, k, index.0 as int, k2, slot2);
            lemma_write_range(
                before.bytes,
                offset as int,
                component@,
                before.layout.cell_start(k2, slot2),
                before.layout.cell_end(k2, slot2),
            );
        }
    }
}

/// The component of the given type in the given slot of the chunk.
pub fn fetch(
    chunk: &ComponentChunk,
    component_type: ComponentTypeId,
    component_index: ComponentIndex,
) -> (r: &[u8])
    requires
        chunk@.wf(),
        chunk@.layout.has_component(component_type.token()),
        component_index.0 < chunk@.layout.max_slots,
    ensures
        r@ == chunk@.component(component_type.token(), component_index.0 as int),
{
    let stream = get_chunk_stream_for_component(component_type, &chunk.chunk_layout);
    proof {
        lemma_cell_in_chunk(
            chunk@.layout,
            chunk@.layout.column_of(component_type.token()),
            component_index.0 as int,
        );
    }
    let offset: usize = get_chunk_stream_offset_for_component(
        component_type,
        &chunk.chunk_layout,
        component_index,
    );
    get_component_from_chunk_storage(chunk, offset, stream.stride)
}

/// The views of a sequence of chunks, in the same order.
pub open spec fn chunk_views(chunks: Seq<ComponentChunk>) -> Seq<ChunkView> {
    Seq::new(chunks.len(), |i: int| chunks[i]@)
}

/// Chunks that no archetype uses, kept to be used again.
pub struct ComponentChunkPool {
    pub(crate) recycled: Vec<ComponentChunk>,
}

impl ComponentChunkPool {
    /// The chunks, the one that is handed out next last.
    pub open(crate) spec fn view(&self) -> Seq<ChunkView> {
        chunk_views(self.recycled@)
    }

    /// Every chunk has storage of the size of a chunk.
    pub open spec fn wf(&self) -> bool {
        forall|i: int| 0 <= i < self@.len() ==> (#[trigger] self@[i]).bytes.len() == CHUNK_SIZE
    }

    pub fn len(&self) -> (r: usize)
        ensures
            r == self@.len(),
    {
        self.recycled.len()
    }
}

impl Default for ComponentChunkPool {
    fn default() -> (r: Self)
        ensures
            r@ == Seq::<ChunkView>::empty(),
            r.wf(),
    {
        let r = ComponentChunkPool { recycled: Vec::new() };
        assert(r@ =~= Seq::<ChunkView>::empty());
        r
    }
}

/// Puts a chunk that is no longer used into the pool.
pub fn recycle_chunk(chunk_pool: &mut ComponentChunkPool, chunk: ComponentChunk)
    requires
        old(chunk_pool).wf(),
        chunk@.bytes.len() == CHUNK_SIZE,
    ensures
        final(chunk_pool).wf(),
        final(chunk_pool)@ == old(chunk_pool)@.push(chunk@),
{
    chunk_pool.recycled.push(chunk);
    assert(chunk_pool@ =~= old(chunk_pool)@.push(chunk@));
}

/// The bytes of a chunk that was never used.
pub open spec fn fresh_bytes() -> Seq<u8> {
    Seq::new(CHUNK_SIZE as nat, |i: int| 0u8)
}

/// A chunk with the given position and layout, its first slot occupied and
/// no occupant recorded. It is the chunk that was recycled last, with the
/// bytes it had, or a new one if the pool is empty.
pub fn component_chunk(
    chunk_pool: &mut ComponentChunkPool,
    chunk_index: ChunkIndex,
    chunk_layout: ComponentChunkLayout,
) -> (r: ComponentChunk)
    requires
        old(chunk_pool).wf(),
    ensures
        final(chunk_pool).wf(),
        old(chunk_pool)@.len() > 0 ==> final(chunk_pool)@ == old(chunk_pool)@.drop_last() && r@.bytes
            == old(chunk_pool)@.last().bytes,
        old(chunk_pool)@.len() == 0 ==> final(chunk_pool)@ == old(chunk_pool)@ && r@.bytes
            == fresh_bytes(),
        r@ == (ChunkView {
            bytes: r@.bytes,
            chunk_index,
            current_component_index: ComponentIndex(0),
            layout: chunk_layout@,
            occupants: Seq::empty(),
        }),
        r@.bytes.len() == CHUNK_SIZE,
{
    if let Some(mut chunk) = chunk_pool.recycled.pop() {
        assert(chunk_pool@ =~= old(chunk_pool)@.drop_last());
        assert(chunk@ == old(chunk_pool)@.last());
        chunk.chunk_index = chunk_index;
        chunk.chunk_layout = chunk_layout;
        chunk.current_component_index = ComponentIndex(0);
        chunk.occupants.clear();
        return chunk;
    }
    let storage: Vec<u8> = allocate_chunk_storage();
    ComponentChunk {
        storage,
        chunk_index,
        current_component_index: ComponentIndex(0),
        chunk_layout,
        occupants: Vec::new(),
    }
}

/// Storage for one new chunk.
pub fn allocate_chunk_storage() -> (r: Vec<u8>)
    ensures
        r@ == fresh_bytes(),
{
    let storage: Vec<u8> = vec![0u8; CHUNK_SIZE];
    assert(storage@ =~= fresh_bytes());
    storage
}

/// Storage for one new chunk, unless there is no memory for it.
pub fn try_allocate_chunk_storage() -> (r: Option<Vec<u8>>)
    ensures
        r matches Some(storage) ==> storage@ == fresh_bytes(),
{
    let mut storage: Vec<u8> = Vec::new();
    // Whether there is memory for the chunk is for the allocator to say. What
    // becomes of the storage after either answer, `chunk_storage_from` states.
    let reserved: bool = match storage.try_reserve(CHUNK_SIZE) {
        Ok(()) => true,
        Err(_) => false,
    };
    let r = chunk_storage_from(storage, reserved);
    assert(zero_filled(Seq::<u8>::empty()) =~= fresh_bytes());
    r
}

/// Puts a new chunk into the pool, and says whether it did: it does not if
/// there is no memory for the chunk.
pub fn stock_chunk_pool(chunk_pool: &mut ComponentChunkPool) -> (r: bool)
    requires
        old(chunk_pool).wf(),
    ensures
        final(chunk_pool).wf(),
        r ==> final(chunk_pool)@ == old(chunk_pool)@.push(stocked_chunk(fresh_bytes())),
        !r ==> final(chunk_pool)@ == old(chunk_pool)@,
{
    let storage = try_allocate_chunk_storage();
    pool_chunk_storage(chunk_pool, storage)
}

/// The bytes cut or filled with zeros to the size of a chunk.
pub open spec fn zero_filled(bytes: Seq<u8>) -> Seq<u8> {
    Seq::new(
        CHUNK_SIZE as nat,
        |i: int|
            if i < bytes.len() {
                bytes[i]
            } else {
                0u8
            },
    )
}

/// What becomes of storage for which memory was asked: if the memory was
/// reserved, the storage filled with zeros to the size of a chunk, else
/// nothing.
pub fn chunk_storage_from(storage: Vec<u8>, reserved: bool) -> (r: Option<Vec<u8>>)
    ensures
        r.is_some() == reserved,
        r matches Some(filled) ==> filled@ == zero_filled(storage@),
{
    if reserved {
        let mut filled = storage;
        filled.resize(CHUNK_SIZE, 0u8);
        assert(filled@ =~= zero_filled(storage@));
        Some(filled)
    } else {
        None
    }
}

/// A chunk that waits in the pool with the given bytes: at no position, with
/// no column and no occupant.
pub open spec fn stocked_chunk(bytes: Seq<u8>) -> ChunkView {
    ChunkView {
        bytes,
        chunk_index: ChunkIndex(0),
        current_component_index: ComponentIndex(0),
        layout: ChunkLayoutView { max_slots: 0, streams: Seq::empty() },
        occupants: Seq::empty(),
    }
}

/// Puts a chunk with the given storage into the pool, if there is storage,
/// and says whether there was.
pub fn pool_chunk_storage(chunk_pool: &mut ComponentChunkPool, storage: Option<Vec<u8>>) -> (r: bool)
    requires
        old(chunk_pool).wf(),
        storage matches Some(bytes) ==> bytes@.len() == CHUNK_SIZE,
    ensures
        final(chunk_pool).wf(),
        r == storage.is_some(),
        final(chunk_pool)@ == match storage {
            Some(bytes) => old(chunk_pool)@.push(stocked_chunk(bytes@)),
            None => old(chunk_pool)@,
        },
{
    match storage {
        Some(storage) => {
            let chunk = ComponentChunk {
                storage,
                chunk_index: ChunkIndex(0),
                current_component_index: ComponentIndex(0),
                chunk_layout: component_chunk_layout(0, Vec::new()),
                occupants: Vec::new(),
            };
            assert(chunk@ =~= stocked_chunk(chunk@.bytes));
            recycle_chunk(chunk_pool, chunk);
            true
        },
        None => false,
    }
}

/// The chunks of one archetype, in order.
pub struct ComponentChunks {
    pub(crate) inner: Vec<ComponentChunk>,
}

/// Every chunk is well formed and knows its position, all chunks have the
/// same layout, and every chunk but the last is full.
pub open spec fn chunks_wf(chunks: Seq<ChunkView>) -> bool {
    forall|c: int|
        0 <= c < chunks.len() ==> {
            &&& (#[trigger] chunks[c]).wf()
            &&& chunks[c].chunk_index.0 == c
            &&& chunks[c].layout == chunks[0].layout
            &&& c < chunks.len() - 1 ==> chunks[c].is_full()
        }
}

/// Number of occupied slots in all the chunks together.
pub open spec fn occupied_slots(chunks: Seq<ChunkView>) -> int
    decreases chunks.len(),
{
    if chunks.len() == 0 {
        0
    } else {
        occupied_slots(chunks.drop_last()) + chunks.last().occupied()
    }
}

impl ComponentChunks {
    /// The chunks, in order.
    pub open(crate) spec fn view(&self) -> Seq<ChunkView> {
        chunk_views(self.inner@)
    }

    pub fn len(&self) -> (r: usize)
        ensures
            r == self@.len(),
    {
        self.inner.len()
    }
}

impl Default for ComponentChunks {
    fn default() -> (r: Self)
        ensures
            r@ == Seq::<ChunkView>::empty(),
    {
        let r = ComponentChunks { inner: Vec::new() };
        assert(r@ =~= Seq::<ChunkView>::empty());
        r
    }
}

/// A list without chunks.
pub fn create_component_chunks() -> (r: ComponentChunks)
    ensures
        r@ == Seq::<ChunkView>::empty(),
{
    ComponentChunks::default()
}

/// Appends a chunk to the list.
pub fn add_chunk(chunks: &mut ComponentChunks, chunk: ComponentChunk)
    ensures
        final(chunks)@ == old(chunks)@.push(chunk@),
{
    chunks.inner.push(chunk);
    assert(chunks@ =~= old(chunks)@.push(chunk@));
}

/// Takes the last chunk off the list, if there is one.
pub fn remove_last_chunk(chunks: &mut ComponentChunks) -> (r: Option<ComponentChunk>)
    ensures
        old(chunks)@.len() == 0 ==> r.is_none() && final(chunks)@ == old(chunks)@,
        old(chunks)@.len() > 0 ==> {
            &&& r.is_some()
            &&& r.unwrap()@ == old(chunks)@.last()
            &&& final(chunks)@ == old(chunks)@.drop_last()
        },
{
    let r = chunks.inner.pop();
    assert(old(chunks)@.len() > 0 ==> chunks@ =~= old(chunks)@.drop_last());
    assert(old(chunks)@.len() == 0 ==> chunks@ =~= old(chunks)@);
    r
}

/// The chunk at the given position, to be changed.
pub fn get_chunk_mut(chunks: &mut ComponentChunks, index: ChunkIndex) -> (r: &mut ComponentChunk)
    requires
        index.0 < old(chunks)@.len(),
    ensures
        r@ == old(chunks)@[index.0 as int],
        final(chunks)@ == old(chunks)@.update(index.0 as int, final(r)@),
{
    let r = &mut chunks.inner[index.0];
    proof {
        let changed = old(chunks).inner@.update(index.0 as int, *final(r));
        assert(chunk_views(changed) =~= old(chunks)@.update(index.0 as int, final(r)@));
    }
    r
}

/// The chunk at the given position.
pub fn get_chunk(chunks: &ComponentChunks, index: ChunkIndex) -> (r: &ComponentChunk)
    requires
        index.0 < chunks@.len(),
    ensures
        r@ == chunks@[index.0 as int],
{
    &chunks.inner[index.0]
}

/// Whether a new entity needs a new chunk: there is no chunk, or the last
/// one is full.
pub fn are_chunks_full(chunks: &ComponentChunks) -> (r: bool)
    requires
        chunks@.len() > 0 ==> chunks@.last().layout.max_slots >= 1,
    ensures
        r == (chunks@.len() == 0 || chunks@.last().is_full()),
{
    let n: usize = chunks.inner.len();
    if n > 0 {
        return is_chunk_full(&chunks.inner[n - 1]);
    }
    true
}

/// Position of the last chunk.
pub fn current_chunk_index(chunks: &ComponentChunks) -> (r: ChunkIndex)
    requires
        chunks@.len() > 0,
    ensures
        r.0 == chunks@.len() - 1,
{
    ChunkIndex(chunks.inner.len() - 1)
}

/// Position that the next chunk will have.
pub fn next_chunk_index(chunks: &ComponentChunks) -> (r: ChunkIndex)
    ensures
        r.0 == chunks@.len(),
{
    ChunkIndex(chunks.inner.len())
}

/// Writes the component of the given type into the given slot.
pub fn store_component_at_location(
    chunks: &mut ComponentChunks,
    location: ArchetypeEntityLocation,
    component_type: ComponentTypeId,
    component: &[u8],
)
    requires
        location.chunk.0 < old(chunks)@.len(),
        old(chunks)@[location.chunk.0 as int].wf(),
        old(chunks)@[location.chunk.0 as int].layout.has_component(component_type.token()),
        location.component.0 < old(chunks)@[location.chunk.0 as int].layout.max_slots,
        component@.len() == old(chunks)@[location.chunk.0 as int].layout.stride_of(
            component_type.token(),
        ),
    ensures
        final(chunks)@ == old(chunks)@.update(
            location.chunk.0 as int,
            final(chunks)@[location.chunk.0 as int],
        ),
        final(chunks)@[location.chunk.0 as int].wf(),
        old(chunks)@[location.chunk.0 as int].same_except_cell(
            final(chunks)@[location.chunk.0 as int],
            old(chunks)@[location.chunk.0 as int].layout.column_of(component_type.token()),
            location.component.0 as int,
        ),
        final(chunks)@[location.chunk.0 as int].component(
            component_type.token(),
            location.component.0 as int,
        ) == component@,
{
    let chunk = get_chunk_mut(chunks, location.chunk);
    store_component_in_chunk(chunk, component_type, location.component, component);
}


/// The chunks after the `size` bytes at `source_offset` in one chunk and
/// those at `target_offset` in another, or the same, have changed places.
pub open spec fn swapped_ranges(
    chunks: Seq<ChunkView>,
    source_chunk: int,
    target_chunk: int,
    source_offset: int,
    target_offset: int,
    size: int,
) -> Seq<ChunkView> {
    let moved = chunks[source_chunk].bytes.subrange(source_offset, source_offset + size);
    let other = chunks[target_chunk].bytes.subrange(target_offset, target_offset + size);
    let first = chunks.update(
        source_chunk,
        ChunkView {
            bytes: write_range(chunks[source_chunk].bytes, source_offset, other),
            ..chunks[source_chunk]
        },
    );
    first.update(
        target_chunk,
        ChunkView {
            bytes: write_range(first[target_chunk].bytes, target_offset, moved),
            ..first[target_chunk]
        },
    )
}

/// Exchanges the `size` bytes at `source_offset` of one chunk with those at
/// `target_offset` of another, or of the same, and returns the bytes that
/// were at `source_offset`.
pub fn swap_read_component_in_chunk_storage(
    chunks: &mut ComponentChunks,
    source_chunk: ChunkIndex,
    target_chunk: ChunkIndex,
    source_offset: usize,
    target_offset: usize,
    size: usize,
) -> (r: Vec<u8>)
    requires
        source_chunk.0 < old(chunks)@.len(),
        target_chunk.0 < old(chunks)@.len(),
        source_offset + size <= old(chunks)@[source_chunk.0 as int].bytes.len(),
        target_offset + size <= old(chunks)@[target_chunk.0 as int].bytes.len(),
        source_chunk == target_chunk ==> source_offset == target_offset || source_offset + size
            <= target_offset || target_offset + size <= source_offset,
    ensures
        r@ == old(chunks)@[source_chunk.0 as int].bytes.subrange(
            source_offset as int,
            source_offset + size,
        ),
        final(chunks)@ == swapped_ranges(
            old(chunks)@,
            source_chunk.0 as int,
            target_chunk.0 as int,
            source_offset as int,
            target_offset as int,
            size as int,
        ),
{
    let ghost before = chunks@;
    let ghost expected = swapped_ranges(
        before,
        source_chunk.0 as int,
        target_chunk.0 as int,
        source_offset as int,
        target_offset as int,
        size as int,
    );
    let moved = copy_component_from_chunk_storage(get_chunk(chunks, source_chunk), source_offset, size);
    if source_chunk.0 != target_chunk.0 || source_offset != target_offset {
        let other = copy_component_from_chunk_storage(
            get_chunk(chunks, target_chunk),
            target_offset,
            size,
        );
        store_component_in_chunk_at_offset(
            get_chunk_mut(chunks, source_chunk),
            source_offset,
            other.as_slice(),
        );
        store_component_in_chunk_at_offset(
            get_chunk_mut(chunks, target_chunk),
            target_offset,
            moved.as_slice(),
        );
        assert(chunks@ =~= expected);
    } else {
        proof {
            let bytes = before[source_chunk.0 as int].bytes;
            assert(write_range(bytes, source_offset as int, moved@) =~= bytes);
            assert(expected[source_chunk.0 as int] =~= before[source_chunk.0 as int]);
            assert(expected =~= before);
        }
    }
    moved
}

/// The second list of chunks is the first with the values of two cells of
/// column `k` exchanged: the one of slot `s1` in chunk `c1` and the one of
/// slot `s2` in chunk `c2`.
pub open spec fn cells_swapped(
    before: Seq<ChunkView>,
    after: Seq<ChunkView>,
    k: int,
    c1: int,
    s1: int,
    c2: int,
    s2: int,
) -> bool {
    &&& after.len() == before.len()
    &&& forall|c: int| 0 <= c < before.len() ==> (#[trigger] before[c]).same_shape(after[c])
    &&& after[c1].cell(k, s1) == before[c2].cell(k, s2)
    &&& after[c2].cell(k, s2) == before[c1].cell(k, s1)
    &&& forall|c: int, k2: int, s: int|
        0 <= c < before.len() && 0 <= k2 < before[c].layout.streams.len() && 0 <= s
            < before[c].layout.max_slots && !(k2 == k && ((c == c1 && s == s1) || (c == c2 && s
            == s2))) ==> #[trigger] after[c].cell(k2, s) == before[c].cell(k2, s)
}

/// Exchanging the byte ranges of two cells of one column exchanges the values
/// of the two cells and leaves every other cell as it was.
pub proof fn lemma_swapped_ranges_cells(
    before: Seq<ChunkView>,
    k: int,
    c1: int,
    s1: int,
    c2: int,
    s2: int,
)
    requires
        0 <= c1 < before.len(),
        0 <= c2 < before.len(),
        before[c1].wf(),
        before[c2].wf(),
        before[c1].layout == before[c2].layout,
        forall|c: int| 0 <= c < before.len() ==> (#[trigger] before[c]).wf(),
        0 <= k < before[c1].layout.streams.len(),
        0 <= s1 < before[c1].layout.max_slots,
        0 <= s2 < before[c1].layout.max_slots,
    ensures
        cells_swapped(
            before,
            swapped_ranges(
                before,
                c1,
                c2,
                before[c1].layout.cell_start(k, s1),
                before[c1].layout.cell_start(k, s2),
                before[c1].layout.streams[k].stride as int,
            ),
            k,
            c1,
            s1,
            c2,
            s2,
        ),
{
    let layout = before[c1].layout;
    let o1 = layout.cell_start(k, s1);
    let o2 = layout.cell_start(k, s2);
    let size = layout.streams[k].stride as int;
    let after = swapped_ranges(before, c1, c2, o1, o2, size);
    let moved = before[c1].bytes.subrange(o1, o1 + size);
    let other = before[c2].bytes.subrange(o2, o2 + size);
    let first = before.update(
        c1,
        ChunkView { bytes: write_range(before[c1].bytes, o1, other), ..before[c1] },
    );
    lemma_cell_in_chunk(layout, k, s1);
    lemma_cell_in_chunk(layout, k, s2);
    lemma_write_range(before[c1].bytes, o1, other, 0, 0);
    lemma_write_range(first[c2].bytes, o2, moved, 0, 0);
    if c1 == c2 && s1 != s2 {
        lemma_cells_disjoint(layout, k, s1, k, s2);
        lemma_write_range(first[c2].bytes, o2, moved, o1, o1 + size);
    }
    if c1 == c2 && s1 == s2 {
        assert(other == moved);
    }
    assert(after[c1].cell(k, s1) == before[c2].cell(k, s2));
    assert(after[c2].cell(k, s2) == before[c1].cell(k, s1));
    assert forall|c: int, k2: int, s: int|
        0 <= c < before.len() && 0 <= k2 < before[c].layout.streams.len() && 0 <= s
            < before[c].layout.max_slots && !(k2 == k && ((c == c1 && s == s1) || (c == c2 && s
            == s2))) implies #[trigger] after[c].cell(k2, s) == before[c].cell(k2, s) by {
        let low = before[c].layout.cell_start(k2, s);
        let high = before[c].layout.cell_end(k2, s);
        lemma_cell_in_chunk(before[c].layout, k2, s);
        if c == c1 {
            lemma_cells_disjoint(layout, k, s1, k2, s);
            lemma_write_range(before[c1].bytes, o1, other, low, high);
        }
        if c == c2 {
            lemma_cells_disjoint(layout, k, s2, k2, s);
            lemma_write_range(first[c2].bytes, o2, moved, low, high);
        }
    }
}


/// The occupied slots of the chunk at position `chunk`, in order.
pub open spec fn chunk_slots(chunk: int, view: ChunkView) -> Seq<ArchetypeEntityLocation> {
    Seq::new(
        view.occupied() as nat,
        |slot: int|
            ArchetypeEntityLocation {
                chunk: ChunkIndex(chunk as usize),
                component: ComponentIndex(slot as usize),
            },
    )
}

/// The occupied slots of the chunks from position `from` on, chunk by chunk
/// and in each chunk from the first slot to the last occupied one.
pub open spec fn slots_from(chunks: Seq<ChunkView>, from: int) -> Seq<ArchetypeEntityLocation>
    decreases chunks.len() - from,
{
    if from < 0 || from >= chunks.len() {
        Seq::empty()
    } else {
        chunk_slots(from, chunks[from]) + slots_from(chunks, from + 1)
    }
}

/// Walks over the occupied slots of a list of chunks, once and in order.
pub struct ArchetypeComponentIterator<'a> {
    pub(crate) chunks: &'a ComponentChunks,
    pub(crate) position: usize,
    pub(crate) current: Option<(ChunkIndex, ComponentIndex)>,
}

impl<'a> ArchetypeComponentIterator<'a> {
    /// The chunks that the iterator walks over.
    pub open(crate) spec fn chunks(&self) -> Seq<ChunkView> {
        self.chunks@
    }

    /// Position of the first chunk that was not entered yet.
    pub open(crate) spec fn position(&self) -> int {
        self.position as int
    }

    /// The slot that is yielded next, if the iterator is inside a chunk.
    pub open(crate) spec fn current(&self) -> Option<(ChunkIndex, ComponentIndex)> {
        self.current
    }

    /// The iterator is inside the chunk before its position, at an occupied
    /// slot, or between chunks.
    pub open spec fn wf(&self) -> bool {
        &&& 0 <= self.position() <= self.chunks().len()
        &&& self.current() matches Some((chunk, slot)) ==> chunk.0 + 1 == self.position() && slot.0
            <= self.chunks()[chunk.0 as int].current_component_index.0
    }

    /// The slots that are still to come, in order.
    pub open spec fn remaining(&self) -> Seq<ArchetypeEntityLocation> {
        match self.current() {
            Some((chunk, slot)) => chunk_slots(chunk.0 as int, self.chunks()[chunk.0 as int]).skip(
                slot.0 as int,
            ) + slots_from(self.chunks(), self.position()),
            None => slots_from(self.chunks(), self.position()),
        }
    }

    /// The next occupied slot with its chunk, if there is one.
    pub fn next(&mut self) -> (r: Option<(&'a ComponentChunk, ComponentIndex)>)
        requires
            old(self).wf(),
        ensures
            final(self).wf(),
            final(self).chunks() == old(self).chunks(),
            match r {
                Some((chunk, slot)) => {
                    &&& old(self).remaining().len() > 0
                    &&& old(self).remaining()[0].component == slot
                    &&& old(self).remaining()[0].chunk.0 < old(self).chunks().len()
                    &&& chunk@ == old(self).chunks()[old(self).remaining()[0].chunk.0 as int]
                    &&& final(self).remaining() == old(self).remaining().drop_first()
                },
                None => old(self).remaining().len() == 0 && final(self).remaining().len() == 0,
            },
    {
        if self.current.is_none() {
            if self.position < self.chunks.len() {
                self.current = Some((ChunkIndex(self.position), ComponentIndex(0)));
                self.position += 1;
                proof {
                    let slots = chunk_slots(
                        old(self).position(),
                        self.chunks()[old(self).position()],
                    );
                    assert(slots.skip(0) =~= slots);
                }
            } else {
                return None;
            }
        }
        let (chunk_index, slot) = self.current.unwrap();
        let chunk = get_chunk(self.chunks, chunk_index);
        let ghost slots = chunk_slots(chunk_index.0 as int, self.chunks()[chunk_index.0 as int]);
        let ghost rest = slots_from(self.chunks(), self.position());
        proof {
            assert(old(self).remaining() == slots.skip(slot.0 as int) + rest);
            assert((slots.skip(slot.0 as int) + rest)[0] == slots[slot.0 as int]);
            assert((slots.skip(slot.0 as int) + rest).drop_first() =~= slots.skip(slot.0 + 1) + rest);
        }
        if slot.0 == chunk.current_component_index().0 {
            self.current = None;
            proof {
                assert(slots.skip(slot.0 + 1) =~= Seq::<ArchetypeEntityLocation>::empty());
                assert(Seq::<ArchetypeEntityLocation>::empty() + rest =~= rest);
            }
        } else {
            self.current = Some((chunk_index, ComponentIndex(slot.0 + 1)));
        }
        Some((chunk, slot))
    }
}

impl ComponentChunks {
    /// An iterator over the occupied slots of the chunks.
    pub fn component_iter(&self) -> (r: ArchetypeComponentIterator<'_>)
        ensures
            r.wf(),
            r.chunks() == self@,
            r.remaining() == slots_from(self@, 0),
    {
        ArchetypeComponentIterator { chunks: self, position: 0, current: None }
    }
}

} // verus!
