//! Archetypes and their registry: one archetype for each set of component
//! types, found again by that set.

use crate::ecs::components::{
    add_chunk, are_chunks_full, chunks_wf, component_chunk, create_component_chunks,
    current_chunk_index, fresh_bytes, get_chunk, get_chunk_mut, next_chunk_index, occupied_slots,
    recycle_chunk, remove_last_chunk, ChunkIndex, ChunkView, ComponentChunkPool, ComponentChunks,
};
use crate::ecs::entities::{Entity, EntityLocation};
use crate::ecs::layout::{
    copy_layout_components, deduce_chunk_layout, deduced_layout, lemma_deduced_layout_wf,
    tokens_of, ComponentIndex, ComponentTypeId, EntityLayout, EntityLayoutView, CHUNK_SIZE,
};
use crate::ecs::querying::{all_types_in, LayoutFilter};
use vstd::prelude::*;

verus! {

/// Position of an archetype in the registry.
#[derive(Clone, Copy, Debug, Default, PartialEq, Eq, Structural)]
pub struct ArchetypeIndex(pub usize);

/// A slot of an archetype: a chunk and a slot inside it.
#[derive(Clone, Copy, Debug, PartialEq, Eq, Structural)]
pub struct ArchetypeEntityLocation {
    pub chunk: ChunkIndex,
    pub component: ComponentIndex,
}

/// The slot at the given position of the given chunk.
pub fn create_archetype_entity_location(chunk: ChunkIndex, component: ComponentIndex) -> (r:
    ArchetypeEntityLocation)
    ensures
        r == (ArchetypeEntityLocation { chunk, component }),
{
    ArchetypeEntityLocation { chunk, component }
}

/// The component types of every archetype, by archetype position.
pub struct ArchetypeComponentSearchIndex {
    pub(crate) component_slices: Vec<Vec<ComponentTypeId>>,
}

impl ArchetypeComponentSearchIndex {
    /// The component types of each archetype, by archetype position.
    pub open(crate) spec fn view(&self) -> Seq<Seq<ComponentTypeId>> {
        Seq::new(self.component_slices@.len(), |i: int| self.component_slices@[i]@)
    }

    /// Number of archetypes in the index.
    pub fn len(&self) -> (r: usize)
        ensures
            r == self@.len(),
    {
        self.component_slices.len()
    }
}

/// A search index without archetypes.
pub fn archetype_component_search_index() -> (r: ArchetypeComponentSearchIndex)
    ensures
        r@ == Seq::<Seq<ComponentTypeId>>::empty(),
{
    let r = ArchetypeComponentSearchIndex { component_slices: Vec::new() };
    assert(r@ =~= Seq::<Seq<ComponentTypeId>>::empty());
    r
}

/// Appends the component types of the layout to the search index.
pub fn push_layout_to_search(search_index: &mut ArchetypeComponentSearchIndex, layout: &EntityLayout)
    ensures
        final(search_index)@ == old(search_index)@.push(layout@.components),
{
    search_index.component_slices.push(copy_layout_components(layout));
    assert(search_index@ =~= old(search_index)@.push(layout@.components));
}

/// The positions from `from` up to, but not including, `upto` whose component
/// types pass the filter, in increasing order.
pub open spec fn matching_indices<F: LayoutFilter>(
    index: Seq<Seq<ComponentTypeId>>,
    filter: &F,
    from: int,
    upto: int,
) -> Seq<ArchetypeIndex>
    decreases upto - from,
{
    if upto <= from {
        Seq::empty()
    } else {
        let rest = matching_indices(index, filter, from, upto - 1);
        if filter.matches_spec(index[upto - 1]) {
            rest.push(ArchetypeIndex((upto - 1) as usize))
        } else {
            rest
        }
    }
}

/// The matching positions are exactly the positions in range that pass the
/// filter, each once and in increasing order.
pub proof fn lemma_matching_indices<F: LayoutFilter>(
    index: Seq<Seq<ComponentTypeId>>,
    filter: &F,
    from: int,
    upto: int,
)
    requires
        0 <= from,
        upto <= index.len() <= usize::MAX,
    ensures
        forall|k: int|
            0 <= k < matching_indices(index, filter, from, upto).len() ==> {
                let i = (#[trigger] matching_indices(index, filter, from, upto)[k]).0;
                from <= i < upto && filter.matches_spec(index[i as int])
            },
        forall|k: int, l: int|
            0 <= k < l < matching_indices(index, filter, from, upto).len() ==> (
            #[trigger] matching_indices(index, filter, from, upto)[k]).0 < (#[trigger] matching_indices(
                index,
                filter,
                from,
                upto,
            )[l]).0,
        forall|i: int|
            from <= i < upto && filter.matches_spec(#[trigger] index[i]) ==> matching_indices(
                index,
                filter,
                from,
                upto,
            ).contains(ArchetypeIndex(i as usize)),
    decreases upto - from,
{
    if upto > from {
        lemma_matching_indices(index, filter, from, upto - 1);
        let rest = matching_indices(index, filter, from, upto - 1);
        let all = matching_indices(index, filter, from, upto);
        assert forall|i: int| from <= i < upto && filter.matches_spec(#[trigger] index[i]) implies all.contains(
            ArchetypeIndex(i as usize),
        ) by {
            if i < upto - 1 {
                let k = choose|k: int| 0 <= k < rest.len() && rest[k] == ArchetypeIndex(i as usize);
                assert(all[k] == ArchetypeIndex(i as usize));
            } else {
                assert(all[rest.len() as int] == ArchetypeIndex(i as usize));
            }
        }
    }
}

/// The positions from `from_position` on of the archetypes whose component
/// types pass the filter, in increasing order.
pub fn search_archetypes_for<F: LayoutFilter>(
    search_index: &ArchetypeComponentSearchIndex,
    filter: &F,
    from_position: usize,
) -> (r: Vec<ArchetypeIndex>)
    ensures
        r@ == matching_indices(
            search_index@,
            filter,
            from_position as int,
            search_index@.len() as int,
        ),
{
    let mut found: Vec<ArchetypeIndex> = Vec::new();
    let mut i: usize = from_position;
    while i < search_index.component_slices.len()
        invariant
            from_position <= i,
            found@ == matching_indices(
                search_index@,
                filter,
                from_position as int,
                if i <= search_index@.len() {
                    i as int
                } else {
                    search_index@.len() as int
                },
            ),
        decreases search_index@.len() - i,
    {
        if filter.matches_layout(search_index.component_slices[i].as_slice()).is_pass() {
            found.push(ArchetypeIndex(i));
        }
        i += 1;
    }
    found
}

/// All the entities that hold exactly the component types of one layout:
/// the layout, the position in the registry, and the chunks that store the
/// components.
pub struct Archetype {
    pub(crate) layout: EntityLayout,
    pub(crate) index: ArchetypeIndex,
    pub(crate) chunks: ComponentChunks,
}

/// What an archetype holds.
#[verifier::ext_equal]
pub struct ArchetypeView {
    pub layout: EntityLayoutView,
    pub index: ArchetypeIndex,
    pub chunks: Seq<ChunkView>,
}

impl ArchetypeView {
    /// The layout is well formed and its entities fit in a chunk; the chunks
    /// are well formed, with the placement that the layout determines.
    pub open spec fn wf(&self) -> bool {
        &&& self.layout.wf()
        &&& self.layout.fits_chunk()
        &&& chunks_wf(self.chunks)
        &&& forall|c: int|
            0 <= c < self.chunks.len() ==> (#[trigger] self.chunks[c]).layout == deduced_layout(
                self.layout,
            )
    }

    /// The slot is occupied.
    pub open spec fn valid_slot(&self, location: ArchetypeEntityLocation) -> bool {
        &&& location.chunk.0 < self.chunks.len()
        &&& location.component.0 <= self.chunks[location.chunk.0 as int].current_component_index.0
    }

    /// The last occupied slot.
    pub open spec fn tail(&self) -> ArchetypeEntityLocation {
        ArchetypeEntityLocation {
            chunk: ChunkIndex((self.chunks.len() - 1) as usize),
            component: self.chunks.last().current_component_index,
        }
    }

    /// A new entity needs a new chunk: there is no chunk, or the last one is
    /// full.
    pub open spec fn is_full(&self) -> bool {
        self.chunks.len() == 0 || self.chunks.last().is_full()
    }

    /// The archetype with one more slot occupied: the next slot of the last
    /// chunk or, if there is none, the first slot of a new chunk with the
    /// given bytes.
    pub open spec fn with_slot_reserved(&self, bytes: Seq<u8>) -> ArchetypeView {
        if self.is_full() {
            ArchetypeView {
                chunks: self.chunks.push(
                    ChunkView {
                        bytes,
                        chunk_index: ChunkIndex(self.chunks.len() as usize),
                        current_component_index: ComponentIndex(0),
                        layout: deduced_layout(self.layout),
                        occupants: Seq::empty(),
                    },
                ),
                ..*self
            }
        } else {
            ArchetypeView {
                chunks: self.chunks.update(
                    self.chunks.len() - 1,
                    ChunkView {
                        current_component_index: ComponentIndex(
                            (self.chunks.last().current_component_index.0 + 1) as usize,
                        ),
                        ..self.chunks.last()
                    },
                ),
                ..*self
            }
        }
    }

    /// The archetype with its last occupied slot given up; a chunk that is
    /// left without an occupied slot leaves the list.
    pub open spec fn with_slot_released(&self) -> ArchetypeView {
        if self.chunks.last().current_component_index.0 > 0 {
            ArchetypeView {
                chunks: self.chunks.update(
                    self.chunks.len() - 1,
                    ChunkView {
                        current_component_index: ComponentIndex(
                            (self.chunks.last().current_component_index.0 - 1) as usize,
                        ),
                        ..self.chunks.last()
                    },
                ),
                ..*self
            }
        } else {
            ArchetypeView { chunks: self.chunks.drop_last(), ..*self }
        }
    }

    /// The archetype with the given entity recorded as the next occupant of
    /// the given chunk.
    pub open spec fn with_occupant_recorded(&self, chunk: ChunkIndex, entity: Entity) -> ArchetypeView {
        ArchetypeView {
            chunks: self.chunks.update(
                chunk.0 as int,
                ChunkView {
                    occupants: self.chunks[chunk.0 as int].occupants.push(entity),
                    ..self.chunks[chunk.0 as int]
                },
            ),
            ..*self
        }
    }

    /// The archetype with the occupant of the given slot taken out of the
    /// record: the occupant that was recorded last takes its place.
    pub open spec fn with_occupant_removed(&self, location: ArchetypeEntityLocation) -> ArchetypeView {
        let last = self.chunks.len() - 1;
        let moved = self.chunks[last].occupants.last();
        let dropped = self.chunks.update(
            last,
            ChunkView { occupants: self.chunks[last].occupants.drop_last(), ..self.chunks[last] },
        );
        if location.chunk.0 == last && location.component.0 == self.chunks[last].occupants.len() - 1 {
            ArchetypeView { chunks: dropped, ..*self }
        } else {
            ArchetypeView {
                chunks: dropped.update(
                    location.chunk.0 as int,
                    ChunkView {
                        occupants: dropped[location.chunk.0 as int].occupants.update(
                            location.component.0 as int,
                            moved,
                        ),
                        ..dropped[location.chunk.0 as int]
                    },
                ),
                ..*self
            }
        }
    }

    /// Every chunk has the entity of each occupied slot recorded.
    pub open spec fn tracks_occupants(&self) -> bool {
        forall|c: int| 0 <= c < self.chunks.len() ==> (#[trigger] self.chunks[c]).tracks_occupants()
    }

    /// The entity recorded for the slot.
    pub open spec fn occupant(&self, location: ArchetypeEntityLocation) -> Entity {
        self.chunks[location.chunk.0 as int].occupants[location.component.0 as int]
    }

    /// The components stored in the slot, by the token of their type.
    pub open spec fn row(&self, location: ArchetypeEntityLocation) -> Map<u64, Seq<u8>> {
        Map::new(
            |token: u64| self.layout.type_set().contains(token),
            |token: u64|
                self.chunks[location.chunk.0 as int].component(token, location.component.0 as int),
        )
    }
}

impl Archetype {
    /// What the archetype holds.
    pub open(crate) spec fn view(&self) -> ArchetypeView {
        ArchetypeView { layout: self.layout@, index: self.index, chunks: self.chunks@ }
    }

    /// The component types of the archetype.
    pub fn layout(&self) -> (r: &EntityLayout)
        ensures
            r@ == self@.layout,
    {
        &self.layout
    }

    /// Position of the archetype in the registry.
    pub fn index(&self) -> (r: ArchetypeIndex)
        ensures
            r == self@.index,
    {
        self.index
    }

    /// The chunks that store the components.
    pub fn chunks(&self) -> (r: &ComponentChunks)
        ensures
            r@ == self@.chunks,
    {
        &self.chunks
    }

    /// The chunks, to be changed.
    pub fn chunks_mut(&mut self) -> (r: &mut ComponentChunks)
        ensures
            r@ == old(self)@.chunks,
            final(self)@ == (ArchetypeView { chunks: final(r)@, ..old(self)@ }),
    {
        &mut self.chunks
    }
}

/// An archetype without entities.
pub fn create_archetype(layout: EntityLayout, index: ArchetypeIndex) -> (r: Archetype)
    ensures
        r@ == (ArchetypeView { layout: layout@, index, chunks: Seq::empty() }),
{
    Archetype { layout, index, chunks: create_component_chunks() }
}

/// The views of a sequence of archetypes, in the same order.
pub open spec fn archetype_views(archetypes: Seq<Archetype>) -> Seq<ArchetypeView> {
    Seq::new(archetypes.len(), |i: int| archetypes[i]@)
}

/// The registry of archetypes, with the pool of chunks that none of them
/// uses and the index by which they are searched.
pub struct Archetypes {
    pub(crate) inner: Vec<Archetype>,
    pub(crate) chunk_pool: ComponentChunkPool,
    pub(crate) search_index: ArchetypeComponentSearchIndex,
}

/// What a registry holds.
#[verifier::ext_equal]
pub struct ArchetypesView {
    /// The archetypes, in the order of their creation.
    pub archetypes: Seq<ArchetypeView>,
    /// The chunks that no archetype uses.
    pub pool: Seq<ChunkView>,
    /// The component types of each archetype, by position.
    pub search_index: Seq<Seq<ComponentTypeId>>,
}

impl ArchetypesView {
    /// Every archetype is well formed and knows its position, the search
    /// index lists the component types of each, no two archetypes have the
    /// same set of component types, and the pooled chunks have storage of the
    /// size of a chunk.
    pub open spec fn wf(&self) -> bool {
        &&& self.search_index.len() == self.archetypes.len()
        &&& forall|i: int|
            0 <= i < self.archetypes.len() ==> {
                &&& (#[trigger] self.archetypes[i]).wf()
                &&& self.archetypes[i].index.0 == i
                &&& self.search_index[i] == self.archetypes[i].layout.components
            }
        &&& forall|i: int, j: int|
            0 <= i < j < self.archetypes.len() ==> (#[trigger] self.archetypes[i]).layout.type_set()
                != (#[trigger] self.archetypes[j]).layout.type_set()
        &&& forall|i: int| 0 <= i < self.pool.len() ==> (#[trigger] self.pool[i]).bytes.len() == CHUNK_SIZE
    }

    /// Whether there is an archetype for the given set of component types.
    pub open spec fn has_archetype(&self, types: Set<u64>) -> bool {
        exists|i: int|
            0 <= i < self.archetypes.len() && (#[trigger] self.archetypes[i]).layout.type_set()
                == types
    }

    /// The position of the archetype for the given set of component types.
    pub open spec fn archetype_of(&self, types: Set<u64>) -> int {
        choose|i: int|
            0 <= i < self.archetypes.len() && (#[trigger] self.archetypes[i]).layout.type_set()
                == types
    }
}

impl Archetypes {
    /// What the registry holds.
    pub open(crate) spec fn view(&self) -> ArchetypesView {
        ArchetypesView {
            archetypes: archetype_views(self.inner@),
            pool: self.chunk_pool@,
            search_index: self.search_index@,
        }
    }

    /// Number of archetypes.
    pub fn len(&self) -> (r: usize)
        ensures
            r == self@.archetypes.len(),
    {
        self.inner.len()
    }

    /// The index by which the archetypes are searched.
    pub fn search_index(&self) -> (r: &ArchetypeComponentSearchIndex)
        ensures
            r@ == self@.search_index,
    {
        &self.search_index
    }

    /// The chunks that no archetype uses.
    pub fn chunk_pool(&self) -> (r: &ComponentChunkPool)
        ensures
            r@ == self@.pool,
    {
        &self.chunk_pool
    }
}

/// A registry without archetypes.
pub fn archetypes() -> (r: Archetypes)
    ensures
        r@.wf(),
        r@ == (ArchetypesView {
            archetypes: Seq::empty(),
            pool: Seq::empty(),
            search_index: Seq::empty(),
        }),
{
    let r = Archetypes {
        inner: Vec::new(),
        chunk_pool: ComponentChunkPool::default(),
        search_index: archetype_component_search_index(),
    };
    assert(r@ =~= (ArchetypesView {
        archetypes: Seq::empty(),
        pool: Seq::empty(),
        search_index: Seq::empty(),
    }));
    r
}


/// For layouts without duplicate types, holding every type of the other and
/// as many types as it has is having the same set of types.
pub proof fn lemma_exact_match_is_set_equality(layout: EntityLayoutView, components: Seq<ComponentTypeId>)
    requires
        layout.wf(),
        tokens_of(components).no_duplicates(),
    ensures
        (components.len() == layout.components.len() && all_types_in(layout.components, components))
            <==> layout.type_set() == tokens_of(components).to_set(),
{
    let wanted = layout.types();
    let given = tokens_of(components);
    wanted.unique_seq_to_set();
    given.unique_seq_to_set();
    vstd::seq_lib::seq_to_set_is_finite(wanted);
    vstd::seq_lib::seq_to_set_is_finite(given);
    if components.len() == layout.components.len() && all_types_in(layout.components, components) {
        assert forall|t: u64| wanted.to_set().contains(t) implies given.to_set().contains(t) by {
            let i = choose|i: int| 0 <= i < wanted.len() && wanted[i] == t;
            assert(given.contains(wanted[i]));
        }
        vstd::set_lib::lemma_subset_equality(wanted.to_set(), given.to_set());
        assert(wanted.to_set() =~= given.to_set());
    }
    if layout.type_set() == given.to_set() {
        assert forall|i: int| 0 <= i < wanted.len() implies given.contains(#[trigger] wanted[i]) by {
            assert(wanted.to_set().contains(wanted[i]));
        }
    }
}

/// In a well-formed registry the archetype for a set of types is the only
/// one with that set.
pub proof fn lemma_archetype_of(archetypes: ArchetypesView, i: int)
    requires
        archetypes.wf(),
        0 <= i < archetypes.archetypes.len(),
    ensures
        archetypes.has_archetype(archetypes.archetypes[i].layout.type_set()),
        archetypes.archetype_of(archetypes.archetypes[i].layout.type_set()) == i,
{
    let types = archetypes.archetypes[i].layout.type_set();
    let j = archetypes.archetype_of(types);
    assert(0 <= j < archetypes.archetypes.len() && archetypes.archetypes[j].layout.type_set()
        == types);
    if i < j {
        assert(archetypes.archetypes[i].layout.type_set()
            != archetypes.archetypes[j].layout.type_set());
    }
    if j < i {
        assert(archetypes.archetypes[j].layout.type_set()
            != archetypes.archetypes[i].layout.type_set());
    }
}

/// The position of the archetype for the component set of the layout, if
/// there is one.
pub fn find_archetype(archetypes: &Archetypes, layout: &EntityLayout) -> (r: Option<ArchetypeIndex>)
    requires
        archetypes@.wf(),
        layout@.wf(),
    ensures
        match r {
            Some(index) => archetypes@.has_archetype(layout@.type_set()) && index.0
                == archetypes@.archetype_of(layout@.type_set()),
            None => !archetypes@.has_archetype(layout@.type_set()),
        },
{
    let found = search_archetypes_for(&archetypes.search_index, layout, 0);
    proof {
        let view = archetypes@;
        assert(archetypes.inner.len() == view.archetypes.len());
        lemma_matching_indices(view.search_index, layout, 0, view.search_index.len() as int);
        assert forall|i: int| 0 <= i < view.archetypes.len() implies (layout.matches_spec(
            #[trigger] view.search_index[i],
        ) <==> view.archetypes[i].layout.type_set() == layout@.type_set()) by {
            assert(view.archetypes[i].wf());
            lemma_exact_match_is_set_equality(layout@, view.search_index[i]);
        }
        if found@.len() > 0 {
            let i = found@[0].0 as int;
            assert(view.archetypes[i].layout.type_set() == layout@.type_set());
            lemma_archetype_of(view, i);
        } else {
            if view.has_archetype(layout@.type_set()) {
                let i = view.archetype_of(layout@.type_set());
                assert(layout.matches_spec(view.search_index[i]));
                assert(found@.contains(ArchetypeIndex(i as usize)));
            }
        }
    }
    if found.len() > 0 {
        Some(found[0])
    } else {
        None
    }
}

/// Whether there is an archetype for the component set of the layout.
pub fn contains_archetype(archetypes: &Archetypes, layout: &EntityLayout) -> (r: bool)
    requires
        archetypes@.wf(),
        layout@.wf(),
    ensures
        r == archetypes@.has_archetype(layout@.type_set()),
{
    find_archetype(archetypes, layout).is_some()
}

/// The position that the next archetype will have.
pub fn get_next_index(archetypes: &Archetypes) -> (r: ArchetypeIndex)
    ensures
        r.0 == archetypes@.archetypes.len(),
{
    ArchetypeIndex(archetypes.inner.len())
}

/// Appends an archetype to the list of archetypes.
pub fn append_archetype(archetypes: &mut Archetypes, archetype: Archetype)
    ensures
        final(archetypes)@ == (ArchetypesView {
            archetypes: old(archetypes)@.archetypes.push(archetype@),
            ..old(archetypes)@
        }),
{
    archetypes.inner.push(archetype);
    assert(archetypes@.archetypes =~= old(archetypes)@.archetypes.push(archetype@));
}

/// The registry with one more archetype, without entities, for the layout.
pub open spec fn with_new_archetype(
    archetypes: ArchetypesView,
    layout: EntityLayoutView,
) -> ArchetypesView {
    ArchetypesView {
        archetypes: archetypes.archetypes.push(
            ArchetypeView {
                layout,
                index: ArchetypeIndex(archetypes.archetypes.len() as usize),
                chunks: Seq::empty(),
            },
        ),
        pool: archetypes.pool,
        search_index: archetypes.search_index.push(layout.components),
    }
}

/// The registry with an archetype for the component set of the layout: the
/// registry itself if it has one, else the registry with a new archetype for
/// the layout.
pub open spec fn found_or_created(archetypes: ArchetypesView, layout: EntityLayoutView) -> ArchetypesView {
    if archetypes.has_archetype(layout.type_set()) {
        archetypes
    } else {
        with_new_archetype(archetypes, layout)
    }
}

/// Makes the archetype for the component set of the layout, unless there is
/// one already.
pub fn create_archetype_if_non_existant(archetypes: &mut Archetypes, layout: &EntityLayout)
    requires
        old(archetypes)@.wf(),
        layout@.wf(),
        layout@.fits_chunk(),
    ensures
        final(archetypes)@.wf(),
        final(archetypes)@ == found_or_created(old(archetypes)@, layout@),
        final(archetypes)@.has_archetype(layout@.type_set()),
        !old(archetypes)@.has_archetype(layout@.type_set()) ==> final(archetypes)@.archetype_of(
            layout@.type_set(),
        ) == old(archetypes)@.archetypes.len(),
{
    if !contains_archetype(archetypes, layout) {
        let archetype = create_archetype(layout.clone(), get_next_index(archetypes));
        push_layout_to_search(&mut archetypes.search_index, &archetype.layout);
        append_archetype(archetypes, archetype);
        proof {
            let before = old(archetypes)@;
            let after = archetypes@;
            let last = before.archetypes.len() as int;
            assert(after =~= with_new_archetype(before, layout@));
            assert(chunks_wf(after.archetypes[last].chunks));
            assert forall|i: int, j: int| 0 <= i < j < after.archetypes.len() implies (
            #[trigger] after.archetypes[i]).layout.type_set() != (
            #[trigger] after.archetypes[j]).layout.type_set() by {
                if j == last {
                    assert(before.archetypes[i].layout.type_set() != layout@.type_set());
                }
            }
            assert(after.wf());
            lemma_archetype_of(after, last);
        }
    }
}

/// The archetype at the given position.
pub fn get_archetype(archetypes: &Archetypes, index: ArchetypeIndex) -> (r: &Archetype)
    requires
        index.0 < archetypes@.archetypes.len(),
    ensures
        r@ == archetypes@.archetypes[index.0 as int],
{
    &archetypes.inner[index.0]
}

/// The archetype at the given position, to be changed.
pub fn get_archetype_mut(archetypes: &mut Archetypes, index: ArchetypeIndex) -> (r: &mut Archetype)
    requires
        index.0 < old(archetypes)@.archetypes.len(),
    ensures
        r@ == old(archetypes)@.archetypes[index.0 as int],
        final(archetypes)@ == (ArchetypesView {
            archetypes: old(archetypes)@.archetypes.update(index.0 as int, final(r)@),
            ..old(archetypes)@
        }),
{
    let r = &mut archetypes.inner[index.0];
    proof {
        let changed = old(archetypes).inner@.update(index.0 as int, *final(r));
        assert(archetype_views(changed) =~= old(archetypes)@.archetypes.update(
            index.0 as int,
            final(r)@,
        ));
    }
    r
}

/// The archetype in which the location lies.
pub fn get_archetype_for_entity_location(archetypes: &Archetypes, location: EntityLocation) -> (r:
    &Archetype)
    requires
        location.archetype_index.0 < archetypes@.archetypes.len(),
    ensures
        r@ == archetypes@.archetypes[location.archetype_index.0 as int],
{
    get_archetype(archetypes, location.archetype_index)
}

/// The archetype for the component set of the layout, if there is one.
pub fn get_archetype_for_layout<'a>(archetypes: &'a Archetypes, layout: &EntityLayout) -> (r: Option<
    &'a Archetype,
>)
    requires
        archetypes@.wf(),
        layout@.wf(),
    ensures
        match r {
            Some(archetype) => archetypes@.has_archetype(layout@.type_set()) && archetype@
                == archetypes@.archetypes[archetypes@.archetype_of(layout@.type_set())],
            None => !archetypes@.has_archetype(layout@.type_set()),
        },
{
    if let Some(index) = find_archetype(archetypes, layout) {
        return Some(&archetypes.inner[index.0]);
    }
    None
}

/// The archetype for the component set of the layout, to be changed, if
/// there is one.
pub fn get_archetype_for_layout_mut<'a>(archetypes: &'a mut Archetypes, layout: &EntityLayout) -> (r:
    Option<&'a mut Archetype>)
    requires
        old(archetypes)@.wf(),
        layout@.wf(),
    ensures
        match r {
            Some(archetype) => old(archetypes)@.has_archetype(layout@.type_set()) && archetype@
                == old(archetypes)@.archetypes[old(archetypes)@.archetype_of(layout@.type_set())]
                && final(archetypes)@ == (ArchetypesView {
                archetypes: old(archetypes)@.archetypes.update(
                    old(archetypes)@.archetype_of(layout@.type_set()),
                    final(archetype)@,
                ),
                ..old(archetypes)@
            }),
            None => !old(archetypes)@.has_archetype(layout@.type_set()) && final(archetypes)@
                == old(archetypes)@,
        },
{
    if let Some(index) = find_archetype(archetypes, layout) {
        return Some(get_archetype_mut(archetypes, index));
    }
    None
}

/// The archetype for the component set of the layout, made first if there
/// was none.
pub fn get_or_create_archetype_mut<'a>(archetypes: &'a mut Archetypes, layout: &EntityLayout) -> (r:
    &'a mut Archetype)
    requires
        old(archetypes)@.wf(),
        layout@.wf(),
        layout@.fits_chunk(),
    ensures
        r@ == found_or_created(old(archetypes)@, layout@).archetypes[found_or_created(
            old(archetypes)@,
            layout@,
        ).archetype_of(layout@.type_set())],
        final(archetypes)@ == (ArchetypesView {
            archetypes: found_or_created(old(archetypes)@, layout@).archetypes.update(
                r@.index.0 as int,
                final(r)@,
            ),
            ..found_or_created(old(archetypes)@, layout@)
        }),
{
    create_archetype_if_non_existant(archetypes, layout);
    let index = find_archetype(archetypes, layout);
    get_archetype_mut(archetypes, index.unwrap())
}


/// Occupies the next slot of the last chunk of the archetype for the layout.
pub fn increment_current_component_index(archetypes: &mut Archetypes, layout: &EntityLayout)
    requires
        old(archetypes)@.wf(),
        layout@.wf(),
        old(archetypes)@.has_archetype(layout@.type_set()),
        !old(archetypes)@.archetypes[old(archetypes)@.archetype_of(layout@.type_set())].is_full(),
    ensures
        final(archetypes)@.wf(),
        final(archetypes)@ == (ArchetypesView {
            archetypes: old(archetypes)@.archetypes.update(
                old(archetypes)@.archetype_of(layout@.type_set()),
                old(archetypes)@.archetypes[old(archetypes)@.archetype_of(
                    layout@.type_set(),
                )].with_slot_reserved(fresh_bytes()),
            ),
            ..old(archetypes)@
        }),
{
    let ghost index = archetypes@.archetype_of(layout@.type_set());
    let ghost before = archetypes@.archetypes[index];
    let archetype = get_archetype_for_layout_mut(archetypes, layout).unwrap();
    let current_chunk_index = current_chunk_index(&archetype.chunks);
    let chunk = get_chunk_mut(&mut archetype.chunks, current_chunk_index);
    chunk.current_component_index_mut().increment();
    proof {
        let after = archetypes@.archetypes[index];
        assert(after =~= before.with_slot_reserved(fresh_bytes()));
        lemma_update_keeps_wf(old(archetypes)@, archetypes@, index);
    }
}

/// Replacing one archetype by a well-formed one with the same layout and
/// position keeps the registry well formed.
pub proof fn lemma_update_keeps_wf(before: ArchetypesView, after: ArchetypesView, index: int)
    requires
        before.wf(),
        0 <= index < before.archetypes.len(),
        after.archetypes == before.archetypes.update(index, after.archetypes[index]),
        after.archetypes[index].wf(),
        after.archetypes[index].layout == before.archetypes[index].layout,
        after.archetypes[index].index == before.archetypes[index].index,
        after.search_index == before.search_index,
        forall|i: int| 0 <= i < after.pool.len() ==> (#[trigger] after.pool[i]).bytes.len() == CHUNK_SIZE,
    ensures
        after.wf(),
        forall|types: Set<u64>| after.has_archetype(types) == before.has_archetype(types),
        forall|types: Set<u64>|
            before.has_archetype(types) ==> after.archetype_of(types) == before.archetype_of(types),
{
    assert forall|i: int| 0 <= i < after.archetypes.len() implies (#[trigger] after.archetypes[i]).layout
        == before.archetypes[i].layout by {}
    assert forall|i: int, j: int| 0 <= i < j < after.archetypes.len() implies (
    #[trigger] after.archetypes[i]).layout.type_set() != (
    #[trigger] after.archetypes[j]).layout.type_set() by {
        assert(before.archetypes[i].layout.type_set() != before.archetypes[j].layout.type_set());
    }
    assert forall|types: Set<u64>| after.has_archetype(types) == before.has_archetype(types) by {
        if before.has_archetype(types) {
            let i = before.archetype_of(types);
            assert(after.archetypes[i].layout.type_set() == types);
        }
        if after.has_archetype(types) {
            let i = after.archetype_of(types);
            assert(before.archetypes[i].layout.type_set() == types);
        }
    }
    assert forall|types: Set<u64>| before.has_archetype(types) implies after.archetype_of(types)
        == before.archetype_of(types) by {
        let i = before.archetype_of(types);
        assert(after.archetypes[i].layout.type_set() == types);
        lemma_archetype_of(after, i);
    }
}

/// Appends a chunk, from the pool if it has one, to the archetype for the
/// layout, and occupies its first slot.
pub fn add_new_chunk(archetypes: &mut Archetypes, layout: &EntityLayout)
    requires
        old(archetypes)@.wf(),
        layout@.wf(),
        old(archetypes)@.has_archetype(layout@.type_set()),
        old(archetypes)@.archetypes[old(archetypes)@.archetype_of(layout@.type_set())].is_full(),
    ensures
        final(archetypes)@.wf(),
        final(archetypes)@ == (ArchetypesView {
            archetypes: old(archetypes)@.archetypes.update(
                old(archetypes)@.archetype_of(layout@.type_set()),
                old(archetypes)@.archetypes[old(archetypes)@.archetype_of(
                    layout@.type_set(),
                )].with_slot_reserved(
                    if old(archetypes)@.pool.len() > 0 {
                        old(archetypes)@.pool.last().bytes
                    } else {
                        fresh_bytes()
                    },
                ),
            ),
            pool: if old(archetypes)@.pool.len() > 0 {
                old(archetypes)@.pool.drop_last()
            } else {
                old(archetypes)@.pool
            },
            ..old(archetypes)@
        }),
{
    let found = find_archetype(archetypes, layout).unwrap();
    let ghost before = archetypes@.archetypes[found.0 as int];
    let archetype = get_archetype(archetypes, found);
    let index = next_chunk_index(&archetype.chunks);
    proof {
        assert(before.wf());
        lemma_deduced_layout_wf(before.layout);
        crate::ecs::layout::lemma_sum_sizes_nonnegative(before.layout.sizes);
    }
    let chunk_layout = deduce_chunk_layout(&archetype.layout);
    let chunk = component_chunk(&mut archetypes.chunk_pool, index, chunk_layout);
    let archetype = get_archetype_mut(archetypes, found);
    add_chunk(&mut archetype.chunks, chunk);
    proof {
        let after = archetypes@.archetypes[found.0 as int];
        let bytes = if old(archetypes)@.pool.len() > 0 {
            old(archetypes)@.pool.last().bytes
        } else {
            fresh_bytes()
        };
        assert(after =~= before.with_slot_reserved(bytes));
        assert(chunks_wf(after.chunks)) by {
            assert forall|c: int| 0 <= c < after.chunks.len() implies {
                &&& (#[trigger] after.chunks[c]).wf()
                &&& after.chunks[c].chunk_index.0 == c
                &&& after.chunks[c].layout == after.chunks[0].layout
                &&& c < after.chunks.len() - 1 ==> after.chunks[c].is_full()
            } by {
                if c < before.chunks.len() {
                    assert(after.chunks[c] == before.chunks[c]);
                    assert(before.chunks[c].layout == deduced_layout(before.layout));
                    assert(before.chunks[0].layout == deduced_layout(before.layout));
                }
            }
        }
        assert(after.wf());
        lemma_update_keeps_wf(old(archetypes)@, archetypes@, found.0 as int);
    }
}

/// Occupies one more slot of the archetype for the layout and returns it:
/// the next slot of the last chunk or, if that chunk is full or there is
/// none, the first slot of a new chunk, which comes from the pool if the pool
/// has one.
pub fn move_to_next_archetype_entity_location(archetypes: &mut Archetypes, layout: &EntityLayout) -> (r:
    ArchetypeEntityLocation)
    requires
        old(archetypes)@.wf(),
        layout@.wf(),
        old(archetypes)@.has_archetype(layout@.type_set()),
    ensures
        final(archetypes)@.wf(),
        final(archetypes)@ == reserved(old(archetypes)@, old(archetypes)@.archetype_of(layout@.type_set())),
        r == final(archetypes)@.archetypes[old(archetypes)@.archetype_of(layout@.type_set())].tail(),
{
    let archetype = get_archetype_for_layout(archetypes, layout).unwrap();
    proof {
        assert(archetype@.wf());
        if archetype@.chunks.len() > 0 {
            assert(archetype@.chunks.last().wf());
        }
    }
    if are_chunks_full(&archetype.chunks) {
        add_new_chunk(archetypes, layout);
    } else {
        increment_current_component_index(archetypes, layout);
    }
    proof {
        let i = old(archetypes)@.archetype_of(layout@.type_set());
        lemma_archetype_of(old(archetypes)@, i);
        assert(archetypes@.archetypes[i].layout == old(archetypes)@.archetypes[i].layout);
        lemma_archetype_of(archetypes@, i);
    }
    let archetype = get_archetype_for_layout(archetypes, layout).unwrap();
    let current_chunk_index = current_chunk_index(&archetype.chunks);
    let chunk = get_chunk(&archetype.chunks, current_chunk_index);
    proof {
        assert(archetype@.chunks[current_chunk_index.0 as int].chunk_index.0
            == current_chunk_index.0);
    }
    create_archetype_entity_location(chunk.chunk_index(), chunk.current_component_index())
}

/// The registry after one more slot of the archetype at `index` was
/// occupied. A new chunk takes the bytes of the chunk that was pooled last,
/// which leaves the pool.
pub open spec fn reserved(archetypes: ArchetypesView, index: int) -> ArchetypesView {
    let takes_pooled = archetypes.archetypes[index].is_full() && archetypes.pool.len() > 0;
    ArchetypesView {
        archetypes: archetypes.archetypes.update(
            index,
            archetypes.archetypes[index].with_slot_reserved(
                if takes_pooled {
                    archetypes.pool.last().bytes
                } else {
                    fresh_bytes()
                },
            ),
        ),
        pool: if takes_pooled {
            archetypes.pool.drop_last()
        } else {
            archetypes.pool
        },
        search_index: archetypes.search_index,
    }
}

/// The registry after the last occupied slot of the archetype at `index`
/// was given up. A chunk that is left without an occupied slot goes to the
/// pool.
pub open spec fn released(archetypes: ArchetypesView, index: int) -> ArchetypesView {
    let last = archetypes.archetypes[index].chunks.last();
    ArchetypesView {
        archetypes: archetypes.archetypes.update(
            index,
            archetypes.archetypes[index].with_slot_released(),
        ),
        pool: if last.current_component_index.0 > 0 {
            archetypes.pool
        } else {
            archetypes.pool.push(last)
        },
        search_index: archetypes.search_index,
    }
}

/// Gives up the last occupied slot of the archetype. A chunk that is left
/// without an occupied slot goes to the pool.
pub fn move_to_previous_archetype_entity_location(archetypes: &mut Archetypes, archetype: ArchetypeIndex)
    requires
        old(archetypes)@.wf(),
        archetype.0 < old(archetypes)@.archetypes.len(),
        old(archetypes)@.archetypes[archetype.0 as int].chunks.len() > 0,
    ensures
        final(archetypes)@.wf(),
        final(archetypes)@ == released(old(archetypes)@, archetype.0 as int),
{
    let ghost before = archetypes@.archetypes[archetype.0 as int];
    proof {
        assert(before.wf());
        assert(before.chunks.last().wf());
    }
    let chunks = &mut get_archetype_mut(archetypes, archetype).chunks;
    let current_chunk_index = current_chunk_index(chunks);
    let current_chunk = get_chunk_mut(chunks, current_chunk_index);
    if !current_chunk.current_component_index.is_first() {
        current_chunk.current_component_index.decrement();
        proof {
            let after = archetypes@.archetypes[archetype.0 as int];
            assert(after =~= before.with_slot_released());
            assert(archetypes@ =~= released(old(archetypes)@, archetype.0 as int));
            lemma_released_wf(before);
            lemma_update_keeps_wf(old(archetypes)@, archetypes@, archetype.0 as int);
        }
        return ;
    }
    let chunk = remove_last_chunk(chunks).unwrap();
    recycle_chunk(&mut archetypes.chunk_pool, chunk);
    proof {
        let after = archetypes@.archetypes[archetype.0 as int];
        assert(after =~= before.with_slot_released());
        assert(archetypes@ =~= released(old(archetypes)@, archetype.0 as int));
        lemma_released_wf(before);
        lemma_update_keeps_wf(old(archetypes)@, archetypes@, archetype.0 as int);
    }
}

/// Giving up the last occupied slot keeps an archetype well formed.
pub proof fn lemma_released_wf(archetype: ArchetypeView)
    requires
        archetype.wf(),
        archetype.chunks.len() > 0,
    ensures
        archetype.with_slot_released().wf(),
{
    let after = archetype.with_slot_released();
    assert forall|c: int| 0 <= c < after.chunks.len() implies {
        &&& (#[trigger] after.chunks[c]).wf()
        &&& after.chunks[c].chunk_index.0 == c
        &&& after.chunks[c].layout == after.chunks[0].layout
        &&& c < after.chunks.len() - 1 ==> after.chunks[c].is_full()
        &&& after.chunks[c].layout == deduced_layout(after.layout)
    } by {
        assert(archetype.chunks[c].wf());
        assert(archetype.chunks[c].layout == deduced_layout(archetype.layout));
        assert(archetype.chunks[0].layout == deduced_layout(archetype.layout));
    }
}


/// Records the entity as the next occupant of the given chunk of the
/// archetype.
pub fn record_occupant(
    archetypes: &mut Archetypes,
    archetype: ArchetypeIndex,
    chunk: ChunkIndex,
    entity: Entity,
)
    requires
        archetype.0 < old(archetypes)@.archetypes.len(),
        chunk.0 < old(archetypes)@.archetypes[archetype.0 as int].chunks.len(),
    ensures
        final(archetypes)@ == (ArchetypesView {
            archetypes: old(archetypes)@.archetypes.update(
                archetype.0 as int,
                old(archetypes)@.archetypes[archetype.0 as int].with_occupant_recorded(chunk, entity),
            ),
            ..old(archetypes)@
        }),
        old(archetypes)@.wf() ==> final(archetypes)@.wf(),
{
    let ghost before = archetypes@.archetypes[archetype.0 as int];
    let target = get_chunk_mut(&mut get_archetype_mut(archetypes, archetype).chunks, chunk);
    target.occupants.push(entity);
    proof {
        let after = archetypes@.archetypes[archetype.0 as int];
        assert(after =~= before.with_occupant_recorded(chunk, entity));
        if old(archetypes)@.wf() {
            lemma_same_shape_wf(before, after);
            lemma_update_keeps_wf(old(archetypes)@, archetypes@, archetype.0 as int);
        }
    }
}

/// Takes the occupant of the given slot out of the record of the archetype.
/// The occupant that was recorded last, which is returned, takes its place.
pub fn swap_remove_occupant(
    archetypes: &mut Archetypes,
    archetype: ArchetypeIndex,
    location: ArchetypeEntityLocation,
) -> (r: Entity)
    requires
        archetype.0 < old(archetypes)@.archetypes.len(),
        old(archetypes)@.archetypes[archetype.0 as int].chunks.len() > 0,
        old(archetypes)@.archetypes[archetype.0 as int].chunks.last().occupants.len() > 0,
        location.chunk.0 < old(archetypes)@.archetypes[archetype.0 as int].chunks.len(),
        location.component.0
            < old(archetypes)@.archetypes[archetype.0 as int].chunks[location.chunk.0 as int].occupants.len(),
    ensures
        r == old(archetypes)@.archetypes[archetype.0 as int].chunks.last().occupants.last(),
        final(archetypes)@ == (ArchetypesView {
            archetypes: old(archetypes)@.archetypes.update(
                archetype.0 as int,
                old(archetypes)@.archetypes[archetype.0 as int].with_occupant_removed(location),
            ),
            ..old(archetypes)@
        }),
        old(archetypes)@.wf() ==> final(archetypes)@.wf(),
{
    let ghost before = archetypes@.archetypes[archetype.0 as int];
    let chunks = &mut get_archetype_mut(archetypes, archetype).chunks;
    let last = current_chunk_index(chunks);
    let tail_chunk = get_chunk_mut(chunks, last);
    let moved = tail_chunk.occupants.pop().unwrap();
    let is_tail: bool = location.chunk.0 == last.0 && location.component.0
        == tail_chunk.occupants.len();
    if !is_tail {
        let chunk = get_chunk_mut(chunks, location.chunk);
        chunk.occupants[location.component.0] = moved;
    }
    proof {
        let after = archetypes@.archetypes[archetype.0 as int];
        assert(after =~= before.with_occupant_removed(location));
        if old(archetypes)@.wf() {
            lemma_same_shape_wf(before, after);
            lemma_update_keeps_wf(old(archetypes)@, archetypes@, archetype.0 as int);
        }
    }
    moved
}

/// An archetype that differs from a well-formed one only in the bytes and
/// the recorded occupants of its chunks is well formed.
pub proof fn lemma_same_shape_wf(before: ArchetypeView, after: ArchetypeView)
    requires
        before.wf(),
        after.layout == before.layout,
        after.chunks.len() == before.chunks.len(),
        forall|c: int|
            0 <= c < before.chunks.len() ==> {
                &&& (#[trigger] after.chunks[c]).bytes.len() == before.chunks[c].bytes.len()
                &&& after.chunks[c].chunk_index == before.chunks[c].chunk_index
                &&& after.chunks[c].current_component_index
                    == before.chunks[c].current_component_index
                &&& after.chunks[c].layout == before.chunks[c].layout
            },
    ensures
        after.wf(),
{
    assert forall|c: int| 0 <= c < after.chunks.len() implies {
        &&& (#[trigger] after.chunks[c]).wf()
        &&& after.chunks[c].chunk_index.0 == c
        &&& after.chunks[c].layout == after.chunks[0].layout
        &&& c < after.chunks.len() - 1 ==> after.chunks[c].is_full()
        &&& after.chunks[c].layout == deduced_layout(after.layout)
    } by {
        assert(before.chunks[c].wf());
        assert(before.chunks[c].layout == deduced_layout(before.layout));
        assert(before.chunks[0].layout == deduced_layout(before.layout));
    }
}


/// The position of the archetype for the component set of the layout, which
/// is made first if there is none.
pub fn find_or_create(archetypes: &mut Archetypes, layout: &EntityLayout) -> (r: ArchetypeIndex)
    requires
        old(archetypes)@.wf(),
        layout@.wf(),
        layout@.fits_chunk(),
    ensures
        final(archetypes)@.wf(),
        final(archetypes)@ == found_or_created(old(archetypes)@, layout@),
        final(archetypes)@.has_archetype(layout@.type_set()),
        r.0 == final(archetypes)@.archetype_of(layout@.type_set()),
{
    create_archetype_if_non_existant(archetypes, layout);
    find_archetype(archetypes, layout).unwrap()
}

/// Finding or creating the archetype of a layout a second time, with
/// whatever layout of the same set of component types, changes nothing and
/// gives the same position.
pub proof fn lemma_archetype_identity(
    archetypes: ArchetypesView,
    first: EntityLayoutView,
    second: EntityLayoutView,
)
    requires
        first.type_set() == second.type_set(),
    ensures
        found_or_created(found_or_created(archetypes, first), second) == found_or_created(
            archetypes,
            first,
        ),
        found_or_created(found_or_created(archetypes, first), second).archetype_of(
            second.type_set(),
        ) == found_or_created(archetypes, first).archetype_of(first.type_set()),
{
    let after = found_or_created(archetypes, first);
    if !archetypes.has_archetype(first.type_set()) {
        let last = archetypes.archetypes.len() as int;
        assert(after.archetypes[last].layout.type_set() == first.type_set());
    }
    assert(after.has_archetype(second.type_set()));
}

impl From<ArchetypeIndex> for usize {
    fn from(from: ArchetypeIndex) -> (r: Self) {
        from.0
    }
}

impl vstd::std_specs::convert::FromSpecImpl<ArchetypeIndex> for usize {
    open spec fn obeys_from_spec() -> bool {
        true
    }

    open spec fn from_spec(from: ArchetypeIndex) -> Self {
        from.0
    }
}

/// In a well-formed archetype every chunk but the last is full, and the
/// last holds what is left of the entities when whole chunks are taken away:
/// the rest of the division of their number by the number of slots of a
/// chunk, or a whole chunk if nothing is left over.
pub proof fn lemma_density(archetype: ArchetypeView)
    requires
        archetype.wf(),
        archetype.chunks.len() > 0,
    ensures
        forall|c: int|
            0 <= c < archetype.chunks.len() - 1 ==> (#[trigger] archetype.chunks[c]).occupied()
                == deduced_layout(archetype.layout).max_slots,
        1 <= archetype.chunks.last().occupied() <= deduced_layout(archetype.layout).max_slots,
        occupied_slots(archetype.chunks) == (archetype.chunks.len() - 1) * deduced_layout(
            archetype.layout,
        ).max_slots + archetype.chunks.last().occupied(),
        archetype.chunks.last().occupied() == if occupied_slots(archetype.chunks) % deduced_layout(
            archetype.layout,
        ).max_slots == 0 {
            deduced_layout(archetype.layout).max_slots
        } else {
            occupied_slots(archetype.chunks) % deduced_layout(archetype.layout).max_slots
        },
{
    let slots = deduced_layout(archetype.layout).max_slots;
    let chunks = archetype.chunks;
    let count = occupied_slots(chunks);
    let whole = chunks.len() - 1;
    let left = chunks.last().occupied();
    lemma_deduced_layout_wf(archetype.layout);
    assert(chunks.last().wf());
    assert(chunks.last().layout == deduced_layout(archetype.layout));
    assert forall|c: int| 0 <= c < chunks.len() - 1 implies (#[trigger] chunks[c]).occupied()
        == slots by {
        assert(chunks[c].is_full());
        assert(chunks[c].layout == deduced_layout(archetype.layout));
    }
    lemma_full_chunks(chunks.drop_last(), slots);
    assert(count == whole * slots + left);
    if left == slots {
        assert(count == (whole + 1) * slots) by (nonlinear_arith)
            requires
                count == whole * slots + left,
                left == slots,
        ;
        vstd::arithmetic::div_mod::lemma_mod_multiples_basic(whole + 1, slots);
    } else {
        vstd::arithmetic::div_mod::lemma_fundamental_div_mod_converse(count, slots, whole, left);
    }
}

/// Chunks that are all full hold as many entities as there are chunks times
/// the slots of a chunk.
proof fn lemma_full_chunks(chunks: Seq<ChunkView>, slots: int)
    requires
        forall|c: int| 0 <= c < chunks.len() ==> (#[trigger] chunks[c]).occupied() == slots,
    ensures
        occupied_slots(chunks) == chunks.len() * slots,
    decreases chunks.len(),
{
    if chunks.len() > 0 {
        lemma_full_chunks(chunks.drop_last(), slots);
        assert(chunks.last().occupied() == slots);
        assert((chunks.len() - 1) * slots + slots == chunks.len() * slots) by (nonlinear_arith);
    } else {
        assert(chunks.len() * slots == 0) by (nonlinear_arith)
            requires
                chunks.len() == 0,
        ;
    }
}

} // verus!
