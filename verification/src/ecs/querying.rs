//! Filters on component sets, and queries over the entities of a world.

use crate::ecs::archetypes::{
    get_archetype, matching_indices, search_archetypes_for, Archetype, ArchetypeEntityLocation,
    ArchetypeIndex,
};
use crate::ecs::components::{
    chunk_slots, chunks_wf, occupied_slots, slots_from, ArchetypeComponentIterator, ChunkView,
    ComponentChunk,
};
use crate::ecs::entities::{Entity, EntityLocation};
use crate::ecs::layout::{tokens_of, ComponentIndex, ComponentTypeId, EntityLayout};
use crate::ecs::world::{World, WorldView};
use vstd::prelude::*;

verus! {

/// What a filter says of a component set.
#[derive(Clone, Copy, Debug, PartialEq, Eq, Structural)]
pub enum FilterResult {
    Match(bool),
}

impl FilterResult {
    /// Whether the component set passed the filter.
    pub open spec fn passes(&self) -> bool {
        match *self {
            FilterResult::Match(pass) => pass,
        }
    }

    /// Whether the component set passed the filter.
    pub fn is_pass(&self) -> (r: bool)
        ensures
            r == self.passes(),
    {
        match self {
            FilterResult::Match(pass) => *pass,
        }
    }
}

/// A condition on the component set of an archetype.
pub trait LayoutFilter {
    /// Whether the filter lets the component set pass.
    spec fn matches_spec(&self, components: Seq<ComponentTypeId>) -> bool;

    /// What the filter says of the component set.
    fn matches_layout(&self, components: &[ComponentTypeId]) -> (r: FilterResult)
        ensures
            r.passes() == self.matches_spec(components@),
    ;
}

/// Every wanted type is among the components.
pub open spec fn all_types_in(wanted: Seq<ComponentTypeId>, components: Seq<ComponentTypeId>) -> bool {
    forall|i: int|
        0 <= i < wanted.len() ==> tokens_of(components).contains(#[trigger] tokens_of(wanted)[i])
}

/// Whether the type is among the components.
pub fn contains_component(components: &[ComponentTypeId], component: ComponentTypeId) -> (r: bool)
    ensures
        r == tokens_of(components@).contains(component.token()),
{
    let mut i: usize = 0;
    while i < components.len()
        invariant
            i <= components@.len(),
            forall|j: int| 0 <= j < i ==> tokens_of(components@)[j] != component.token(),
        decreases components@.len() - i,
    {
        if components[i] == component {
            assert(tokens_of(components@)[i as int] == component.token());
            return true;
        }
        i += 1;
    }
    false
}

/// Whether every wanted type is among the components.
pub fn contains_all_components(wanted: &[ComponentTypeId], components: &[ComponentTypeId]) -> (r:
    bool)
    ensures
        r == all_types_in(wanted@, components@),
{
    let mut i: usize = 0;
    while i < wanted.len()
        invariant
            i <= wanted@.len(),
            forall|j: int|
                0 <= j < i ==> tokens_of(components@).contains(#[trigger] tokens_of(wanted@)[j]),
        decreases wanted@.len() - i,
    {
        if !contains_component(components, wanted[i]) {
            assert(!tokens_of(components@).contains(tokens_of(wanted@)[i as int]));
            return false;
        }
        i += 1;
    }
    true
}

/// An entity layout lets pass the component sets that hold every type of the
/// layout and have as many types as it has.
impl LayoutFilter for EntityLayout {
    open spec fn matches_spec(&self, components: Seq<ComponentTypeId>) -> bool {
        components.len() == self@.components.len() && all_types_in(self@.components, components)
    }

    fn matches_layout(&self, components: &[ComponentTypeId]) -> (r: FilterResult) {
        FilterResult::Match(
            components.len() == self.components.len() && contains_all_components(
                self.components.as_slice(),
                components,
            ),
        )
    }
}

/// Lets pass the component sets that hold every one of the given types.
pub struct AnyComponentFilter(pub Vec<ComponentTypeId>);

/// A filter that lets pass the component sets that hold every one of the given types.
pub fn any_component_filter(components: Vec<ComponentTypeId>) -> (r: AnyComponentFilter)
    ensures
        r.0 == components,
{
    AnyComponentFilter(components)
}

impl LayoutFilter for AnyComponentFilter {
    open spec fn matches_spec(&self, components: Seq<ComponentTypeId>) -> bool {
        all_types_in(self.0@, components)
    }

    fn matches_layout(&self, components: &[ComponentTypeId]) -> (r: FilterResult) {
        FilterResult::Match(contains_all_components(self.0.as_slice(), components))
    }
}


/// Walks over the archetypes at the given positions of a world, once and in
/// the given order.
pub struct ArchetypeIterator<'a> {
    pub(crate) indicies: Vec<ArchetypeIndex>,
    pub(crate) position: usize,
    pub(crate) world: &'a World,
}

impl<'a> ArchetypeIterator<'a> {
    /// The world whose archetypes are visited.
    pub open(crate) spec fn world(&self) -> WorldView {
        self.world@
    }

    /// The positions of the archetypes that are still to come, in order.
    pub open(crate) spec fn remaining(&self) -> Seq<ArchetypeIndex> {
        self.indicies@.skip(self.position as int)
    }

    /// All the positions are positions of archetypes of the world.
    pub open(crate) spec fn wf(&self) -> bool {
        &&& self.position <= self.indicies@.len()
        &&& forall|k: int|
            0 <= k < self.indicies@.len() ==> (#[trigger] self.indicies@[k]).0
                < self.world@.archetypes.archetypes.len()
    }

    /// The next archetype, if there is one.
    pub fn next(&mut self) -> (r: Option<&'a Archetype>)
        requires
            old(self).wf(),
        ensures
            final(self).wf(),
            final(self).world() == old(self).world(),
            match r {
                Some(archetype) => {
                    &&& old(self).remaining().len() > 0
                    &&& old(self).remaining()[0].0 < old(self).world().archetypes.archetypes.len()
                    &&& archetype@ == old(self).world().archetype(old(self).remaining()[0])
                    &&& final(self).remaining() == old(self).remaining().drop_first()
                },
                None => old(self).remaining().len() == 0 && final(self).remaining().len() == 0,
            },
    {
        if self.position < self.indicies.len() {
            let index = self.indicies[self.position];
            self.position += 1;
            proof {
                assert(old(self).remaining()[0] == index);
                assert(self.remaining() =~= old(self).remaining().drop_first());
            }
            return Some(get_archetype(self.world.archetypes(), index));
        }
        None
    }
}

/// An iterator over the archetypes of the world at the given positions.
pub fn create_archetype_iterator<'a>(world: &'a World, indicies: Vec<ArchetypeIndex>) -> (r:
    ArchetypeIterator<'a>)
    requires
        forall|k: int|
            0 <= k < indicies@.len() ==> (#[trigger] indicies@[k]).0
                < world@.archetypes.archetypes.len(),
    ensures
        r.wf(),
        r.world() == world@,
        r.remaining() == indicies@,
{
    let r = ArchetypeIterator { indicies, position: 0, world };
    assert(r.remaining() =~= indicies@);
    r
}

/// The given slots as locations in the archetype at `index`.
pub open spec fn located(index: ArchetypeIndex, slots: Seq<ArchetypeEntityLocation>) -> Seq<
    EntityLocation,
> {
    Seq::new(
        slots.len(),
        |k: int| EntityLocation { archetype_index: index, location_in_archetype: slots[k] },
    )
}

/// The occupied slots of the archetypes at the given positions, archetype by
/// archetype in the given order.
pub open spec fn locations_of(world: WorldView, indices: Seq<ArchetypeIndex>) -> Seq<EntityLocation>
    decreases indices.len(),
{
    if indices.len() == 0 {
        Seq::empty()
    } else {
        located(indices[0], slots_from(world.archetype(indices[0]).chunks, 0)) + locations_of(
            world,
            indices.drop_first(),
        )
    }
}

/// The positions below `upto`, in increasing order, at which the search
/// index lists every one of the wanted types.
pub open spec fn supersets_upto(
    index: Seq<Seq<ComponentTypeId>>,
    wanted: Seq<ComponentTypeId>,
    upto: int,
) -> Seq<ArchetypeIndex>
    decreases upto,
{
    if upto <= 0 {
        Seq::empty()
    } else {
        let rest = supersets_upto(index, wanted, upto - 1);
        if all_types_in(wanted, index[upto - 1]) {
            rest.push(ArchetypeIndex((upto - 1) as usize))
        } else {
            rest
        }
    }
}

/// The positions, in increasing order, of the archetypes that hold every one
/// of the wanted types.
pub open spec fn archetypes_with(world: WorldView, wanted: Seq<ComponentTypeId>) -> Seq<
    ArchetypeIndex,
> {
    supersets_upto(
        world.archetypes.search_index,
        wanted,
        world.archetypes.search_index.len() as int,
    )
}

/// What a search with a filter for any of the given types finds are the
/// positions that list every one of the types.
pub proof fn lemma_any_component_filter_matches(
    index: Seq<Seq<ComponentTypeId>>,
    filter: &AnyComponentFilter,
    upto: int,
)
    ensures
        matching_indices(index, filter, 0, upto) == supersets_upto(index, filter.0@, upto),
    decreases upto,
{
    if upto > 0 {
        lemma_any_component_filter_matches(index, filter, upto - 1);
    }
}

/// What a query for the wanted types yields: the occupied slots of the
/// archetypes that hold every wanted type, in the order of the archetypes'
/// creation and, in each archetype, from the first slot to the last.
pub open spec fn query_locations(world: WorldView, wanted: Seq<ComponentTypeId>) -> Seq<
    EntityLocation,
> {
    locations_of(world, archetypes_with(world, wanted))
}

/// One result of a query: an entity and the place of its components.
pub struct QueryRow<'a> {
    pub entity: Entity,
    pub chunk: &'a ComponentChunk,
    pub component_index: ComponentIndex,
}

/// Walks over the entities of a world that hold every one of a set of
/// component types, once, archetype by archetype.
pub struct QueryIterator<'a> {
    pub(crate) archetypes: ArchetypeIterator<'a>,
    pub(crate) archetype: ArchetypeIndex,
    pub(crate) chunks: Option<ArchetypeComponentIterator<'a>>,
}

impl<'a> QueryIterator<'a> {
    /// The world that is queried.
    pub open(crate) spec fn world(&self) -> WorldView {
        self.archetypes.world()
    }

    /// The iterator over the archetypes that are still to come.
    pub open(crate) spec fn archetypes(&self) -> ArchetypeIterator<'a> {
        self.archetypes
    }

    /// The archetype that the iterator is in.
    pub open(crate) spec fn archetype(&self) -> ArchetypeIndex {
        self.archetype
    }

    /// The iterator over the slots of the archetype that the iterator is in.
    pub open(crate) spec fn chunks(&self) -> Option<ArchetypeComponentIterator<'a>> {
        self.chunks
    }

    /// The world is well formed, and the iterator over slots walks over the
    /// chunks of the archetype that the iterator is in.
    pub open spec fn wf(&self) -> bool {
        &&& self.world().wf()
        &&& self.archetypes().wf()
        &&& self.chunks() matches Some(chunks) ==> chunks.wf() && self.archetype().0
            < self.world().archetypes.archetypes.len() && chunks.chunks() == self.world().archetype(
            self.archetype(),
        ).chunks
    }

    /// The locations that are still to come, in order.
    pub open spec fn remaining(&self) -> Seq<EntityLocation> {
        match self.chunks() {
            Some(chunks) => located(self.archetype(), chunks.remaining()) + locations_of(
                self.world(),
                self.archetypes().remaining(),
            ),
            None => locations_of(self.world(), self.archetypes().remaining()),
        }
    }

    /// The next entity with the place of its components, if there is one.
    pub fn next(&mut self) -> (r: Option<QueryRow<'a>>)
        requires
            old(self).wf(),
        ensures
            final(self).wf(),
            final(self).world() == old(self).world(),
            match r {
                Some(row) => {
                    let location = old(self).remaining()[0];
                    &&& old(self).remaining().len() > 0
                    &&& old(self).world().valid_location(location)
                    &&& row.entity == old(self).world().occupant(location)
                    &&& row.chunk@ == old(self).world().archetype(
                        location.archetype_index,
                    ).chunks[location.location_in_archetype.chunk.0 as int]
                    &&& row.component_index == location.location_in_archetype.component
                    &&& final(self).remaining() == old(self).remaining().drop_first()
                },
                None => old(self).remaining().len() == 0 && final(self).remaining().len() == 0,
            },
    {
        loop
            invariant
                self.wf(),
                self.world() == old(self).world(),
                self.remaining() == old(self).remaining(),
            decreases 2 * self.archetypes().remaining().len() + if self.chunks().is_some() {
                1nat
            } else {
                0nat
            },
        {
            let ghost world = self.world();
            let ghost rest = locations_of(world, self.archetypes().remaining());
            if let Some(chunk_iter) = self.chunks.as_mut() {
                let ghost slots = chunk_iter.remaining();
                let ghost entered = *chunk_iter;
                let ghost archetype = world.archetype(self.archetype);
                if let Some((chunk, component_index)) = chunk_iter.next() {
                    proof {
                        let slot = slots[0];
                        assert(old(self).remaining() == located(self.archetype, slots) + rest);
                        assert((located(self.archetype, slots) + rest)[0] == (EntityLocation {
                            archetype_index: self.archetype,
                            location_in_archetype: slot,
                        }));
                        assert((located(self.archetype, slots) + rest).drop_first() =~= located(
                            self.archetype,
                            slots.drop_first(),
                        ) + rest);
                        assert(world.archetypes.archetypes[self.archetype.0 as int].wf());
                        lemma_remaining_slots_valid(entered);
                        assert(archetype.valid_slot(slot));
                        assert(world.archetypes.archetypes[self.archetype.0 as int].tracks_occupants());
                        assert(archetype.chunks[slot.chunk.0 as int].tracks_occupants());
                    }
                    let entity = chunk.occupant(component_index);
                    return Some(QueryRow { entity, chunk, component_index });
                } else {
                    self.chunks = None;
                    proof {
                        assert(located(self.archetype, slots) =~= Seq::<EntityLocation>::empty());
                        assert(Seq::<EntityLocation>::empty() + rest =~= rest);
                    }
                }
            }
            if let Some(archetype) = self.archetypes.next() {
                self.archetype = archetype.index();
                self.chunks = Some(archetype.chunks().component_iter());
                proof {
                    assert(world.archetypes.archetypes[self.archetype.0 as int].index.0
                        == self.archetype.0);
                }
            } else {
                return None;
            }
        }
    }
}

/// Every slot that an iterator over slots still yields is an occupied slot
/// of its chunks.
pub proof fn lemma_remaining_slots_valid(iterator: ArchetypeComponentIterator<'_>)
    requires
        iterator.wf(),
        chunks_wf(iterator.chunks()),
    ensures
        forall|k: int|
            0 <= k < iterator.remaining().len() ==> {
                let slot = #[trigger] iterator.remaining()[k];
                slot.chunk.0 < iterator.chunks().len() && slot.component.0
                    <= iterator.chunks()[slot.chunk.0 as int].current_component_index.0
            },
{
    let chunks = iterator.chunks();
    let rest = slots_from(chunks, iterator.position());
    lemma_slots_from_valid(chunks, iterator.position());
    if let Some((chunk, slot)) = iterator.current() {
        let head = chunk_slots(chunk.0 as int, chunks[chunk.0 as int]).skip(slot.0 as int);
        assert forall|k: int| 0 <= k < iterator.remaining().len() implies {
            let slot = #[trigger] iterator.remaining()[k];
            slot.chunk.0 < chunks.len() && slot.component.0
                <= chunks[slot.chunk.0 as int].current_component_index.0
        } by {
            if k < head.len() {
                assert(iterator.remaining()[k] == head[k]);
            } else {
                assert(iterator.remaining()[k] == rest[k - head.len()]);
            }
        }
    }
}

/// The slots of the chunks from a position on are occupied slots of those
/// chunks.
pub proof fn lemma_slots_from_valid(chunks: Seq<ChunkView>, from: int)
    requires
        0 <= from,
        chunks_wf(chunks),
    ensures
        forall|k: int|
            0 <= k < slots_from(chunks, from).len() ==> {
                let slot = #[trigger] slots_from(chunks, from)[k];
                from <= slot.chunk.0 < chunks.len() && slot.component.0
                    <= chunks[slot.chunk.0 as int].current_component_index.0
            },
    decreases chunks.len() - from,
{
    if from < chunks.len() {
        lemma_slots_from_valid(chunks, from + 1);
        let head = chunk_slots(from, chunks[from]);
        let rest = slots_from(chunks, from + 1);
        assert(chunks[from].chunk_index.0 == from);
        assert forall|k: int| 0 <= k < slots_from(chunks, from).len() implies {
            let slot = #[trigger] slots_from(chunks, from)[k];
            from <= slot.chunk.0 < chunks.len() && slot.component.0
                <= chunks[slot.chunk.0 as int].current_component_index.0
        } by {
            if k < head.len() {
                assert(slots_from(chunks, from)[k] == head[k]);
            } else {
                assert(slots_from(chunks, from)[k] == rest[k - head.len()]);
            }
        }
    }
}

/// An iterator over the entities in the archetypes of the world at the given
/// positions.
pub fn create_query_iterator<'a>(world: &'a World, archetype_indicies: Vec<ArchetypeIndex>) -> (r:
    QueryIterator<'a>)
    requires
        world@.wf(),
        forall|k: int|
            0 <= k < archetype_indicies@.len() ==> (#[trigger] archetype_indicies@[k]).0
                < world@.archetypes.archetypes.len(),
    ensures
        r.wf(),
        r.world() == world@,
        r.remaining() == locations_of(world@, archetype_indicies@),
{
    QueryIterator {
        archetypes: create_archetype_iterator(world, archetype_indicies),
        archetype: ArchetypeIndex(0),
        chunks: None,
    }
}

/// An iterator over the entities of the world that hold a component of
/// every one of the given types.
pub fn iterate_query<'a>(world: &'a World, components: Vec<ComponentTypeId>) -> (r: QueryIterator<
    'a,
>)
    requires
        world@.wf(),
    ensures
        r.wf(),
        r.world() == world@,
        r.remaining() == query_locations(world@, components@),
{
    let filter = any_component_filter(components);
    let archetypes = search_archetypes_for(world.archetypes().search_index(), &filter, 0);
    proof {
        let index = world@.archetypes.search_index;
        assert(world.archetypes.inner.len() == world@.archetypes.archetypes.len());
        crate::ecs::archetypes::lemma_matching_indices(index, &filter, 0, index.len() as int);
        lemma_any_component_filter_matches(index, &filter, index.len() as int);
    }
    create_query_iterator(world, archetypes)
}


/// The entities that a query for the wanted types yields, in order.
pub open spec fn query_entities(world: WorldView, wanted: Seq<ComponentTypeId>) -> Seq<Entity> {
    Seq::new(
        query_locations(world, wanted).len(),
        |k: int| world.occupant(query_locations(world, wanted)[k]),
    )
}

/// The entity has components, and among them one of every wanted type.
pub open spec fn holds_all(world: WorldView, entity: Entity, wanted: Seq<ComponentTypeId>) -> bool {
    &&& world.has_entity(entity)
    &&& world.location(entity).is_some()
    &&& tokens_of(wanted).to_set().subset_of(world.component_types(entity))
}

/// Holding every wanted type is having the set of wanted types as a subset.
pub proof fn lemma_all_types_in_is_subset(wanted: Seq<ComponentTypeId>, components: Seq<ComponentTypeId>)
    ensures
        all_types_in(wanted, components) <==> tokens_of(wanted).to_set().subset_of(
            tokens_of(components).to_set(),
        ),
{
    let small = tokens_of(wanted);
    let large = tokens_of(components);
    if all_types_in(wanted, components) {
        assert forall|t: u64| small.to_set().contains(t) implies large.to_set().contains(t) by {
            let i = choose|i: int| 0 <= i < small.len() && small[i] == t;
            assert(large.contains(small[i]));
        }
    }
    if small.to_set().subset_of(large.to_set()) {
        assert forall|i: int| 0 <= i < wanted.len() implies large.contains(#[trigger] small[i]) by {
            assert(small.to_set().contains(small[i]));
        }
    }
}

/// The positions that list every wanted type are exactly those below
/// `upto` that do, each once and in increasing order.
pub proof fn lemma_supersets_upto(index: Seq<Seq<ComponentTypeId>>, wanted: Seq<ComponentTypeId>, upto: int)
    requires
        upto <= index.len(),
        upto <= usize::MAX + 1,
    ensures
        forall|k: int|
            0 <= k < supersets_upto(index, wanted, upto).len() ==> {
                let i = (#[trigger] supersets_upto(index, wanted, upto)[k]).0;
                0 <= i < upto && all_types_in(wanted, index[i as int])
            },
        forall|k: int, l: int|
            0 <= k < l < supersets_upto(index, wanted, upto).len() ==> (#[trigger] supersets_upto(
                index,
                wanted,
                upto,
            )[k]).0 < (#[trigger] supersets_upto(index, wanted, upto)[l]).0,
        forall|i: int|
            0 <= i < upto && all_types_in(wanted, #[trigger] index[i]) ==> supersets_upto(
                index,
                wanted,
                upto,
            ).contains(ArchetypeIndex(i as usize)),
    decreases upto,
{
    if upto > 0 {
        lemma_supersets_upto(index, wanted, upto - 1);
        let rest = supersets_upto(index, wanted, upto - 1);
        let all = supersets_upto(index, wanted, upto);
        assert forall|i: int| 0 <= i < upto && all_types_in(wanted, #[trigger] index[i]) implies all.contains(
            ArchetypeIndex(i as usize),
        ) by {
            if i < upto - 1 {
                let k = choose|k: int| 0 <= k < rest.len() && rest[k] == ArchetypeIndex(i as usize);
                assert(all[k] == ArchetypeIndex(i as usize));
            } else {
                assert(all[rest.len() as int] == ArchetypeIndex(i as usize));
            }
        }
    }
}

/// The slots of well-formed chunks from a position on are the occupied
/// slots of those chunks, each once.
pub proof fn lemma_slots_from_complete(chunks: Seq<ChunkView>, from: int)
    requires
        0 <= from,
        chunks_wf(chunks),
    ensures
        slots_from(chunks, from).no_duplicates(),
        forall|slot: ArchetypeEntityLocation|
            from <= slot.chunk.0 < chunks.len() && slot.component.0
                <= chunks[slot.chunk.0 as int].current_component_index.0 ==> #[trigger] slots_from(
                chunks,
                from,
            ).contains(slot),
    decreases chunks.len() - from,
{
    if from < chunks.len() {
        lemma_slots_from_complete(chunks, from + 1);
        lemma_slots_from_valid(chunks, from + 1);
        let head = chunk_slots(from, chunks[from]);
        let rest = slots_from(chunks, from + 1);
        let all = slots_from(chunks, from);
        assert(chunks[from].chunk_index.0 == from);
        assert forall|i: int, j: int| 0 <= i < head.len() && 0 <= j < rest.len() implies head[i]
            != rest[j] by {
            assert(rest[j].chunk.0 >= from + 1);
        }
        vstd::seq_lib::lemma_no_dup_in_concat(head, rest);
        assert forall|slot: ArchetypeEntityLocation|
            from <= slot.chunk.0 < chunks.len() && slot.component.0
                <= chunks[slot.chunk.0 as int].current_component_index.0 implies #[trigger] all.contains(
            slot,
        ) by {
            if slot.chunk.0 == from {
                assert(head[slot.component.0 as int] == slot);
                assert(all[slot.component.0 as int] == slot);
            } else {
                assert(rest.contains(slot));
                let j = choose|j: int| 0 <= j < rest.len() && rest[j] == slot;
                assert(all[head.len() + j] == slot);
            }
        }
    }
}

/// The locations in the archetypes at increasing positions are the occupied
/// slots of those archetypes, each once.
pub proof fn lemma_locations_of(world: WorldView, indices: Seq<ArchetypeIndex>)
    requires
        world.archetypes.wf(),
        forall|k: int|
            0 <= k < indices.len() ==> (#[trigger] indices[k]).0 < world.archetypes.archetypes.len(),
        forall|k: int, l: int|
            0 <= k < l < indices.len() ==> (#[trigger] indices[k]).0 < (#[trigger] indices[l]).0,
    ensures
        locations_of(world, indices).no_duplicates(),
        forall|k: int|
            0 <= k < locations_of(world, indices).len() ==> {
                let location = #[trigger] locations_of(world, indices)[k];
                indices.contains(location.archetype_index) && world.valid_location(location)
            },
        forall|location: EntityLocation|
            indices.contains(location.archetype_index) && #[trigger] world.valid_location(location)
                ==> locations_of(world, indices).contains(location),
    decreases indices.len(),
{
    if indices.len() > 0 {
        let first = indices[0];
        let later = indices.drop_first();
        let chunks = world.archetype(first).chunks;
        assert(world.archetypes.archetypes[first.0 as int].wf());
        lemma_slots_from_complete(chunks, 0);
        lemma_slots_from_valid(chunks, 0);
        assert forall|k: int| 0 <= k < later.len() implies (#[trigger] later[k]).0
            < world.archetypes.archetypes.len() && first.0 < later[k].0 by {
            assert(later[k] == indices[k + 1]);
        }
        assert forall|k: int, l: int| 0 <= k < l < later.len() implies (#[trigger] later[k]).0 < (
        #[trigger] later[l]).0 by {
            assert(later[k] == indices[k + 1]);
            assert(later[l] == indices[l + 1]);
        }
        lemma_locations_of(world, later);
        let slots = slots_from(chunks, 0);
        let head = located(first, slots);
        let rest = locations_of(world, later);
        let all = locations_of(world, indices);
        assert forall|i: int, j: int| 0 <= i < j < head.len() implies head[i] != head[j] by {
            assert(slots[i] != slots[j]);
        }
        assert forall|i: int, j: int| 0 <= i < head.len() && 0 <= j < rest.len() implies head[i]
            != rest[j] by {
            assert(later.contains(rest[j].archetype_index));
            let k = choose|k: int| 0 <= k < later.len() && later[k] == rest[j].archetype_index;
            assert(first.0 < later[k].0);
        }
        vstd::seq_lib::lemma_no_dup_in_concat(head, rest);
        assert forall|k: int| 0 <= k < all.len() implies {
            let location = #[trigger] all[k];
            indices.contains(location.archetype_index) && world.valid_location(location)
        } by {
            if k < head.len() {
                assert(all[k] == head[k]);
                assert(indices[0] == first);
                let slot = slots[k];
                assert(world.archetype(first).valid_slot(slot));
            } else {
                let location = rest[k - head.len()];
                assert(all[k] == location);
                let j = choose|j: int| 0 <= j < later.len() && later[j] == location.archetype_index;
                assert(indices[j + 1] == location.archetype_index);
            }
        }
        assert forall|location: EntityLocation|
            indices.contains(location.archetype_index) && #[trigger] world.valid_location(
                location,
            ) implies all.contains(location) by {
            if location.archetype_index == first {
                let slot = location.location_in_archetype;
                assert(slots.contains(slot));
                let j = choose|j: int| 0 <= j < slots.len() && slots[j] == slot;
                assert(head[j] == location);
                assert(all[j] == location);
            } else {
                let k = choose|k: int| 0 <= k < indices.len() && indices[k] == location.archetype_index;
                assert(later[k - 1] == location.archetype_index);
                assert(rest.contains(location));
                let j = choose|j: int| 0 <= j < rest.len() && rest[j] == location;
                assert(all[head.len() + j] == location);
            }
        }
    }
}

/// A query for a set of types yields exactly the entities that have
/// components and among them one of every wanted type, each once.
pub proof fn lemma_query_complete(world: WorldView, wanted: Seq<ComponentTypeId>)
    requires
        world.wf(),
    ensures
        query_entities(world, wanted).no_duplicates(),
        forall|entity: Entity| #[trigger]
            query_entities(world, wanted).contains(entity) <==> holds_all(world, entity, wanted),
{
    let index = world.archetypes.search_index;
    let indices = archetypes_with(world, wanted);
    let locations = query_locations(world, wanted);
    let found = query_entities(world, wanted);
    if index.len() > 0 {
        assert(world.archetypes.archetypes[index.len() - 1].index.0 == index.len() - 1);
    }
    lemma_supersets_upto(index, wanted, index.len() as int);
    lemma_locations_of(world, indices);
    assert forall|i: int, j: int| 0 <= i < j < found.len() implies found[i] != found[j] by {
        assert(world.valid_location(locations[i]));
        assert(world.valid_location(locations[j]));
        assert(locations[i] != locations[j]);
    }
    assert forall|entity: Entity| #[trigger]
        found.contains(entity) <==> holds_all(world, entity, wanted) by {
        if found.contains(entity) {
            let k = choose|k: int| 0 <= k < found.len() && found[k] == entity;
            let location = locations[k];
            assert(world.valid_location(location));
            assert(world.occupant(location) == entity);
            assert(world.location(entity) == Some(location));
            assert(indices.contains(location.archetype_index));
            let i = location.archetype_index.0 as int;
            assert(all_types_in(wanted, index[i])) by {
                let l = choose|l: int| 0 <= l < indices.len() && indices[l] == location.archetype_index;
                assert(indices[l].0 == i);
            }
            assert(world.archetypes.archetypes[i].wf());
            lemma_all_types_in_is_subset(wanted, world.archetypes.archetypes[i].layout.components);
        }
        if holds_all(world, entity, wanted) {
            let location = world.location(entity).unwrap();
            assert(world.entities.locations[entity.index as int] == Some(location));
            assert(world.valid_location(location));
            assert(world.occupant(location) == entity);
            let i = location.archetype_index.0 as int;
            assert(world.archetypes.archetypes[i].wf());
            lemma_all_types_in_is_subset(wanted, world.archetypes.archetypes[i].layout.components);
            assert(all_types_in(wanted, index[i]));
            assert(indices.contains(ArchetypeIndex(i as usize)));
            assert(locations.contains(location));
            let k = choose|k: int| 0 <= k < locations.len() && locations[k] == location;
            assert(found[k] == entity);
        }
    }
}


/// The slots of the chunks from a position on are as many as the occupied
/// slots of those chunks.
pub proof fn lemma_slots_from_len(chunks: Seq<ChunkView>, from: int)
    requires
        0 <= from <= chunks.len(),
    ensures
        slots_from(chunks, from).len() + occupied_slots(chunks.take(from)) == occupied_slots(chunks),
    decreases chunks.len() - from,
{
    if from < chunks.len() {
        lemma_slots_from_len(chunks, from + 1);
        assert(chunks.take(from + 1).drop_last() =~= chunks.take(from));
        assert(chunks.take(from + 1).last() == chunks[from]);
    } else {
        assert(chunks.take(from) =~= chunks);
    }
}

/// The entities of the world whose components are in the archetype at the
/// given position.
pub open spec fn entities_in(world: WorldView, index: ArchetypeIndex) -> Set<Entity> {
    Set::new(
        |entity: Entity|
            world.has_entity(entity) && (world.location(entity) matches Some(location)
                && location.archetype_index == index),
    )
}

/// An archetype of a well-formed world has as many entities as it has
/// occupied slots.
pub proof fn lemma_entity_count(world: WorldView, index: ArchetypeIndex)
    requires
        world.wf(),
        index.0 < world.archetypes.archetypes.len(),
    ensures
        entities_in(world, index).finite(),
        entities_in(world, index).len() == occupied_slots(world.archetype(index).chunks),
{
    let archetype = world.archetype(index);
    let slots = slots_from(archetype.chunks, 0);
    let occupants = Seq::new(
        slots.len(),
        |k: int| world.occupant(EntityLocation { archetype_index: index, location_in_archetype: slots[k] }),
    );
    assert(world.archetypes.archetypes[index.0 as int].wf());
    lemma_slots_from_valid(archetype.chunks, 0);
    lemma_slots_from_complete(archetype.chunks, 0);
    lemma_slots_from_len(archetype.chunks, 0);
    assert(archetype.chunks.take(0) =~= Seq::<ChunkView>::empty());
    assert forall|k: int| 0 <= k < slots.len() implies world.valid_location(
        EntityLocation { archetype_index: index, location_in_archetype: #[trigger] slots[k] },
    ) by {
        assert(archetype.valid_slot(slots[k]));
    }
    assert forall|j: int, k: int| 0 <= j < k < occupants.len() implies occupants[j]
        != occupants[k] by {
        let first = EntityLocation { archetype_index: index, location_in_archetype: slots[j] };
        let second = EntityLocation { archetype_index: index, location_in_archetype: slots[k] };
        assert(world.valid_location(first));
        assert(world.valid_location(second));
        assert(slots[j] != slots[k]);
    }
    assert forall|entity: Entity| occupants.to_set().contains(entity) <==> entities_in(
        world,
        index,
    ).contains(entity) by {
        if occupants.contains(entity) {
            let k = choose|k: int| 0 <= k < occupants.len() && occupants[k] == entity;
            let location = EntityLocation {
                archetype_index: index,
                location_in_archetype: slots[k],
            };
            assert(world.valid_location(location));
            assert(world.location(entity) == Some(location));
        }
        if entities_in(world, index).contains(entity) {
            let location = world.location(entity).unwrap();
            assert(world.entities.locations[entity.index as int] == Some(location));
            assert(world.valid_location(location));
            assert(slots.contains(location.location_in_archetype));
            let k = choose|k: int| 0 <= k < slots.len() && slots[k] == location.location_in_archetype;
            assert(occupants[k] == entity);
        }
    }
    assert(occupants.to_set() =~= entities_in(world, index));
    occupants.unique_seq_to_set();
    vstd::seq_lib::seq_to_set_is_finite(occupants);
}

} // verus!
