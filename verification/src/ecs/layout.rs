//! Component type identities, entity layouts, and the placement of component
//! columns inside a chunk.

use vstd::prelude::*;

verus! {

/// Number of bytes in the storage of one chunk.
pub const CHUNK_SIZE: usize = 16384;

/// Identity of a component type: a token that tells types apart, and a name
/// for diagnostics. Two identities are equal when their tokens are.
#[derive(Clone, Copy, Debug)]
pub struct ComponentTypeId {
    pub(crate) type_id: u64,
    pub(crate) name: &'static str,
}

impl ComponentTypeId {
    /// The token that identifies the type.
    pub open(crate) spec fn token(&self) -> u64 {
        self.type_id
    }

    /// The diagnostic name.
    pub open(crate) spec fn label(&self) -> &'static str {
        self.name
    }

    /// The token that identifies the type.
    pub fn type_id(&self) -> (r: u64)
        ensures
            r == self.token(),
    {
        self.type_id
    }

    /// The diagnostic name.
    pub fn name(&self) -> (r: &'static str)
        ensures
            r == self.label(),
    {
        self.name
    }
}

impl PartialEq for ComponentTypeId {
    fn eq(&self, other: &Self) -> (r: bool) {
        self.type_id == other.type_id
    }
}

impl Eq for ComponentTypeId {

}

impl vstd::std_specs::cmp::PartialEqSpecImpl for ComponentTypeId {
    open spec fn obeys_eq_spec() -> bool {
        true
    }

    open spec fn eq_spec(&self, other: &Self) -> bool {
        self.token() == other.token()
    }
}

/// Makes the identity of the component type with the given token.
pub fn component_type_id(type_id: u64, name: &'static str) -> (r: ComponentTypeId)
    ensures
        r.token() == type_id,
        r.label() == name,
{
    ComponentTypeId { type_id, name }
}

/// The tokens of a sequence of component types, in the same order.
pub open spec fn tokens_of(components: Seq<ComponentTypeId>) -> Seq<u64> {
    Seq::new(components.len(), |i: int| components[i].token())
}

/// Sum of a sequence of byte sizes.
pub open spec fn sum_sizes(sizes: Seq<usize>) -> int
    decreases sizes.len(),
{
    if sizes.len() == 0 {
        0
    } else {
        sum_sizes(sizes.drop_last()) + sizes.last() as int
    }
}

/// Sum of the first `count` sizes.
pub open spec fn prefix_size(sizes: Seq<usize>, count: int) -> int {
    sum_sizes(sizes.take(count))
}

/// A sum of sizes is not negative.
pub proof fn lemma_sum_sizes_nonnegative(sizes: Seq<usize>)
    ensures
        sum_sizes(sizes) >= 0,
    decreases sizes.len(),
{
    if sizes.len() > 0 {
        lemma_sum_sizes_nonnegative(sizes.drop_last());
    }
}

/// One more size adds that size to the sum of the sizes before it.
pub proof fn lemma_prefix_size_step(sizes: Seq<usize>, count: int)
    requires
        0 <= count < sizes.len(),
    ensures
        prefix_size(sizes, count + 1) == prefix_size(sizes, count) + sizes[count],
{
    assert(sizes.take(count + 1).drop_last() =~= sizes.take(count));
}

/// The sum of no sizes is zero, and the sum of all the sizes is the whole sum.
pub proof fn lemma_prefix_size_full(sizes: Seq<usize>)
    ensures
        prefix_size(sizes, sizes.len() as int) == sum_sizes(sizes),
        prefix_size(sizes, 0) == 0,
{
    assert(sizes.take(sizes.len() as int) =~= sizes);
}

/// The sum of the first sizes grows with their number.
pub proof fn lemma_prefix_size_monotone(sizes: Seq<usize>, low: int, high: int)
    requires
        0 <= low <= high <= sizes.len(),
    ensures
        0 <= prefix_size(sizes, low) <= prefix_size(sizes, high),
    decreases high - low,
{
    lemma_sum_sizes_nonnegative(sizes.take(low));
    if low < high {
        lemma_prefix_size_monotone(sizes, low, high - 1);
        lemma_prefix_size_step(sizes, high - 1);
    }
}

/// The component types of one archetype, in column order, each with its size
/// in bytes.
pub struct EntityLayout {
    pub(crate) components: Vec<ComponentTypeId>,
    pub(crate) component_sizes: Vec<usize>,
}

/// What an entity layout says: the component types, in column order, and the
/// size in bytes of each.
#[verifier::ext_equal]
pub struct EntityLayoutView {
    pub components: Seq<ComponentTypeId>,
    pub sizes: Seq<usize>,
}

impl EntityLayoutView {
    /// The tokens of the component types, in column order.
    pub open spec fn types(&self) -> Seq<u64> {
        tokens_of(self.components)
    }

    /// The component types as a set: what decides which archetype a layout
    /// belongs to.
    pub open spec fn type_set(&self) -> Set<u64> {
        self.types().to_set()
    }

    /// Every type has a size, and no type occurs twice.
    pub open spec fn wf(&self) -> bool {
        &&& self.components.len() == self.sizes.len()
        &&& self.types().no_duplicates()
    }

    /// Number of bytes that one entity of this layout takes.
    pub open spec fn total_size(&self) -> int {
        sum_sizes(self.sizes)
    }

    /// One entity is at least one byte and at most a chunk.
    pub open spec fn fits_chunk(&self) -> bool {
        1 <= self.total_size() <= CHUNK_SIZE
    }
}

impl EntityLayout {
    /// What the layout says.
    pub open(crate) spec fn view(&self) -> EntityLayoutView {
        EntityLayoutView { components: self.components@, sizes: self.component_sizes@ }
    }

    /// Number of component types.
    pub fn len(&self) -> (r: usize)
        ensures
            r == self@.components.len(),
    {
        self.components.len()
    }

    /// The component type of column `i`.
    pub fn component_at(&self, i: usize) -> (r: ComponentTypeId)
        requires
            i < self@.components.len(),
        ensures
            r == self@.components[i as int],
    {
        self.components[i]
    }

    /// The size of the component type of column `i`.
    pub fn size_at(&self, i: usize) -> (r: usize)
        requires
            i < self@.sizes.len(),
        ensures
            r == self@.sizes[i as int],
    {
        self.component_sizes[i]
    }

    /// Whether the layout holds the given component type.
    pub fn contains(&self, component: ComponentTypeId) -> (r: bool)
        ensures
            r == self@.types().contains(component.token()),
    {
        let mut i: usize = 0;
        while i < self.components.len()
            invariant
                i <= self@.components.len(),
                forall|j: int| 0 <= j < i ==> self@.types()[j] != component.token(),
            decreases self@.components.len() - i,
        {
            if self.components[i] == component {
                assert(self@.types()[i as int] == component.token());
                return true;
            }
            i += 1;
        }
        false
    }
}

impl Clone for EntityLayout {
    fn clone(&self) -> (r: Self)
        ensures
            r@ == self@,
    {
        let mut components: Vec<ComponentTypeId> = Vec::new();
        let mut i: usize = 0;
        while i < self.components.len()
            invariant
                i <= self@.components.len(),
                components@ == self@.components.take(i as int),
            decreases self@.components.len() - i,
        {
            components.push(self.components[i]);
            assert(components@ =~= self@.components.take(i + 1));
            i += 1;
        }
        assert(self@.components.take(i as int) =~= self@.components);
        let mut component_sizes: Vec<usize> = Vec::new();
        let mut k: usize = 0;
        while k < self.component_sizes.len()
            invariant
                k <= self@.sizes.len(),
                component_sizes@ == self@.sizes.take(k as int),
            decreases self@.sizes.len() - k,
        {
            component_sizes.push(self.component_sizes[k]);
            assert(component_sizes@ =~= self@.sizes.take(k + 1));
            k += 1;
        }
        assert(self@.sizes.take(k as int) =~= self@.sizes);
        EntityLayout { components, component_sizes }
    }
}

/// The layout of entities that hold exactly one component type.
pub fn create_entity_layout_from_component_and_size(component: ComponentTypeId, size: usize) -> (r:
    EntityLayout)
    ensures
        r@.wf(),
        r@.components == seq![component],
        r@.sizes == seq![size],
        r@.total_size() == size,
{
    let mut components: Vec<ComponentTypeId> = Vec::new();
    components.push(component);
    let mut component_sizes: Vec<usize> = Vec::new();
    component_sizes.push(size);
    let r = EntityLayout { components, component_sizes };
    proof {
        assert(r@.components =~= seq![component]);
        assert(r@.sizes =~= seq![size]);
        assert(r@.sizes.drop_last() =~= Seq::<usize>::empty());
        assert(sum_sizes(r@.sizes.drop_last()) == 0);
    }
    r
}

/// The given layout with one more component type as its last column.
pub fn clone_entity_layout_and_add_component(
    layout: &EntityLayout,
    component: ComponentTypeId,
    size: usize,
) -> (r: EntityLayout)
    ensures
        r@.components == layout@.components.push(component),
        r@.sizes == layout@.sizes.push(size),
        r@.total_size() == layout@.total_size() + size,
        layout@.wf() && !layout@.types().contains(component.token()) ==> r@.wf(),
        r@.type_set() == layout@.type_set().insert(component.token()),
{
    let mut cloned = layout.clone();
    cloned.components.push(component);
    cloned.component_sizes.push(size);
    proof {
        assert(cloned@.sizes.drop_last() =~= layout@.sizes);
        lemma_types_push(layout@.components, component);
    }
    cloned
}

/// The tokens of a sequence with one more type are the tokens with one more
/// token; duplicates appear only if the new token was there already.
pub proof fn lemma_types_push(components: Seq<ComponentTypeId>, component: ComponentTypeId)
    ensures
        tokens_of(components.push(component)) == tokens_of(components).push(component.token()),
        tokens_of(components.push(component)).to_set() == tokens_of(components).to_set().insert(
            component.token(),
        ),
        tokens_of(components).no_duplicates() && !tokens_of(components).contains(component.token())
            ==> tokens_of(components.push(component)).no_duplicates(),
{
    let before = tokens_of(components);
    let after = tokens_of(components.push(component));
    assert(after =~= before.push(component.token()));
    assert forall|t: u64| after.to_set().contains(t) <==> before.to_set().insert(
        component.token(),
    ).contains(t) by {
        if after.contains(t) {
            let i = choose|i: int| 0 <= i < after.len() && after[i] == t;
            if i < before.len() {
                assert(before[i] == t);
            }
        }
        if before.contains(t) {
            let i = choose|i: int| 0 <= i < before.len() && before[i] == t;
            assert(after[i] == t);
        }
        if t == component.token() {
            assert(after[before.len() as int] == t);
        }
    }
    assert(after.to_set() =~= before.to_set().insert(component.token()));
}

/// Number of bytes that one entity of the layout takes.
pub fn get_layout_size(layout: &EntityLayout) -> (r: usize)
    requires
        layout@.total_size() <= usize::MAX,
    ensures
        r == layout@.total_size(),
{
    let mut total: usize = 0;
    let mut i: usize = 0;
    proof {
        lemma_prefix_size_full(layout@.sizes);
    }
    while i < layout.component_sizes.len()
        invariant
            i <= layout@.sizes.len(),
            total == prefix_size(layout@.sizes, i as int),
            layout@.total_size() <= usize::MAX,
        decreases layout@.sizes.len() - i,
    {
        proof {
            lemma_prefix_size_step(layout@.sizes, i as int);
            lemma_prefix_size_monotone(layout@.sizes, i + 1, layout@.sizes.len() as int);
            lemma_prefix_size_full(layout@.sizes);
        }
        total = total + layout.component_sizes[i];
        i += 1;
    }
    total
}

/// A copy of the component types of the layout, in column order.
pub fn copy_layout_components(layout: &EntityLayout) -> (r: Vec<ComponentTypeId>)
    ensures
        r@ == layout@.components,
{
    let mut components: Vec<ComponentTypeId> = Vec::new();
    let mut i: usize = 0;
    while i < layout.components.len()
        invariant
            i <= layout@.components.len(),
            components@ == layout@.components.take(i as int),
        decreases layout@.components.len() - i,
    {
        components.push(layout.components[i]);
        assert(components@ =~= layout@.components.take(i + 1));
        i += 1;
    }
    assert(layout@.components.take(i as int) =~= layout@.components);
    components
}


/// One column of a chunk: the component type it holds, the byte at which it
/// starts, and the number of bytes from one slot to the next.
#[derive(Clone, Copy, Debug)]
pub struct ComponentChunkLayoutStream {
    pub component_type_id: ComponentTypeId,
    pub offset: usize,
    pub stride: usize,
}

/// A column with the given type, start and stride.
pub fn component_chunk_layout_stream(
    component_type_id: ComponentTypeId,
    offset: usize,
    stride: usize,
) -> (r: ComponentChunkLayoutStream)
    ensures
        r == (ComponentChunkLayoutStream { component_type_id, offset, stride }),
{
    ComponentChunkLayoutStream { component_type_id, offset, stride }
}

/// Places one column at `offset` and moves `offset` past its `max_slots`
/// slots.
pub fn deduce_component_chunk_layout_stream(
    offset: &mut usize,
    max_slots: usize,
    component_type_id: ComponentTypeId,
    stride: usize,
) -> (r: ComponentChunkLayoutStream)
    requires
        *old(offset) + stride * max_slots <= usize::MAX,
    ensures
        r == (ComponentChunkLayoutStream { component_type_id, offset: *old(offset), stride }),
        *final(offset) == *old(offset) + stride * max_slots,
{
    assert(0 <= stride * max_slots) by (nonlinear_arith);
    let width: usize = stride * max_slots;
    let stream = component_chunk_layout_stream(component_type_id, *offset, stride);
    *offset += width;
    stream
}

/// The byte at which the given slot of the column starts.
pub fn get_offset_in_chunk_stream(stream: &ComponentChunkLayoutStream, index: ComponentIndex) -> (r:
    usize)
    requires
        stream.offset + index.0 * stream.stride <= usize::MAX,
    ensures
        r == stream.offset + index.0 * stream.stride,
{
    assert(0 <= index.0 * stream.stride) by (nonlinear_arith);
    stream.offset + (index.0 * stream.stride)
}

/// Position of a slot inside a chunk.
#[derive(Clone, Copy, Debug, PartialEq, Eq, Structural)]
pub struct ComponentIndex(pub usize);

impl ComponentIndex {
    /// The next slot.
    pub fn increment(&mut self)
        requires
            old(self).0 < usize::MAX,
        ensures
            final(self).0 == old(self).0 + 1,
    {
        self.0 += 1;
    }

    /// The slot before.
    pub fn decrement(&mut self)
        requires
            old(self).0 > 0,
        ensures
            final(self).0 == old(self).0 - 1,
    {
        self.0 -= 1;
    }

    /// Whether this is the first slot of a chunk.
    pub fn is_first(&self) -> (r: bool)
        ensures
            r == (self.0 == 0),
    {
        self.0 == 0
    }
}

/// Each column holds the type and stride that the layout gives it, and starts
/// after `max_slots` slots of every column before it.
pub open spec fn streams_placed(
    streams: Seq<ComponentChunkLayoutStream>,
    layout: EntityLayoutView,
    max_slots: int,
) -> bool {
    &&& streams.len() == layout.components.len()
    &&& forall|i: int|
        0 <= i < streams.len() ==> #[trigger] streams[i] == (ComponentChunkLayoutStream {
            component_type_id: layout.components[i],
            offset: (prefix_size(layout.sizes, i) * max_slots) as usize,
            stride: layout.sizes[i],
        })
}

/// How the columns of an entity layout are placed in a chunk: the number of
/// slots, and one stream per component type.
pub struct ComponentChunkLayout {
    pub(crate) max_slots: usize,
    pub(crate) streams: Vec<ComponentChunkLayoutStream>,
}

/// What a chunk layout says: the number of slots and the columns, in layout
/// order.
#[verifier::ext_equal]
pub struct ChunkLayoutView {
    pub max_slots: int,
    pub streams: Seq<ComponentChunkLayoutStream>,
}

impl ChunkLayoutView {
    /// Whether some column holds the type with the given token.
    pub open spec fn has_component(&self, token: u64) -> bool {
        exists|k: int|
            0 <= k < self.streams.len() && (#[trigger] self.streams[k]).component_type_id.token()
                == token
    }

    /// The last column that holds the type with the given token.
    pub open spec fn column_of(&self, token: u64) -> int {
        choose|k: int|
            0 <= k < self.streams.len() && (#[trigger] self.streams[k]).component_type_id.token()
                == token && forall|j: int|
                k < j < self.streams.len() ==> (#[trigger] self.streams[j]).component_type_id.token()
                    != token
    }

    /// Number of bytes of one component of the type with the given token.
    pub open spec fn stride_of(&self, token: u64) -> usize {
        self.streams[self.column_of(token)].stride
    }

    /// First byte of the given slot of column `k`.
    pub open spec fn cell_start(&self, k: int, slot: int) -> int {
        self.streams[k].offset + slot * self.streams[k].stride
    }

    /// The byte after the last byte of the given slot of column `k`.
    pub open spec fn cell_end(&self, k: int, slot: int) -> int {
        self.cell_start(k, slot) + self.streams[k].stride
    }

    /// There is at least one slot, no type has two columns, the columns
    /// follow one another without overlap, and all of them end inside the
    /// chunk.
    pub open spec fn wf(&self) -> bool {
        &&& self.max_slots >= 1
        &&& forall|i: int, j: int|
            0 <= i < j < self.streams.len() ==> (#[trigger] self.streams[i]).component_type_id.token()
                != (#[trigger] self.streams[j]).component_type_id.token()
        &&& forall|i: int, j: int|
            0 <= i < j < self.streams.len() ==> (#[trigger] self.streams[i]).offset
                + self.streams[i].stride * self.max_slots <= (#[trigger] self.streams[j]).offset
        &&& forall|i: int|
            0 <= i < self.streams.len() ==> (#[trigger] self.streams[i]).offset
                + self.streams[i].stride * self.max_slots <= CHUNK_SIZE
    }
}

/// The placement that a layout determines: as many slots as whole entities
/// fit in a chunk, and each column directly after the full width of the
/// columns before it.
pub open spec fn deduced_layout(layout: EntityLayoutView) -> ChunkLayoutView {
    let max_slots = CHUNK_SIZE as int / layout.total_size();
    ChunkLayoutView {
        max_slots,
        streams: Seq::new(
            layout.components.len(),
            |i: int|
                ComponentChunkLayoutStream {
                    component_type_id: layout.components[i],
                    offset: (prefix_size(layout.sizes, i) * max_slots) as usize,
                    stride: layout.sizes[i],
                },
        ),
    }
}

impl ComponentChunkLayout {
    /// What the chunk layout says.
    pub open(crate) spec fn view(&self) -> ChunkLayoutView {
        ChunkLayoutView { max_slots: self.max_slots as int, streams: self.streams@ }
    }

    /// Number of entities that one chunk holds.
    pub fn slots(&self) -> (r: usize)
        ensures
            r == self@.max_slots,
    {
        self.max_slots
    }

    /// Number of columns.
    pub fn column_count(&self) -> (r: usize)
        ensures
            r == self@.streams.len(),
    {
        self.streams.len()
    }

    /// The column at position `k`.
    pub fn stream(&self, k: usize) -> (r: ComponentChunkLayoutStream)
        requires
            k < self@.streams.len(),
        ensures
            r == self@.streams[k as int],
    {
        self.streams[k]
    }
}

/// A chunk layout with the given number of slots and the given columns.
pub fn component_chunk_layout(max_slots: usize, streams: Vec<ComponentChunkLayoutStream>) -> (r:
    ComponentChunkLayout)
    ensures
        r@ == (ChunkLayoutView { max_slots: max_slots as int, streams: streams@ }),
{
    ComponentChunkLayout { max_slots, streams }
}

proof fn lemma_mul_le(a: int, b: int, c: int)
    by (nonlinear_arith)
    requires
        0 <= a <= b,
        0 <= c,
    ensures
        a * c <= b * c,
        0 <= a * c,
{
}

proof fn lemma_div_mul_le(total: int, whole: int)
    by (nonlinear_arith)
    requires
        0 < total,
        0 <= whole,
    ensures
        0 <= whole / total,
        total * (whole / total) <= whole,
        whole < total * (whole / total + 1),
{
}

/// The columns of the layout, each placed after `max_slots` slots of the
/// columns before it.
pub fn deduce_component_chunk_layout_streams(layout: &EntityLayout, max_slots: usize) -> (r: Vec<
    ComponentChunkLayoutStream,
>)
    requires
        layout@.components.len() == layout@.sizes.len(),
        layout@.total_size() * max_slots <= usize::MAX,
    ensures
        streams_placed(r@, layout@, max_slots as int),
{
    let mut offset: usize = 0;
    let mut streams: Vec<ComponentChunkLayoutStream> = Vec::new();
    let mut i: usize = 0;
    proof {
        lemma_prefix_size_full(layout@.sizes);
    }
    while i < layout.len()
        invariant
            i <= layout@.components.len(),
            layout@.components.len() == layout@.sizes.len(),
            layout@.total_size() * max_slots <= usize::MAX,
            offset == prefix_size(layout@.sizes, i as int) * max_slots,
            streams@.len() == i,
            forall|k: int|
                0 <= k < i ==> #[trigger] streams@[k] == (ComponentChunkLayoutStream {
                    component_type_id: layout@.components[k],
                    offset: (prefix_size(layout@.sizes, k) * max_slots) as usize,
                    stride: layout@.sizes[k],
                }),
        decreases layout@.components.len() - i,
    {
        proof {
            lemma_prefix_size_step(layout@.sizes, i as int);
            lemma_prefix_size_monotone(layout@.sizes, i + 1, layout@.sizes.len() as int);
            lemma_prefix_size_monotone(layout@.sizes, 0, i + 1);
            lemma_prefix_size_full(layout@.sizes);
            lemma_mul_le(
                prefix_size(layout@.sizes, i + 1),
                layout@.total_size(),
                max_slots as int,
            );
            assert(prefix_size(layout@.sizes, i + 1) * max_slots == prefix_size(
                layout@.sizes,
                i as int,
            ) * max_slots + layout@.sizes[i as int] * max_slots) by (nonlinear_arith)
                requires
                    prefix_size(layout@.sizes, i + 1) == prefix_size(layout@.sizes, i as int)
                        + layout@.sizes[i as int],
            ;
        }
        let component_stream = deduce_component_chunk_layout_stream(
            &mut offset,
            max_slots,
            layout.component_at(i),
            layout.size_at(i),
        );
        streams.push(component_stream);
        i += 1;
    }
    streams
}

/// The placement of the layout's columns in a chunk.
pub fn deduce_chunk_layout(layout: &EntityLayout) -> (r: ComponentChunkLayout)
    requires
        layout@.components.len() == layout@.sizes.len(),
        1 <= layout@.total_size() <= usize::MAX,
    ensures
        r@ == deduced_layout(layout@),
{
    let total: usize = get_layout_size(layout);
    let max_slots: usize = CHUNK_SIZE / total;
    proof {
        lemma_div_mul_le(total as int, CHUNK_SIZE as int);
        assert(total * (CHUNK_SIZE as int / total as int) == layout@.total_size() * max_slots)
            by (nonlinear_arith)
            requires
                total == layout@.total_size(),
                max_slots == CHUNK_SIZE as int / total as int,
        ;
    }
    let r = component_chunk_layout(
        max_slots,
        deduce_component_chunk_layout_streams(layout, max_slots),
    );
    assert(r@ =~= deduced_layout(layout@));
    r
}

/// A placement deduced from a layout without duplicate types, of entities
/// that fit in a chunk, is well formed.
pub proof fn lemma_deduced_layout_wf(layout: EntityLayoutView)
    requires
        layout.wf(),
        layout.fits_chunk(),
    ensures
        deduced_layout(layout).wf(),
{
    let chunk_layout = deduced_layout(layout);
    let sizes = layout.sizes;
    let slots = chunk_layout.max_slots;
    let total = layout.total_size();
    lemma_div_mul_le(total, CHUNK_SIZE as int);
    assert(slots >= 1) by (nonlinear_arith)
        requires
            1 <= total <= CHUNK_SIZE,
            slots == CHUNK_SIZE as int / total,
    ;
    lemma_prefix_size_full(sizes);
    assert forall|i: int| 0 <= i < chunk_layout.streams.len() implies (
    #[trigger] chunk_layout.streams[i]).offset == prefix_size(sizes, i) * slots
        && chunk_layout.streams[i].offset + chunk_layout.streams[i].stride * slots
        == prefix_size(sizes, i + 1) * slots && prefix_size(sizes, i + 1) * slots <= CHUNK_SIZE by {
        lemma_prefix_size_step(sizes, i);
        lemma_prefix_size_monotone(sizes, 0, i);
        lemma_prefix_size_monotone(sizes, i, sizes.len() as int);
        lemma_prefix_size_monotone(sizes, i + 1, sizes.len() as int);
        lemma_mul_le(prefix_size(sizes, i), total, slots);
        lemma_mul_le(prefix_size(sizes, i + 1), total, slots);
        assert(total * slots <= CHUNK_SIZE) by (nonlinear_arith)
            requires
                total * (CHUNK_SIZE as int / total) <= CHUNK_SIZE,
                slots == CHUNK_SIZE as int / total,
        ;
        assert(prefix_size(sizes, i + 1) * slots == prefix_size(sizes, i) * slots + sizes[i]
            * slots) by (nonlinear_arith)
            requires
                prefix_size(sizes, i + 1) == prefix_size(sizes, i) + sizes[i],
        ;
    }
    assert forall|i: int, j: int| 0 <= i < j < chunk_layout.streams.len() implies (
    #[trigger] chunk_layout.streams[i]).offset + chunk_layout.streams[i].stride * slots <= (
    #[trigger] chunk_layout.streams[j]).offset by {
        lemma_prefix_size_monotone(sizes, i + 1, j);
        lemma_mul_le(prefix_size(sizes, i + 1), prefix_size(sizes, j), slots);
    }
    assert forall|i: int, j: int| 0 <= i < j < chunk_layout.streams.len() implies (
    #[trigger] chunk_layout.streams[i]).component_type_id.token() != (
    #[trigger] chunk_layout.streams[j]).component_type_id.token() by {
        assert(layout.types()[i] != layout.types()[j]);
    }
}


/// The column of the chunk layout that holds the given component type: the
/// last one, should there be several.
pub fn get_chunk_stream_for_component(
    component_type_id: ComponentTypeId,
    chunk_layout: &ComponentChunkLayout,
) -> (r: &ComponentChunkLayoutStream)
    requires
        chunk_layout@.has_component(component_type_id.token()),
    ensures
        *r == chunk_layout@.streams[chunk_layout@.column_of(component_type_id.token())],
        0 <= chunk_layout@.column_of(component_type_id.token()) < chunk_layout@.streams.len(),
        r.component_type_id.token() == component_type_id.token(),
{
    let ghost token = component_type_id.token();
    let mut found: usize = 0;
    let mut seen: bool = false;
    let mut i: usize = 0;
    while i < chunk_layout.streams.len()
        invariant
            i <= chunk_layout@.streams.len(),
            token == component_type_id.token(),
            seen ==> found < i && chunk_layout@.streams[found as int].component_type_id.token()
                == token,
            seen ==> forall|j: int|
                found < j < i ==> (#[trigger] chunk_layout@.streams[j]).component_type_id.token()
                    != token,
            !seen ==> forall|j: int|
                0 <= j < i ==> (#[trigger] chunk_layout@.streams[j]).component_type_id.token()
                    != token,
        decreases chunk_layout@.streams.len() - i,
    {
        if chunk_layout.streams[i].component_type_id == component_type_id {
            found = i;
            seen = true;
        }
        i += 1;
    }
    proof {
        let view = chunk_layout@;
        let last = choose|k: int|
            0 <= k < view.streams.len() && (#[trigger] view.streams[k]).component_type_id.token()
                == token;
        assert(seen);
        let column = view.column_of(token);
        assert(0 <= column < view.streams.len() && view.streams[column].component_type_id.token()
            == token && forall|j: int|
            column < j < view.streams.len() ==> (#[trigger] view.streams[j]).component_type_id.token()
                != token) by {
            assert(view.streams[found as int].component_type_id.token() == token);
        }
        assert(column == found) by {
            if column < found {
                assert(view.streams[found as int].component_type_id.token() != token);
            }
            if found < column {
                assert(view.streams[column].component_type_id.token() != token);
            }
        }
    }
    &chunk_layout.streams[found]
}

/// The byte at which the given slot of the given component type starts.
pub fn get_chunk_stream_offset_for_component(
    component_type: ComponentTypeId,
    chunk_layout: &ComponentChunkLayout,
    index: ComponentIndex,
) -> (r: usize)
    requires
        chunk_layout@.has_component(component_type.token()),
        chunk_layout@.cell_start(chunk_layout@.column_of(component_type.token()), index.0 as int)
            <= usize::MAX,
    ensures
        r == chunk_layout@.cell_start(
            chunk_layout@.column_of(component_type.token()),
            index.0 as int,
        ),
{
    let stream = get_chunk_stream_for_component(component_type, chunk_layout);
    get_offset_in_chunk_stream(stream, index)
}

/// In a well-formed chunk layout each type has one column, so the column of
/// a column's type is that column.
pub proof fn lemma_column_of_stream(layout: ChunkLayoutView, k: int)
    requires
        layout.wf(),
        0 <= k < layout.streams.len(),
    ensures
        layout.has_component(layout.streams[k].component_type_id.token()),
        layout.column_of(layout.streams[k].component_type_id.token()) == k,
{
    let token = layout.streams[k].component_type_id.token();
    assert forall|j: int| k < j < layout.streams.len() implies (
    #[trigger] layout.streams[j]).component_type_id.token() != token by {
        assert(layout.streams[k].component_type_id.token()
            != layout.streams[j].component_type_id.token());
    }
    let column = layout.column_of(token);
    if column < k {
        assert(layout.streams[column].component_type_id.token()
            != layout.streams[k].component_type_id.token());
    }
    if k < column {
        assert(layout.streams[k].component_type_id.token()
            != layout.streams[column].component_type_id.token());
    }
}

/// The column that a deduced chunk layout gives a type is the position of the
/// type in the entity layout.
pub proof fn lemma_deduced_columns(layout: EntityLayoutView, token: u64)
    requires
        layout.wf(),
        layout.fits_chunk(),
    ensures
        deduced_layout(layout).has_component(token) == layout.types().contains(token),
        layout.types().contains(token) ==> deduced_layout(layout).column_of(token)
            == layout.types().index_of(token) && 0 <= deduced_layout(layout).column_of(token)
            < layout.types().len(),
{
    let chunk_layout = deduced_layout(layout);
    lemma_deduced_layout_wf(layout);
    if layout.types().contains(token) {
        let k = layout.types().index_of(token);
        assert(layout.types()[k] == token);
        assert(chunk_layout.streams[k].component_type_id.token() == token);
        lemma_column_of_stream(chunk_layout, k);
    }
    if chunk_layout.has_component(token) {
        let k = choose|k: int|
            0 <= k < chunk_layout.streams.len() && (
            #[trigger] chunk_layout.streams[k]).component_type_id.token() == token;
        assert(layout.types()[k] == token);
    }
}

proof fn lemma_slot_order(low: int, high: int, stride: int)
    by (nonlinear_arith)
    requires
        0 <= low < high,
        0 <= stride,
    ensures
        0 <= low * stride,
        low * stride + stride <= high * stride,
{
}

/// The cells of a well-formed chunk layout lie inside the chunk.
pub proof fn lemma_cell_in_chunk(layout: ChunkLayoutView, k: int, slot: int)
    requires
        layout.wf(),
        0 <= k < layout.streams.len(),
        0 <= slot < layout.max_slots,
    ensures
        0 <= layout.cell_start(k, slot) <= layout.cell_end(k, slot) <= CHUNK_SIZE,
        layout.cell_end(k, slot) - layout.cell_start(k, slot) == layout.streams[k].stride,
{
    let stride = layout.streams[k].stride as int;
    lemma_slot_order(slot, layout.max_slots, stride);
    assert(stride * layout.max_slots == layout.max_slots * stride) by (nonlinear_arith);
    assert(layout.streams[k].offset + layout.streams[k].stride * layout.max_slots <= CHUNK_SIZE);
}

/// Two different cells of a well-formed chunk layout share no byte.
pub proof fn lemma_cells_disjoint(layout: ChunkLayoutView, k1: int, slot1: int, k2: int, slot2: int)
    requires
        layout.wf(),
        0 <= k1 < layout.streams.len(),
        0 <= k2 < layout.streams.len(),
        0 <= slot1 < layout.max_slots,
        0 <= slot2 < layout.max_slots,
        k1 != k2 || slot1 != slot2,
    ensures
        layout.cell_end(k1, slot1) <= layout.cell_start(k2, slot2) || layout.cell_end(k2, slot2)
            <= layout.cell_start(k1, slot1),
{
    lemma_cell_in_chunk(layout, k1, slot1);
    lemma_cell_in_chunk(layout, k2, slot2);
    let stride1 = layout.streams[k1].stride as int;
    let stride2 = layout.streams[k2].stride as int;
    if k1 == k2 {
        if slot1 < slot2 {
            lemma_slot_order(slot1, slot2, stride1);
        } else {
            lemma_slot_order(slot2, slot1, stride1);
        }
    } else if k1 < k2 {
        lemma_slot_order(slot1, layout.max_slots, stride1);
        assert(stride1 * layout.max_slots == layout.max_slots * stride1) by (nonlinear_arith);
        assert(layout.streams[k1].offset + layout.streams[k1].stride * layout.max_slots
            <= layout.streams[k2].offset);
        assert(0 <= slot2 * stride2) by (nonlinear_arith)
            requires
                0 <= slot2,
                0 <= stride2,
        ;
    } else {
        lemma_slot_order(slot2, layout.max_slots, stride2);
        assert(stride2 * layout.max_slots == layout.max_slots * stride2) by (nonlinear_arith);
        assert(layout.streams[k2].offset + layout.streams[k2].stride * layout.max_slots
            <= layout.streams[k1].offset);
        assert(0 <= slot1 * stride1) by (nonlinear_arith)
            requires
                0 <= slot1,
                0 <= stride1,
        ;
    }
}

} // verus!
