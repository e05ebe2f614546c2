//! Address arithmetic of the engine's allocators.

use vstd::prelude::*;

verus! {

/// The number is a power of two.
pub open spec fn is_power_of_two(n: usize) -> bool {
    n > 0 && n & (n - 1) as usize == 0
}

/// The address is a multiple of the power of two `align`: its low bits are
/// zero.
pub open spec fn is_aligned(addr: usize, align: usize) -> bool {
    addr & (align - 1) as usize == 0
}

/// The value as a `u32`, for values that fit.
pub fn safe_truncate_u64(value: u64) -> (r: u32)
    requires
        value <= 0xFFFF_FFFF,
    ensures
        r == value,
{
    value as u32
}

/// The address `addr + align - 1` with its low bits cleared.
pub open spec fn aligned_up(addr: usize, align: usize) -> usize {
    ((addr + align - 1) as usize) & !((align - 1) as usize)
}

/// The first address from `addr` on that is a multiple of the power of two
/// `align`.
pub fn align_up(addr: usize, align: usize) -> (r: usize)
    requires
        is_power_of_two(align),
        addr + align - 1 <= usize::MAX,
    ensures
        r == aligned_up(addr, align),
        is_aligned(r, align),
        addr <= r < addr + align,
{
    let mask: usize = align - 1;
    let bumped: usize = addr + mask;
    let r: usize = bumped & !mask;
    assert(r & mask == 0 && r <= bumped && bumped - r <= mask) by (bit_vector)
        requires
            align > 0,
            align & mask == 0,
            mask == (align - 1) as usize,
            r == bumped & !mask,
            bumped >= mask,
    ;
    r
}


/// An allocator that hands out the addresses of its heap one after another,
/// and takes all of them back at once when the last allocation is freed.
pub struct BumpAllocatorStrategy {
    pub(crate) initialised: bool,
    pub(crate) allocated: usize,
    pub(crate) heap_start: usize,
    pub(crate) heap_end: usize,
    pub(crate) next: usize,
    pub(crate) allocations: usize,
}

/// What a bump allocator holds.
pub struct BumpAllocatorView {
    /// Whether the heap was set.
    pub initialised: bool,
    /// Size of the allocation that was made last.
    pub allocated: usize,
    /// First address of the heap.
    pub heap_start: usize,
    /// The address after the last address of the heap.
    pub heap_end: usize,
    /// The address from which the next allocation is made.
    pub next: usize,
    /// Number of allocations that were not freed yet.
    pub allocations: usize,
}

impl BumpAllocatorView {
    /// The next allocation starts inside the heap or at its end.
    pub open spec fn wf(&self) -> bool {
        self.heap_start <= self.next <= self.heap_end
    }

    /// The address at which an allocation of the given size and alignment
    /// is made, if the heap has room for it.
    pub open spec fn place_for(&self, size: usize, align: usize) -> Option<usize> {
        let start = aligned_up(self.next, align);
        if start + size <= self.heap_end {
            Some(start)
        } else {
            None
        }
    }
}

impl BumpAllocatorStrategy {
    /// What the allocator holds.
    pub open(crate) spec fn view(&self) -> BumpAllocatorView {
        BumpAllocatorView {
            initialised: self.initialised,
            allocated: self.allocated,
            heap_start: self.heap_start,
            heap_end: self.heap_end,
            next: self.next,
            allocations: self.allocations,
        }
    }

    /// An allocator without a heap.
    pub fn new() -> (r: Self)
        ensures
            r@ == (BumpAllocatorView {
                initialised: false,
                allocated: 0,
                heap_start: 0,
                heap_end: 0,
                next: 0,
                allocations: 0,
            }),
    {
        BumpAllocatorStrategy {
            initialised: false,
            allocated: 0,
            heap_start: 0,
            heap_end: 0,
            next: 0,
            allocations: 0,
        }
    }

    /// Whether the heap was set.
    pub fn initialised(&self) -> (r: bool)
        ensures
            r == self@.initialised,
    {
        self.initialised
    }

    /// Size of the allocation that was made last.
    pub fn allocated(&self) -> (r: usize)
        ensures
            r == self@.allocated,
    {
        self.allocated
    }

    /// Sets the heap: `heap_size` bytes from `heap_start` on, none of them
    /// allocated.
    pub fn init(&mut self, heap_start: usize, heap_size: usize)
        requires
            heap_start + heap_size <= usize::MAX,
        ensures
            final(self)@.wf(),
            final(self)@ == (BumpAllocatorView {
                initialised: true,
                heap_start,
                heap_end: (heap_start + heap_size) as usize,
                next: heap_start,
                ..old(self)@
            }),
    {
        self.heap_start = heap_start;
        self.heap_end = heap_start + heap_size;
        self.next = heap_start;
        self.initialised = true;
    }

    /// Allocates `size` bytes at the first multiple of `align` that is free,
    /// and returns their address; nothing if the heap has no room for them.
    pub fn allocate(&mut self, size: usize, align: usize) -> (r: Option<usize>)
        requires
            old(self)@.wf(),
            is_power_of_two(align),
            old(self)@.next + align - 1 <= usize::MAX,
            old(self)@.allocations < usize::MAX,
        ensures
            final(self)@.wf(),
            r == old(self)@.place_for(size, align),
            match r {
                Some(start) => is_aligned(start, align) && old(self)@.next <= start && final(self)@
                    == (BumpAllocatorView {
                    next: (start + size) as usize,
                    allocations: (old(self)@.allocations + 1) as usize,
                    allocated: size,
                    ..old(self)@
                }),
                None => final(self)@ == old(self)@,
            },
    {
        let alloc_start: usize = align_up(self.next, align);
        let alloc_end: usize = match alloc_start.checked_add(size) {
            Some(end) => end,
            None => {
                return None;
            },
        };
        if alloc_end > self.heap_end {
            None
        } else {
            self.next = alloc_end;
            self.allocations += 1;
            self.allocated = alloc_end - alloc_start;
            Some(alloc_start)
        }
    }

    /// Frees one allocation. When none is left, the whole heap is free
    /// again.
    pub fn dealloc(&mut self)
        requires
            old(self)@.allocations > 0,
        ensures
            final(self)@ == (BumpAllocatorView {
                allocations: (old(self)@.allocations - 1) as usize,
                next: if old(self)@.allocations == 1 {
                    old(self)@.heap_start
                } else {
                    old(self)@.next
                },
                ..old(self)@
            }),
    {
        self.allocations -= 1;
        if self.allocations == 0 {
            self.next = self.heap_start;
        }
    }

    /// Number of bytes of the heap.
    pub fn heap_size(&self) -> (r: usize)
        requires
            self@.heap_start <= self@.heap_end,
        ensures
            r == self@.heap_end - self@.heap_start,
    {
        self.heap_end - self.heap_start
    }

    /// First address of the heap.
    pub fn heap_start(&self) -> (r: usize)
        ensures
            r == self@.heap_start,
    {
        self.heap_start
    }

    /// The address from which the next allocation is made.
    pub fn next(&self) -> (r: usize)
        ensures
            r == self@.next,
    {
        self.next
    }

    /// Number of allocations that were not freed yet.
    pub fn allocations(&self) -> (r: usize)
        ensures
            r == self@.allocations,
    {
        self.allocations
    }
}

/// Number of block sizes of the fixed-size block allocator.
pub const BLOCK_SIZE_COUNT: usize = 14;

/// The block sizes of the fixed-size block allocator: 8 bytes, and each
/// further size twice the one before.
pub open spec fn block_size_of(index: int) -> int
    decreases index,
{
    if index <= 0 {
        8
    } else {
        2 * block_size_of(index - 1)
    }
}

/// Block sizes grow with their index, and the largest is 65536.
pub proof fn lemma_block_sizes(low: int, high: int)
    requires
        0 <= low <= high < BLOCK_SIZE_COUNT,
    ensures
        8 <= block_size_of(low) <= block_size_of(high) <= 65536,
    decreases high - low,
{
    reveal_with_fuel(block_size_of, 15);
    if low < high {
        lemma_block_sizes(low, high - 1);
    }
}

/// The block size at the given index.
pub fn block_size(index: usize) -> (r: usize)
    requires
        index < BLOCK_SIZE_COUNT,
    ensures
        r == block_size_of(index as int),
{
    let mut size: usize = 8;
    let mut i: usize = 0;
    while i < index
        invariant
            i <= index < BLOCK_SIZE_COUNT,
            size == block_size_of(i as int),
        decreases index - i,
    {
        proof {
            lemma_block_sizes(i as int + 1, i as int + 1);
        }
        size = size * 2;
        i += 1;
    }
    size
}

/// The index of the smallest block size that holds an allocation of the
/// given size and alignment; nothing if no block size does.
pub fn page_block_index(size: usize, align: usize) -> (r: Option<usize>)
    ensures
        match r {
            Some(index) => {
                &&& index < BLOCK_SIZE_COUNT
                &&& size <= block_size_of(index as int)
                &&& align <= block_size_of(index as int)
                &&& forall|smaller: int|
                    0 <= smaller < index ==> block_size_of(smaller) < size || block_size_of(smaller)
                        < align
            },
            None => forall|index: int|
                0 <= index < BLOCK_SIZE_COUNT ==> block_size_of(index) < size || block_size_of(index)
                    < align,
        },
{
    let required_block_size: usize = if size >= align {
        size
    } else {
        align
    };
    let mut index: usize = 0;
    while index < BLOCK_SIZE_COUNT
        invariant
            index <= BLOCK_SIZE_COUNT,
            required_block_size == if size >= align {
                size
            } else {
                align
            },
            forall|smaller: int| 0 <= smaller < index ==> block_size_of(smaller) < required_block_size,
        decreases BLOCK_SIZE_COUNT - index,
    {
        if block_size(index) >= required_block_size {
            return Some(index);
        }
        index += 1;
    }
    None
}

} // verus!
