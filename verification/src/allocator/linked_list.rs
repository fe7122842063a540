//! A free-list allocator: a list of free regions, searched first-fit from
//! the head. A region that is chosen leaves the list; what is left of it
//! behind the block goes back to the head. Released blocks go back to the
//! head too, and neighbours are never merged.

use vstd::prelude::*;
use crate::allocator::layout::{valid_size_align, Layout};
use crate::allocator::{
    align_up_spec, checked_align_up, is_power_of_two, lemma_align_up_spec,
    lemma_power_of_two_divides, ranges_disjoint,
};

verus! {

/// The bytes that the record of a free region takes at the start of that
/// region: its size and the link to the next one.
pub const NODE_SIZE: usize = 16;

/// The alignment that such a record needs.
pub const NODE_ALIGN: usize = 8;

/// The record of a free region is aligned to a power of two.
pub proof fn lemma_node_align()
    ensures
        is_power_of_two(NODE_ALIGN),
        is_power_of_two(NODE_SIZE),
{
    assert(8usize & 7usize == 0) by (bit_vector);
    assert(16usize & 15usize == 0) by (bit_vector);
}

/// A free region: where it starts and how many bytes it has.
#[derive(Clone, Copy, Debug, PartialEq, Eq, Structural)]
pub struct Node {
    /// The address of the first byte.
    pub start: usize,
    /// The length in bytes.
    pub size: usize,
}

impl Node {
    /// The address past the last byte.
    pub open spec fn end(self) -> int {
        self.start + self.size
    }

    /// Whether the region can be on a free list: it starts where a record
    /// may stand, has room for one, and ends within the address space.
    pub open spec fn wf(self) -> bool {
        &&& self.start % NODE_ALIGN == 0
        &&& self.size >= NODE_SIZE
        &&& self.end() <= usize::MAX
    }

    /// Where a block of the given alignment would start in this region.
    pub open spec fn alloc_start(self, align: usize) -> int {
        align_up_spec(self.start as int, align as int)
    }

    /// What would be left of the region behind a block of the given size and
    /// alignment. Negative if the block does not go in.
    pub open spec fn excess(self, size: usize, align: usize) -> int {
        self.end() - (self.alloc_start(align) + size)
    }

    /// Whether the region can take a block of the given size and alignment:
    /// the block goes in, and what is left behind it is either nothing or
    /// enough for the record of a free region.
    pub open spec fn fits(self, size: usize, align: usize) -> bool {
        self.excess(size, align) == 0 || self.excess(size, align) >= NODE_SIZE
    }

    /// The region of `size` bytes from `start`.
    pub fn new(start: usize, size: usize) -> (node: Node)
        ensures
            node == (Node { start, size }),
    {
        Node { start, size }
    }

    /// The address of the first byte.
    pub fn start_addr(&self) -> (addr: usize)
        ensures
            addr == self.start,
    {
        self.start
    }

    /// The address past the last byte.
    pub fn end_addr(&self) -> (addr: usize)
        requires
            self.end() <= usize::MAX,
        ensures
            addr == self.end(),
    {
        self.start + self.size
    }
}

/// The alignment that a block of the given layout gets: that of the layout,
/// or that of the record of a free region if it is larger.
pub open spec fn adjusted_align(layout: Layout) -> usize {
    if layout.align() >= NODE_ALIGN {
        layout.align()
    } else {
        NODE_ALIGN
    }
}

/// Whether a block of the given layout can later hold the record of a free
/// region: its size, padded to the adjusted alignment, is a valid size.
pub open spec fn adjustable(layout: Layout) -> bool {
    valid_size_align(layout.size(), adjusted_align(layout))
}

/// The size that a block of the given layout gets: that of the layout, padded
/// to the adjusted alignment, and at least the size of the record of a free
/// region.
pub open spec fn adjusted_size(layout: Layout) -> usize {
    let padded = align_up_spec(layout.size() as int, adjusted_align(layout) as int);
    if padded >= NODE_SIZE {
        padded as usize
    } else {
        NODE_SIZE
    }
}

/// The adjusted alignment is a power of two of at least `NODE_ALIGN`; the
/// adjusted size is a multiple of `NODE_ALIGN`, no less than the size asked
/// for and no less than `NODE_SIZE`.
pub proof fn lemma_adjusted(layout: Layout)
    requires
        layout.wf(),
        adjustable(layout),
    ensures
        is_power_of_two(adjusted_align(layout)),
        adjusted_align(layout) >= NODE_ALIGN,
        adjusted_align(layout) >= layout.align(),
        adjusted_align(layout) % NODE_ALIGN == 0,
        adjusted_align(layout) % layout.align() == 0,
        adjusted_size(layout) >= layout.size(),
        adjusted_size(layout) >= NODE_SIZE,
        adjusted_size(layout) % NODE_ALIGN == 0,
        adjusted_size(layout) <= isize::MAX,
{
    lemma_node_align();
    let align = adjusted_align(layout);
    lemma_align_up_spec(layout.size() as int, align as int);
    lemma_align_up_spec(align as int, align as int);
    lemma_power_of_two_divides(align, NODE_ALIGN, align);
    lemma_power_of_two_divides(align, layout.align(), align);
    let padded = align_up_spec(layout.size() as int, align as int);
    if padded >= NODE_SIZE {
        lemma_power_of_two_divides(padded as usize, NODE_ALIGN, align);
    }
}

/// What a free-list allocator is, as plain values.
pub struct FreeListState {
    /// The free regions in list order, the head first.
    pub free: Seq<Node>,
    /// The blocks in use: where each one starts, and the layout that it was
    /// asked for.
    pub live: Map<usize, Layout>,
    /// First address of the heap.
    pub heap_start: usize,
    /// First address past the heap.
    pub heap_end: usize,
}

impl FreeListState {
    /// The allocator before `init`: no heap, nothing free, nothing in use.
    pub open spec fn empty() -> FreeListState {
        FreeListState { free: Seq::empty(), live: Map::empty(), heap_start: 0, heap_end: 0 }
    }

    /// The allocator right after `init`: the whole heap is one free region.
    pub open spec fn init(heap_start: usize, heap_size: usize) -> FreeListState {
        FreeListState {
            free: seq![Node { start: heap_start, size: heap_size }],
            live: Map::empty(),
            heap_start,
            heap_end: (heap_start + heap_size) as usize,
        }
    }

    /// Whether every region on the list can be there.
    pub open spec fn nodes_wf(self) -> bool {
        forall|i: int| 0 <= i < self.free.len() ==> (#[trigger] self.free[i]).wf()
    }

    /// Whether the block in use at `addr` is as it should be: its layout is
    /// valid and could be adjusted, it is aligned to the adjusted alignment,
    /// and with its adjusted size it lies in the heap.
    pub open spec fn live_ok(self, addr: usize) -> bool {
        let layout = self.live[addr];
        &&& layout.wf()
        &&& adjustable(layout)
        &&& addr % adjusted_align(layout) == 0
        &&& self.heap_start <= addr
        &&& addr + adjusted_size(layout) <= self.heap_end
    }

    /// The invariant of the allocator: free regions and blocks in use all lie
    /// in the heap, and no two of them share a byte.
    pub open spec fn wf(self) -> bool {
        &&& self.nodes_wf()
        &&& forall|i: int|
            0 <= i < self.free.len() ==> self.heap_start <= (#[trigger] self.free[i]).start
                && self.free[i].end() <= self.heap_end
        &&& forall|i: int, j: int|
            0 <= i < j < self.free.len() ==> ranges_disjoint(
                (#[trigger] self.free[i]).start as int,
                self.free[i].size as int,
                (#[trigger] self.free[j]).start as int,
                self.free[j].size as int,
            )
        &&& forall|a: usize| #[trigger] self.live.contains_key(a) ==> self.live_ok(a)
        &&& forall|a: usize, b: usize|
            #[trigger] self.live.contains_key(a) && #[trigger] self.live.contains_key(b) && a != b
                ==> ranges_disjoint(
                a as int,
                adjusted_size(self.live[a]) as int,
                b as int,
                adjusted_size(self.live[b]) as int,
            )
        &&& forall|a: usize, i: int|
            #[trigger] self.live.contains_key(a) && 0 <= i < self.free.len() ==> ranges_disjoint(
                a as int,
                adjusted_size(self.live[a]) as int,
                (#[trigger] self.free[i]).start as int,
                self.free[i].size as int,
            )
    }

    /// The place in the list, from `from` on, of the first region that can
    /// take a block of the given size and alignment.
    pub open spec fn first_fit_from(self, size: usize, align: usize, from: int) -> Option<int>
        decreases self.free.len() - from,
    {
        if from < 0 || from >= self.free.len() {
            None
        } else if self.free[from].fits(size, align) {
            Some(from)
        } else {
            self.first_fit_from(size, align, from + 1)
        }
    }

    /// The place in the list of the first region that can take a block of the
    /// given size and alignment.
    pub open spec fn first_fit(self, size: usize, align: usize) -> Option<int> {
        self.first_fit_from(size, align, 0)
    }

    /// What `add_free_region` does: the region becomes the head of the list.
    pub open spec fn add_free_region(self, addr: usize, size: usize) -> FreeListState {
        FreeListState { free: self.free.insert(0, Node { start: addr, size }), ..self }
    }

    /// What `find_region` does: the first region that fits leaves the list.
    pub open spec fn find_region(self, size: usize, align: usize) -> (
        FreeListState,
        Option<(Node, usize)>,
    ) {
        match self.first_fit(size, align) {
            Some(i) => (
                FreeListState { free: self.free.remove(i), ..self },
                Some((self.free[i], self.free[i].alloc_start(align) as usize)),
            ),
            None => (self, None),
        }
    }

    /// What `allocate` does: the new state and the address handed out.
    ///
    /// The block is cut from the first region that fits, at the first address
    /// in it that has the adjusted alignment. The bytes of the region behind
    /// the block become a free region at the head of the list. Those before
    /// the block, if the region did not start aligned, are neither free nor
    /// in use afterwards.
    pub open spec fn allocate(self, layout: Layout) -> (FreeListState, Option<usize>) {
        if !adjustable(layout) {
            (self, None)
        } else {
            let size = adjusted_size(layout);
            let align = adjusted_align(layout);
            match self.find_region(size, align) {
                (found, Some((region, start))) => {
                    let excess = region.excess(size, align);
                    let rest = if excess > 0 {
                        found.add_free_region((start + size) as usize, excess as usize)
                    } else {
                        found
                    };
                    (FreeListState { live: self.live.insert(start, layout), ..rest }, Some(start))
                },
                (_, None) => (self, None),
            }
        }
    }

    /// What `dealloc` does: the block, with its adjusted size, becomes a free
    /// region at the head of the list.
    pub open spec fn dealloc(self, ptr: usize, layout: Layout) -> FreeListState {
        FreeListState {
            live: self.live.remove(ptr),
            ..self.add_free_region(ptr, adjusted_size(layout))
        }
    }
}

/// A free-list allocator.
pub struct LinkedListAlloc {
    /// The free regions, the head of the list last.
    regions: Vec<Node>,
    live: Ghost<Map<usize, Layout>>,
    heap: Ghost<(usize, usize)>,
}

impl View for LinkedListAlloc {
    type V = FreeListState;

    closed spec fn view(&self) -> FreeListState {
        FreeListState {
            free: self.regions@.reverse(),
            live: self.live@,
            heap_start: self.heap@.0,
            heap_end: self.heap@.1,
        }
    }
}

/// Appending to a sequence puts a new head on the reversed sequence.
proof fn lemma_reverse_push(s: Seq<Node>, node: Node)
    ensures
        s.push(node).reverse() == s.reverse().insert(0, node),
{
    assert(s.push(node).reverse() =~= s.reverse().insert(0, node));
}

/// Removing from a sequence removes at the mirrored place of the reversed
/// sequence.
proof fn lemma_reverse_remove(s: Seq<Node>, i: int)
    requires
        0 <= i < s.len(),
    ensures
        s.remove(s.len() - 1 - i).reverse() == s.reverse().remove(i),
{
    assert(s.remove(s.len() - 1 - i).reverse() =~= s.reverse().remove(i));
}

impl LinkedListAlloc {
    /// An allocator without a heap. Nothing fits in it until `init`.
    pub fn new() -> (fresh: Self)
        ensures
            fresh@ == FreeListState::empty(),
            fresh@.wf(),
    {
        let fresh = Self { regions: Vec::new(), live: Ghost(Map::empty()), heap: Ghost((0, 0)) };
        assert(fresh@.free =~= Seq::empty());
        fresh
    }

    /// Gives the allocator its heap, the `heap_size` bytes from `heap_start`,
    /// as one free region.
    ///
    /// To be called once, on an allocator that `new` has just made. The heap
    /// must be able to hold the record of a free region at its start.
    pub fn init(&mut self, heap_start: usize, heap_size: usize)
        requires
            old(self)@ == FreeListState::empty(),
            (Node { start: heap_start, size: heap_size }).wf(),
        ensures
            final(self)@ == FreeListState::init(heap_start, heap_size),
            final(self)@.wf(),
    {
        self.heap = Ghost((heap_start, (heap_start + heap_size) as usize));
        self.add_free_region(heap_start, heap_size);
        assert(self@.free =~= seq![Node { start: heap_start, size: heap_size }]);
    }

    /// Adjust the given layout so that the resulting allocated memory
    /// region is also capable of storing a `Node`.
    ///
    /// Returns the adjusted size and alignment as a (size, align) tuple.
    pub fn size_align(layout: Layout) -> (adjusted: (usize, usize))
        requires
            layout.wf(),
            adjustable(layout),
        ensures
            adjusted == (adjusted_size(layout), adjusted_align(layout)),
    {
        proof {
            lemma_node_align();
            Layout::lemma_of(layout.size(), adjusted_align(layout));
        }
        let widened = layout.align_to(NODE_ALIGN).expect("adjusting alignment failed");
        let layout = widened.pad_to_align();
        proof {
            Layout::lemma_of(widened.padded_size() as usize, widened.align());
            lemma_align_up_spec(widened.size() as int, widened.align() as int);
        }
        let size = if layout.size() >= NODE_SIZE {
            layout.size()
        } else {
            NODE_SIZE
        };
        (size, layout.align())
    }

    /// Adds the given memory region to the front of the list.
    pub fn add_free_region(&mut self, addr: usize, size: usize)
        requires
            (Node { start: addr, size }).wf(),
        ensures
            final(self)@ == old(self)@.add_free_region(addr, size),
    {
        proof {
            lemma_reverse_push(self.regions@, Node { start: addr, size });
        }
        let node = Node::new(addr, size);
        self.regions.push(node);
    }

    /// Looks for a free region with the given size and alignment and removes
    /// it from the list.
    ///
    /// Returns a tuple of the list node and the start address of the allocation.
    pub fn find_region(&mut self, size: usize, align: usize) -> (found: Option<(Node, usize)>)
        requires
            old(self)@.nodes_wf(),
            is_power_of_two(align),
        ensures
            (final(self)@, found) == old(self)@.find_region(size, align),
    {
        let count = self.regions.len();
        let mut passed: usize = 0;
        while passed < count
            invariant
                passed <= count == self.regions.len(),
                *self == *old(self),
                self@.nodes_wf(),
                is_power_of_two(align),
                forall|j: int| 0 <= j < passed ==> !(#[trigger] self@.free[j]).fits(size, align),
            decreases count - passed,
        {
            let at = count - 1 - passed;
            let region = self.regions[at];
            assert(region == self@.free[passed as int]);
            match Self::alloc_from_region(&region, size, align) {
                Some(alloc_start) => {
                    proof {
                        self@.lemma_first_fit_is(size, align, passed as int);
                        lemma_reverse_remove(self.regions@, passed as int);
                    }
                    let taken = self.regions.remove(at);
                    return Some((taken, alloc_start));
                },
                None => {
                    passed += 1;
                },
            }
        }
        proof {
            self@.lemma_first_fit_none(size, align);
        }
        None
    }

    /// Allocates a region currently populated by a Node instance and excess memory
    /// given a region and a size of allocation as well as alignment constraints.
    /// The allocated region should either fit perfectly, thus leaving no excess free space,
    /// or leave at least `NODE_SIZE` bytes of excess for the creation of a new Node.
    pub fn alloc_from_region(region: &Node, size: usize, align: usize) -> (alloc_start: Option<
        usize,
    >)
        requires
            region.end() <= usize::MAX,
            is_power_of_two(align),
        ensures
            alloc_start == (if region.fits(size, align) {
                Some(region.alloc_start(align) as usize)
            } else {
                None
            }),
    {
        proof {
            lemma_align_up_spec(region.start as int, align as int);
        }
        let alloc_start = checked_align_up(region.start_addr(), align)?;
        let alloc_end = alloc_start.checked_add(size)?;

        if alloc_end > region.end_addr() {
            return None;
        }
        let excess_size = region.end_addr() - alloc_end;

        // Either allocation fits perfectly in the slab, or if not, a Node should fit.
        // If not the case, not possible to allocate.
        if excess_size > 0 && excess_size < NODE_SIZE {
            return None;
        }
        Some(alloc_start)
    }

    /// Hands out a block for the given layout, cut from the first free region
    /// that can take it; `None` if none can, or if the layout cannot be
    /// adjusted to hold the record of a free region.
    pub fn allocate(&mut self, layout: Layout) -> (block: Option<usize>)
        requires
            old(self)@.wf(),
            layout.wf(),
        ensures
            (final(self)@, block) == old(self)@.allocate(layout),
            final(self)@.wf(),
            block matches Some(addr) ==> {
                &&& addr % layout.align() == 0
                &&& final(self)@.heap_start <= addr
                &&& addr + layout.size() <= final(self)@.heap_end
                &&& forall|b: usize| #[trigger]
                    old(self)@.live.contains_key(b) ==> ranges_disjoint(
                        b as int,
                        adjusted_size(old(self)@.live[b]) as int,
                        addr as int,
                        adjusted_size(layout) as int,
                    )
            },
    {
        proof {
            lemma_node_align();
            self@.lemma_allocate_keeps_wf(layout);
            self@.lemma_first_fit(adjusted_size(layout), adjusted_align(layout));
        }
        if layout.align_to(NODE_ALIGN).is_err() {
            return None;
        }
        let (size, align) = Self::size_align(layout);
        proof {
            lemma_adjusted(layout);
        }
        match self.find_region(size, align) {
            Some((region, alloc_start)) => {
                proof {
                    lemma_align_up_spec(region.start as int, align as int);
                }
                let alloc_end = alloc_start + size;
                let excess_size = region.end_addr() - alloc_end;
                if excess_size > 0 {
                    proof {
                        lemma_power_of_two_divides(alloc_start, NODE_ALIGN, align);
                    }
                    self.add_free_region(alloc_end, excess_size);
                }
                self.live = Ghost(self.live@.insert(alloc_start, layout));
                Some(alloc_start)
            },
            None => None,
        }
    }

    /// Takes back a block that `allocate` handed out for this layout and that
    /// has not been released since. The block goes to the head of the free
    /// list, with the size it was given.
    pub fn dealloc(&mut self, ptr: usize, layout: Layout)
        requires
            old(self)@.wf(),
            old(self)@.live.contains_key(ptr),
            old(self)@.live[ptr] == layout,
        ensures
            final(self)@ == old(self)@.dealloc(ptr, layout),
            final(self)@.wf(),
    {
        proof {
            self@.lemma_dealloc_keeps_wf(ptr, layout);
            assert(self@.live_ok(ptr));
        }
        let (size, _) = Self::size_align(layout);
        self.add_free_region(ptr, size);
        self.live = Ghost(self.live@.remove(ptr));
    }
}

impl FreeListState {
    /// From `from` on, `first_fit_from` finds a region that fits and that no
    /// fitting region precedes, or none fits.
    pub proof fn lemma_first_fit_from(self, size: usize, align: usize, from: int)
        requires
            0 <= from,
        ensures
            match self.first_fit_from(size, align, from) {
                Some(i) => {
                    &&& from <= i < self.free.len()
                    &&& self.free[i].fits(size, align)
                    &&& forall|j: int| from <= j < i ==> !(#[trigger] self.free[j]).fits(size, align)
                },
                None => forall|j: int|
                    from <= j < self.free.len() ==> !(#[trigger] self.free[j]).fits(size, align),
            },
        decreases self.free.len() - from,
    {
        if from < self.free.len() && !self.free[from].fits(size, align) {
            self.lemma_first_fit_from(size, align, from + 1);
        }
    }

    /// First fit: the region chosen fits, and none before it in the list
    /// does; none is chosen only if none fits.
    pub proof fn lemma_first_fit(self, size: usize, align: usize)
        ensures
            match self.first_fit(size, align) {
                Some(i) => {
                    &&& 0 <= i < self.free.len()
                    &&& self.free[i].fits(size, align)
                    &&& forall|j: int| 0 <= j < i ==> !(#[trigger] self.free[j]).fits(size, align)
                },
                None => forall|j: int|
                    0 <= j < self.free.len() ==> !(#[trigger] self.free[j]).fits(size, align),
            },
    {
        self.lemma_first_fit_from(size, align, 0);
    }

    /// The first region that fits is the one that `first_fit` names.
    pub proof fn lemma_first_fit_is(self, size: usize, align: usize, i: int)
        requires
            0 <= i < self.free.len(),
            self.free[i].fits(size, align),
            forall|j: int| 0 <= j < i ==> !(#[trigger] self.free[j]).fits(size, align),
        ensures
            self.first_fit(size, align) == Some(i),
    {
        self.lemma_first_fit(size, align);
    }

    /// Where no region fits, `first_fit` names none.
    pub proof fn lemma_first_fit_none(self, size: usize, align: usize)
        requires
            forall|j: int| 0 <= j < self.free.len() ==> !(#[trigger] self.free[j]).fits(size, align),
        ensures
            self.first_fit(size, align) is None,
    {
        self.lemma_first_fit(size, align);
    }

    /// Whether the `len` bytes from `addr` lie in the heap and belong neither
    /// to a free region nor to a block in use.
    pub open spec fn range_unused(self, addr: int, len: int) -> bool {
        &&& self.heap_start <= addr
        &&& addr + len <= self.heap_end
        &&& forall|i: int|
            0 <= i < self.free.len() ==> ranges_disjoint(
                addr,
                len,
                (#[trigger] self.free[i]).start as int,
                self.free[i].size as int,
            )
        &&& forall|a: usize| #[trigger]
            self.live.contains_key(a) ==> ranges_disjoint(
                a as int,
                adjusted_size(self.live[a]) as int,
                addr,
                len,
            )
    }

    /// A part of an unused range is unused.
    pub proof fn lemma_range_unused_part(self, addr: int, len: int, part: int, part_len: int)
        requires
            self.range_unused(addr, len),
            addr <= part,
            0 <= part_len,
            part + part_len <= addr + len,
        ensures
            self.range_unused(part, part_len),
    {
    }

    /// An unused range that can hold a free region can join the list. What
    /// was unused beside it stays unused.
    pub proof fn lemma_add_free_region_keeps_wf(self, addr: usize, size: usize)
        requires
            self.wf(),
            (Node { start: addr, size }).wf(),
            self.range_unused(addr as int, size as int),
        ensures
            self.add_free_region(addr, size).wf(),
            forall|other: int, len: int|
                self.range_unused(other, len) && ranges_disjoint(
                    other,
                    len,
                    addr as int,
                    size as int,
                ) ==> #[trigger] self.add_free_region(addr, size).range_unused(other, len),
    {
        let after = self.add_free_region(addr, size);
        assert forall|i: int| 0 <= i < after.free.len() implies (#[trigger] after.free[i]).wf()
            && self.heap_start <= after.free[i].start && after.free[i].end() <= self.heap_end by {
            if i > 0 {
                assert(after.free[i] == self.free[i - 1]);
            }
        }
        assert forall|i: int, j: int| 0 <= i < j < after.free.len() implies ranges_disjoint(
            (#[trigger] after.free[i]).start as int,
            after.free[i].size as int,
            (#[trigger] after.free[j]).start as int,
            after.free[j].size as int,
        ) by {
            assert(after.free[j] == self.free[j - 1]);
            if i > 0 {
                assert(after.free[i] == self.free[i - 1]);
            }
        }
        assert forall|a: usize, i: int| #[trigger]
            after.live.contains_key(a) && 0 <= i < after.free.len() implies ranges_disjoint(
            a as int,
            adjusted_size(after.live[a]) as int,
            (#[trigger] after.free[i]).start as int,
            after.free[i].size as int,
        ) by {
            if i > 0 {
                assert(after.free[i] == self.free[i - 1]);
            }
        }
        assert forall|a: usize| #[trigger] after.live.contains_key(a) implies after.live_ok(a) by {
            assert(self.live_ok(a));
        }
        assert forall|other: int, len: int|
            self.range_unused(other, len) && ranges_disjoint(
                other,
                len,
                addr as int,
                size as int,
            ) implies #[trigger] after.range_unused(other, len) by {
            assert forall|i: int| 0 <= i < after.free.len() implies ranges_disjoint(
                other,
                len,
                (#[trigger] after.free[i]).start as int,
                after.free[i].size as int,
            ) by {
                if i > 0 {
                    assert(after.free[i] == self.free[i - 1]);
                }
            }
        }
    }

    /// Taking a region off the list keeps the invariant and leaves the bytes
    /// of the region unused.
    pub proof fn lemma_remove_keeps_wf(self, i: int)
        requires
            self.wf(),
            0 <= i < self.free.len(),
        ensures
            (FreeListState { free: self.free.remove(i), ..self }).wf(),
            (FreeListState { free: self.free.remove(i), ..self }).range_unused(
                self.free[i].start as int,
                self.free[i].size as int,
            ),
    {
        let after = FreeListState { free: self.free.remove(i), ..self };
        assert forall|k: int| 0 <= k < after.free.len() implies (#[trigger] after.free[k]).wf()
            && self.heap_start <= after.free[k].start && after.free[k].end() <= self.heap_end
            && ranges_disjoint(
            self.free[i].start as int,
            self.free[i].size as int,
            after.free[k].start as int,
            after.free[k].size as int,
        ) by {
            assert(after.free[k] == self.free[if k < i { k } else { k + 1 }]);
        }
        assert forall|k: int, j: int| 0 <= k < j < after.free.len() implies ranges_disjoint(
            (#[trigger] after.free[k]).start as int,
            after.free[k].size as int,
            (#[trigger] after.free[j]).start as int,
            after.free[j].size as int,
        ) by {
            assert(after.free[k] == self.free[if k < i { k } else { k + 1 }]);
            assert(after.free[j] == self.free[if j < i { j } else { j + 1 }]);
        }
        assert forall|a: usize, k: int| #[trigger]
            after.live.contains_key(a) && 0 <= k < after.free.len() implies ranges_disjoint(
            a as int,
            adjusted_size(after.live[a]) as int,
            (#[trigger] after.free[k]).start as int,
            after.free[k].size as int,
        ) by {
            assert(after.free[k] == self.free[if k < i { k } else { k + 1 }]);
        }
        assert forall|a: usize| #[trigger] after.live.contains_key(a) implies after.live_ok(a) by {
            assert(self.live_ok(a));
        }
        assert(self.free[i].wf());
    }

    /// An unused range that is aligned for a layout and has the adjusted size
    /// of it can become a block in use.
    pub proof fn lemma_claim_keeps_wf(self, addr: usize, layout: Layout)
        requires
            self.wf(),
            layout.wf(),
            adjustable(layout),
            addr % adjusted_align(layout) == 0,
            self.range_unused(addr as int, adjusted_size(layout) as int),
        ensures
            (FreeListState { live: self.live.insert(addr, layout), ..self }).wf(),
            !self.live.contains_key(addr),
    {
        lemma_adjusted(layout);
        let after = FreeListState { live: self.live.insert(addr, layout), ..self };
        if self.live.contains_key(addr) {
            assert(self.live_ok(addr));
            lemma_adjusted(self.live[addr]);
        }
        assert forall|a: usize| #[trigger] after.live.contains_key(a) implies after.live_ok(a) by {
            if a != addr {
                assert(self.live_ok(a));
            }
        }
    }

    /// An allocation keeps the invariant and the bounds of the heap. The
    /// block that it hands out is aligned as asked, lies in the heap, was not
    /// in use, and lies apart from every block in use.
    pub proof fn lemma_allocate_keeps_wf(self, layout: Layout)
        requires
            self.wf(),
            layout.wf(),
        ensures
            self.allocate(layout).0.wf(),
            self.allocate(layout).0.heap_start == self.heap_start,
            self.allocate(layout).0.heap_end == self.heap_end,
            self.allocate(layout).1 is None ==> self.allocate(layout).0 == self,
            self.allocate(layout).1 matches Some(addr) ==> {
                &&& addr % layout.align() == 0
                &&& self.heap_start <= addr
                &&& addr + layout.size() <= addr + adjusted_size(layout) <= self.heap_end
                &&& !self.live.contains_key(addr)
                &&& self.allocate(layout).0.live == self.live.insert(addr, layout)
                &&& forall|b: usize| #[trigger]
                    self.live.contains_key(b) ==> ranges_disjoint(
                        b as int,
                        adjusted_size(self.live[b]) as int,
                        addr as int,
                        adjusted_size(layout) as int,
                    )
            },
    {
        if adjustable(layout) {
            let size = adjusted_size(layout);
            let align = adjusted_align(layout);
            lemma_adjusted(layout);
            self.lemma_first_fit(size, align);
            if let Some(i) = self.first_fit(size, align) {
                let region = self.free[i];
                assert(region.wf());
                lemma_align_up_spec(region.start as int, align as int);
                let start = region.alloc_start(align) as usize;
                let end = (start + size) as usize;
                let excess = region.excess(size, align);
                lemma_node_align();
                lemma_power_of_two_divides(start, NODE_ALIGN, align);
                lemma_power_of_two_divides(start, layout.align(), align);
                let found = FreeListState { free: self.free.remove(i), ..self };
                self.lemma_remove_keeps_wf(i);
                found.lemma_range_unused_part(
                    region.start as int,
                    region.size as int,
                    start as int,
                    size as int,
                );
                let rest = if excess > 0 {
                    found.add_free_region(end, excess as usize)
                } else {
                    found
                };
                if excess > 0 {
                    found.lemma_range_unused_part(
                        region.start as int,
                        region.size as int,
                        end as int,
                        excess,
                    );
                    found.lemma_add_free_region_keeps_wf(end, excess as usize);
                    assert(rest.range_unused(start as int, size as int));
                }
                rest.lemma_claim_keeps_wf(start, layout);
                assert(self.allocate(layout).0 == FreeListState {
                    live: self.live.insert(start, layout),
                    ..rest
                });
            }
        }
    }

    /// Releasing a block in use keeps the invariant and the bounds of the
    /// heap.
    pub proof fn lemma_dealloc_keeps_wf(self, ptr: usize, layout: Layout)
        requires
            self.wf(),
            self.live.contains_key(ptr),
            self.live[ptr] == layout,
        ensures
            self.dealloc(ptr, layout).wf(),
            (Node { start: ptr, size: adjusted_size(layout) }).wf(),
    {
        assert(self.live_ok(ptr));
        lemma_adjusted(layout);
        lemma_node_align();
        lemma_power_of_two_divides(ptr, NODE_ALIGN, adjusted_align(layout));
        let size = adjusted_size(layout);
        let released = FreeListState { live: self.live.remove(ptr), ..self };
        assert(released.wf()) by {
            assert forall|a: usize| #[trigger] released.live.contains_key(a) implies released.live_ok(
                a,
            ) by {
                assert(self.live_ok(a));
            }
        }
        assert(released.range_unused(ptr as int, size as int));
        released.lemma_add_free_region_keeps_wf(ptr, size);
        assert(self.dealloc(ptr, layout) == released.add_free_region(ptr, size));
    }
}

/// The bytes of the regions of a free list, all together.
pub open spec fn total_size(free: Seq<Node>) -> int
    decreases free.len(),
{
    if free.len() == 0 {
        0
    } else {
        free[0].size + total_size(free.drop_first())
    }
}

/// A region put at the head of a list adds its size to the total.
pub proof fn lemma_total_size_insert(free: Seq<Node>, node: Node)
    ensures
        total_size(free.insert(0, node)) == node.size + total_size(free),
{
    assert(free.insert(0, node).drop_first() =~= free);
}

/// A region taken off a list takes its size off the total.
pub proof fn lemma_total_size_remove(free: Seq<Node>, i: int)
    requires
        0 <= i < free.len(),
    ensures
        total_size(free.remove(i)) == total_size(free) - free[i].size,
    decreases i,
{
    if i == 0 {
        assert(free.remove(0) =~= free.drop_first());
    } else {
        assert(free.remove(i).drop_first() =~= free.drop_first().remove(i - 1));
        lemma_total_size_remove(free.drop_first(), i - 1);
    }
}

impl FreeListState {
    /// The free bytes of the allocator.
    pub open spec fn free_bytes(self) -> int {
        total_size(self.free)
    }

    /// The state after `count` attempts in a row to allocate the same
    /// layout, whether they succeed or not.
    pub open spec fn allocate_repeatedly(self, layout: Layout, count: nat) -> FreeListState
        decreases count,
    {
        if count == 0 {
            self
        } else {
            self.allocate(layout).0.allocate_repeatedly(layout, (count - 1) as nat)
        }
    }

    /// No overlap: two blocks in use never share a byte.
    pub proof fn lemma_live_blocks_apart(self, a: usize, b: usize)
        requires
            self.wf(),
            self.live.contains_key(a),
            self.live.contains_key(b),
            a != b,
        ensures
            ranges_disjoint(
                a as int,
                self.live[a].size() as int,
                b as int,
                self.live[b].size() as int,
            ),
    {
        assert(self.live_ok(a));
        assert(self.live_ok(b));
        lemma_adjusted(self.live[a]);
        lemma_adjusted(self.live[b]);
    }

    /// No overlap: of two allocations in a row, neither block shares a byte
    /// with the other.
    pub proof fn lemma_allocations_apart(self, first: Layout, second: Layout)
        requires
            self.wf(),
            first.wf(),
            second.wf(),
        ensures
            ({
                let (after, a) = self.allocate(first);
                let (_, b) = after.allocate(second);
                a is Some && b is Some ==> ranges_disjoint(
                    a.unwrap() as int,
                    first.size() as int,
                    b.unwrap() as int,
                    second.size() as int,
                )
            }),
    {
        self.lemma_allocate_keeps_wf(first);
        let (after, a) = self.allocate(first);
        after.lemma_allocate_keeps_wf(second);
        let (last, b) = after.allocate(second);
        if a is Some && b is Some {
            assert(after.live.contains_key(a.unwrap()));
            assert(last.live.contains_key(a.unwrap()));
            last.lemma_live_blocks_apart(a.unwrap(), b.unwrap());
        }
    }

    /// Reuse: a block that is released is handed out again to the next
    /// request that it is aligned for and that fits it, exactly or with room
    /// behind it for the record of a free region.
    pub proof fn lemma_reuse(self, first: Layout, second: Layout)
        requires
            self.wf(),
            first.wf(),
            second.wf(),
            adjustable(second),
            self.allocate(first).1 is Some,
            self.allocate(first).1.unwrap() % adjusted_align(second) == 0,
            adjusted_size(first) == adjusted_size(second) || adjusted_size(first) - adjusted_size(
                second,
            ) >= NODE_SIZE,
        ensures
            ({
                let (after, block) = self.allocate(first);
                let released = after.dealloc(block.unwrap(), first);
                released.allocate(second).1 == block
            }),
    {
        self.lemma_allocate_keeps_wf(first);
        let (after, block) = self.allocate(first);
        let addr = block.unwrap();
        let released = after.dealloc(addr, first);
        let size = adjusted_size(second);
        let align = adjusted_align(second);
        assert(released.free[0] == (Node { start: addr, size: adjusted_size(first) }));
        assert(released.free[0].fits(size, align));
        released.lemma_first_fit_is(size, align, 0);
    }

    /// A block that is handed out takes at least its adjusted size off the
    /// free bytes; an allocation that fails leaves them as they were.
    pub proof fn lemma_allocate_takes_free_bytes(self, layout: Layout)
        requires
            self.wf(),
            layout.wf(),
        ensures
            self.allocate(layout).1 is Some ==> self.allocate(layout).0.free_bytes()
                <= self.free_bytes() - adjusted_size(layout),
            self.allocate(layout).1 is None ==> self.allocate(layout).0 == self,
            self.free_bytes() >= 0,
    {
        self.lemma_free_bytes_not_negative();
        if adjustable(layout) {
            let size = adjusted_size(layout);
            let align = adjusted_align(layout);
            lemma_adjusted(layout);
            self.lemma_first_fit(size, align);
            if let Some(i) = self.first_fit(size, align) {
                let region = self.free[i];
                assert(region.wf());
                lemma_align_up_spec(region.start as int, align as int);
                let excess = region.excess(size, align);
                lemma_total_size_remove(self.free, i);
                if excess > 0 {
                    lemma_total_size_insert(
                        self.free.remove(i),
                        Node {
                            start: (region.alloc_start(align) + size) as usize,
                            size: excess as usize,
                        },
                    );
                }
            }
        }
    }

    /// The free bytes are never negative.
    pub proof fn lemma_free_bytes_not_negative(self)
        ensures
            self.free_bytes() >= 0,
        decreases self.free.len(),
    {
        if self.free.len() > 0 {
            (FreeListState { free: self.free.drop_first(), ..self }).lemma_free_bytes_not_negative();
        }
    }

    /// An allocation that fails leaves the allocator as it was, so the same
    /// request fails again however often it is made.
    pub proof fn lemma_failure_repeats(self, layout: Layout, count: nat)
        requires
            self.allocate(layout).1 is None,
            self.allocate(layout).0 == self,
        ensures
            self.allocate_repeatedly(layout, count) == self,
        decreases count,
    {
        if count > 0 {
            self.lemma_failure_repeats(layout, (count - 1) as nat);
        }
    }

    /// Exhaustion: once more attempts were made than blocks of the adjusted
    /// size go into the free bytes, a further attempt fails.
    pub proof fn lemma_exhaustion(self, layout: Layout, count: nat)
        requires
            self.wf(),
            layout.wf(),
            count * adjusted_size(layout) > self.free_bytes(),
        ensures
            self.allocate_repeatedly(layout, count).allocate(layout).1 is None,
        decreases count,
    {
        self.lemma_allocate_takes_free_bytes(layout);
        self.lemma_allocate_keeps_wf(layout);
        if count == 0 {
            assert(count * adjusted_size(layout) == 0) by (nonlinear_arith)
                requires
                    count == 0,
            ;
        } else {
            let after = self.allocate(layout).0;
            let rest = (count - 1) as nat;
            assert(count * adjusted_size(layout) == rest * adjusted_size(layout) + adjusted_size(
                layout,
            )) by (nonlinear_arith)
                requires
                    rest == count - 1,
            ;
            if self.allocate(layout).1 is Some {
                after.lemma_exhaustion(layout, rest);
            } else {
                self.lemma_failure_repeats(layout, rest);
            }
        }
    }
}

} // verus!
