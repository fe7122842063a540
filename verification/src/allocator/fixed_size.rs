//! A size-classed allocator. Each class has a list of free blocks of one
//! size. A request is answered from the list of the smallest class that
//! holds it; an empty list is refilled one block at a time from a fallback
//! free-list allocator, which also answers the requests that no class
//! holds. A block of a class that is released goes to the list of its class
//! and never back to the fallback.

use vstd::prelude::*;
use crate::allocator::layout::{valid_size_align, Layout};
use crate::allocator::linked_list::{
    adjustable, adjusted_align, adjusted_size, lemma_adjusted, FreeListState, LinkedListAlloc, Node,
    NODE_SIZE,
};
use crate::allocator::{
    align_up_spec, is_power_of_two, lemma_align_up_spec, lemma_power_of_two_divides,
    ranges_disjoint,
};

verus! {

/// The block size of each class, smallest first. No class is smaller than
/// the link that a free block holds.
pub const BLOCK_SIZES: [usize; 9] = [8, 16, 32, 64, 128, 256, 512, 1024, 2048];

/// The bytes that a free block needs for the link to the next one.
pub const LINK_SIZE: usize = 8;

/// The bytes of a block that the class has to hold: the size, or the
/// alignment if that is larger.
pub open spec fn required_size(layout: Layout) -> usize {
    if layout.size() >= layout.align() {
        layout.size()
    } else {
        layout.align()
    }
}

/// The first class from `from` on whose blocks hold `required` bytes.
pub open spec fn class_from(required: usize, from: int) -> Option<usize>
    decreases BLOCK_SIZES.len() - from,
{
    if from < 0 || from >= BLOCK_SIZES.len() {
        None
    } else if BLOCK_SIZES[from] >= required {
        Some(from as usize)
    } else {
        class_from(required, from + 1)
    }
}

/// The class that answers requests of the given layout: the smallest one
/// whose blocks hold them, if there is one.
pub open spec fn class_of(layout: Layout) -> Option<usize> {
    class_from(required_size(layout), 0)
}

/// The layout of the blocks of class `index`: as long as they are aligned.
pub open spec fn class_layout(index: int) -> Layout {
    Layout::of(BLOCK_SIZES[index], BLOCK_SIZES[index])
}

/// The layout that the fallback is asked for when the slab is asked for
/// `layout`: that of the class, or `layout` itself where there is no class.
pub open spec fn backing_layout(layout: Layout) -> Layout {
    match class_of(layout) {
        Some(index) => class_layout(index as int),
        None => layout,
    }
}

/// `class_from` names a class that holds `required` bytes and that no class
/// from `from` on precedes, or there is none from `from` on.
pub proof fn lemma_class_from(required: usize, from: int)
    requires
        0 <= from,
    ensures
        match class_from(required, from) {
            Some(index) => {
                &&& from <= index < BLOCK_SIZES.len()
                &&& BLOCK_SIZES[index as int] >= required
                &&& forall|j: int| from <= j < index ==> #[trigger] BLOCK_SIZES[j] < required
            },
            None => forall|j: int|
                from <= j < BLOCK_SIZES.len() ==> #[trigger] BLOCK_SIZES[j] < required,
        },
    decreases BLOCK_SIZES.len() - from,
{
    if from < BLOCK_SIZES.len() && BLOCK_SIZES[from] < required {
        lemma_class_from(required, from + 1);
    }
}

/// The class of a layout is the smallest one whose blocks are no smaller
/// than its size and its alignment; there is none only if the largest
/// class is too small.
pub proof fn lemma_class_of(layout: Layout)
    ensures
        match class_of(layout) {
            Some(index) => {
                &&& index < BLOCK_SIZES.len()
                &&& BLOCK_SIZES[index as int] >= layout.size()
                &&& BLOCK_SIZES[index as int] >= layout.align()
                &&& forall|j: int|
                    0 <= j < index ==> #[trigger] BLOCK_SIZES[j] < required_size(layout)
            },
            None => required_size(layout) > BLOCK_SIZES[8],
        },
{
    lemma_class_from(required_size(layout), 0);
    if class_of(layout) is None {
        assert(BLOCK_SIZES[8] < required_size(layout));
    }
}

/// Class selection is monotonic: of two layouts, the one that needs no more
/// bytes has a class whenever the other has, and its class is no larger.
pub proof fn lemma_class_monotonic(small: Layout, large: Layout)
    requires
        required_size(small) <= required_size(large),
    ensures
        class_of(large) matches Some(j) ==> (class_of(small) matches Some(i) && i <= j),
{
    lemma_class_of(small);
    lemma_class_of(large);
    lemma_class_from(required_size(small), 0);
    if let Some(j) = class_of(large) {
        assert(BLOCK_SIZES[j as int] >= required_size(small));
        if let Some(i) = class_of(small) {
            if i > j {
                assert(BLOCK_SIZES[j as int] < required_size(small));
            }
        }
    }
}

/// With equal alignment, the larger size never gets the smaller class.
pub proof fn lemma_class_monotonic_in_size(small: Layout, large: Layout)
    requires
        small.size() <= large.size(),
        small.align() == large.align(),
    ensures
        class_of(large) matches Some(j) ==> (class_of(small) matches Some(i) && i <= j),
{
    lemma_class_monotonic(small, large);
}

/// Every block size is a power of two, and every class can hold the link of
/// a free block.
pub proof fn lemma_block_sizes()
    ensures
        forall|i: int| 0 <= i < BLOCK_SIZES.len() ==> is_power_of_two(#[trigger] BLOCK_SIZES[i]),
        forall|i: int| 0 <= i < BLOCK_SIZES.len() ==> LINK_SIZE <= #[trigger] BLOCK_SIZES[i],
        forall|i: int| 0 <= i < BLOCK_SIZES.len() ==> #[trigger] BLOCK_SIZES[i] <= 2048,
{
    assert(8usize & 7usize == 0 && 16usize & 15usize == 0 && 32usize & 31usize == 0 && 64usize
        & 63usize == 0 && 128usize & 127usize == 0 && 256usize & 255usize == 0 && 512usize
        & 511usize == 0 && 1024usize & 1023usize == 0 && 2048usize & 2047usize == 0)
        by (bit_vector);
}

/// The layout of a class is valid and needs no adjusting beyond the size of
/// the record of a free region: a block of the class is aligned to its size
/// and has at least its size.
pub proof fn lemma_class_layout(index: int)
    requires
        0 <= index < BLOCK_SIZES.len(),
    ensures
        class_layout(index).size() == BLOCK_SIZES[index],
        class_layout(index).align() == BLOCK_SIZES[index],
        class_layout(index).wf(),
        valid_size_align(BLOCK_SIZES[index], BLOCK_SIZES[index]),
        adjustable(class_layout(index)),
        adjusted_align(class_layout(index)) == BLOCK_SIZES[index],
        adjusted_size(class_layout(index)) >= BLOCK_SIZES[index],
        class_of(class_layout(index)) == Some(index as usize),
{
    lemma_block_sizes();
    let size = BLOCK_SIZES[index];
    Layout::lemma_of(size, size);
    lemma_align_up_spec(size as int, size as int);
    assert(align_up_spec(size as int, size as int) == size) by {
        assert(size as int % size as int == 0) by (nonlinear_arith)
            requires
                size > 0,
        ;
    }
    lemma_class_from(size, 0);
}

/// What a size-classed allocator is, as plain values.
pub struct SlabState {
    /// For each class the free blocks on its list, the head first.
    pub lists: Seq<Seq<usize>>,
    /// The fallback allocator.
    pub fallback: FreeListState,
    /// The blocks in use: where each one starts, and the layout that it was
    /// asked for.
    pub live: Map<usize, Layout>,
}

impl SlabState {
    /// The allocator before `init`: every list is empty, and so is the
    /// fallback.
    pub open spec fn empty() -> SlabState {
        SlabState {
            lists: Seq::new(BLOCK_SIZES.len() as nat, |i: int| Seq::<usize>::empty()),
            fallback: FreeListState::empty(),
            live: Map::empty(),
        }
    }

    /// The allocator right after `init`: the whole heap belongs to the
    /// fallback.
    pub open spec fn init(heap_start: usize, heap_size: usize) -> SlabState {
        SlabState { fallback: FreeListState::init(heap_start, heap_size), ..SlabState::empty() }
    }

    /// Whether the block at place `at` of the list of class `class` is as it
    /// should be: the fallback has handed it out for the layout of the
    /// class, and it is not in use.
    pub open spec fn listed_ok(self, class: int, at: int) -> bool {
        let addr = self.lists[class][at];
        &&& self.fallback.live.contains_key(addr)
        &&& self.fallback.live[addr] == class_layout(class)
        &&& !self.live.contains_key(addr)
    }

    /// Whether the block in use at `addr` is as it should be: its layout is
    /// valid, and the fallback has handed it out for the backing layout.
    pub open spec fn live_ok(self, addr: usize) -> bool {
        &&& self.live[addr].wf()
        &&& self.fallback.live.contains_key(addr)
        &&& self.fallback.live[addr] == backing_layout(self.live[addr])
    }

    /// The invariant of the allocator: the fallback keeps its own, every
    /// block on a list or in use is one that the fallback has handed out,
    /// and no block is on a list twice or on a list while in use.
    pub open spec fn wf(self) -> bool {
        &&& self.lists.len() == BLOCK_SIZES.len()
        &&& self.fallback.wf()
        &&& forall|class: int, at: int|
            0 <= class < self.lists.len() && 0 <= at < self.lists[class].len()
                ==> #[trigger] self.listed_ok(class, at)
        &&& forall|class: int, at: int, other: int, other_at: int|
            0 <= class < self.lists.len() && 0 <= at < self.lists[class].len() && 0 <= other
                < self.lists.len() && 0 <= other_at < self.lists[other].len() && (class != other
                || at != other_at) ==> #[trigger] self.lists[class][at]
                != #[trigger] self.lists[other][other_at]
        &&& forall|a: usize| #[trigger] self.live.contains_key(a) ==> self.live_ok(a)
    }

    /// Whether the list of the class of `layout` has a block to hand out.
    pub open spec fn has_listed(self, layout: Layout) -> bool {
        class_of(layout) matches Some(index) && self.lists[index as int].len() > 0
    }

    /// What `allocate` does: the new state and the address handed out.
    ///
    /// The head of the list of the class, if the layout has a class and the
    /// list a block; else what the fallback hands out for the backing
    /// layout.
    pub open spec fn allocate(self, layout: Layout) -> (SlabState, Option<usize>) {
        if self.has_listed(layout) {
            let index = class_of(layout).unwrap() as int;
            let head = self.lists[index][0];
            (
                SlabState {
                    lists: self.lists.update(index, self.lists[index].remove(0)),
                    live: self.live.insert(head, layout),
                    ..self
                },
                Some(head),
            )
        } else {
            match self.fallback.allocate(backing_layout(layout)) {
                (fallback, Some(addr)) => (
                    SlabState { fallback, live: self.live.insert(addr, layout), ..self },
                    Some(addr),
                ),
                (_, None) => (self, None),
            }
        }
    }

    /// What `dealloc` does: a block of a class becomes the head of the list
    /// of its class, any other goes back to the fallback.
    pub open spec fn dealloc(self, ptr: usize, layout: Layout) -> SlabState {
        match class_of(layout) {
            Some(index) => SlabState {
                lists: self.lists.update(index as int, self.lists[index as int].insert(0, ptr)),
                live: self.live.remove(ptr),
                ..self
            },
            None => SlabState {
                fallback: self.fallback.dealloc(ptr, layout),
                live: self.live.remove(ptr),
                ..self
            },
        }
    }
}

/// A size-classed allocator with a free-list allocator as its fallback.
pub struct FixedSizeAlloc {
    /// For each class the free blocks on its list, the head of the list last.
    list_heads: Vec<Vec<usize>>,
    fallback_alloc: LinkedListAlloc,
    live: Ghost<Map<usize, Layout>>,
}

impl View for FixedSizeAlloc {
    type V = SlabState;

    closed spec fn view(&self) -> SlabState {
        SlabState {
            lists: Seq::new(self.list_heads@.len(), |i: int| self.list_heads@[i]@.reverse()),
            fallback: self.fallback_alloc@,
            live: self.live@,
        }
    }
}

/// Choose an appropriate block size for the given layout.
///
/// Returns an index into the `BLOCK_SIZES` array.
pub fn list_index(layout: &Layout) -> (index: Option<usize>)
    ensures
        index == class_of(*layout),
{
    let block_size = if layout.size() >= layout.align() {
        layout.size()
    } else {
        layout.align()
    };
    let mut index: usize = 0;
    while index < BLOCK_SIZES.len()
        invariant
            index <= BLOCK_SIZES.len(),
            block_size == required_size(*layout),
            class_of(*layout) == class_from(block_size, index as int),
        decreases BLOCK_SIZES.len() - index,
    {
        if BLOCK_SIZES[index] >= block_size {
            return Some(index);
        }
        index += 1;
    }
    None
}

impl FixedSizeAlloc {
    /// An allocator whose lists are empty and whose fallback has no heap.
    /// Nothing fits in it until `init`.
    pub fn new() -> (fresh: Self)
        ensures
            fresh@ == SlabState::empty(),
            fresh@.wf(),
    {
        let mut list_heads: Vec<Vec<usize>> = Vec::new();
        while list_heads.len() < BLOCK_SIZES.len()
            invariant
                list_heads.len() <= BLOCK_SIZES.len(),
                forall|i: int| 0 <= i < list_heads.len() ==> (#[trigger] list_heads@[i])@.len() == 0,
            decreases BLOCK_SIZES.len() - list_heads.len(),
        {
            list_heads.push(Vec::new());
        }
        let fresh = FixedSizeAlloc {
            list_heads,
            fallback_alloc: LinkedListAlloc::new(),
            live: Ghost(Map::empty()),
        };
        assert(fresh@.lists =~~= SlabState::empty().lists);
        fresh
    }

    /// Gives the fallback its heap, the `heap_size` bytes from `heap_start`.
    ///
    /// To be called once, on an allocator that `new` has just made. The heap
    /// must be able to hold the record of a free region at its start.
    pub fn init(&mut self, heap_start: usize, heap_size: usize)
        requires
            old(self)@ == SlabState::empty(),
            (Node { start: heap_start, size: heap_size }).wf(),
        ensures
            final(self)@ == SlabState::init(heap_start, heap_size),
            final(self)@.wf(),
    {
        self.fallback_alloc.init(heap_start, heap_size);
        assert(self@.lists =~~= SlabState::empty().lists);
    }

    /// Allocates using the fallback allocator.
    fn fallback_alloc(&mut self, layout: Layout) -> (block: Option<usize>)
        requires
            old(self)@.fallback.wf(),
            layout.wf(),
        ensures
            final(self)@.fallback == old(self)@.fallback.allocate(layout).0,
            block == old(self)@.fallback.allocate(layout).1,
            final(self)@.lists == old(self)@.lists,
            final(self)@.live == old(self)@.live,
    {
        self.fallback_alloc.allocate(layout)
    }

    /// Hands out a block for the given layout: the head of the list of its
    /// class; or, where that list is empty, a new block of the class from
    /// the fallback; or, where the layout has no class, what the fallback
    /// hands out for the layout itself. `None` if the fallback is asked and
    /// has nothing that fits.
    pub fn allocate(&mut self, layout: Layout) -> (block: Option<usize>)
        requires
            old(self)@.wf(),
            layout.wf(),
        ensures
            (final(self)@, block) == old(self)@.allocate(layout),
            final(self)@.wf(),
            block matches Some(addr) ==> {
                &&& addr % layout.align() == 0
                &&& final(self)@.fallback.heap_start <= addr
                &&& addr + layout.size() <= final(self)@.fallback.heap_end
                &&& forall|b: usize| #[trigger]
                    old(self)@.live.contains_key(b) ==> ranges_disjoint(
                        b as int,
                        old(self)@.live[b].size() as int,
                        addr as int,
                        layout.size() as int,
                    )
            },
    {
        proof {
            self@.lemma_allocate_keeps_wf(layout);
            lemma_class_of(layout);
        }
        match list_index(&layout) {
            Some(index) => {
                let ghost before = self.list_heads@[index as int]@;
                match self.list_heads[index].pop() {
                    Some(head) => {
                        proof {
                            assert(before.reverse()[0] == head);
                            assert(before.drop_last().reverse() =~= before.reverse().remove(0));
                            assert(self@.lists =~= old(self)@.lists.update(
                                index as int,
                                old(self)@.lists[index as int].remove(0),
                            ));
                        }
                        self.live = Ghost(self.live@.insert(head, layout));
                        Some(head)
                    },
                    None => {
                        // no block is left on the list: a new one comes from the fallback
                        proof {
                            lemma_class_layout(index as int);
                            assert(before.reverse().len() == 0);
                            assert(self@.lists =~= old(self)@.lists);
                        }
                        let block_size = BLOCK_SIZES[index];
                        let block_align = block_size;
                        let alloc_layout = Layout::from_size_align(block_size, block_align).unwrap();
                        let block = self.fallback_alloc(alloc_layout);
                        if let Some(addr) = block {
                            self.live = Ghost(self.live@.insert(addr, layout));
                        }
                        block
                    },
                }
            },
            None => {
                let block = self.fallback_alloc(layout);
                if let Some(addr) = block {
                    self.live = Ghost(self.live@.insert(addr, layout));
                }
                block
            },
        }
    }

    /// Takes back a block that `allocate` handed out for this layout and that
    /// has not been released since. A block of a class goes to the head of
    /// the list of its class, and stays with that class for good; any other
    /// goes back to the fallback.
    pub fn dealloc(&mut self, ptr: usize, layout: Layout)
        requires
            old(self)@.wf(),
            old(self)@.live.contains_key(ptr),
            old(self)@.live[ptr] == layout,
        ensures
            final(self)@ == old(self)@.dealloc(ptr, layout),
            final(self)@.wf(),
    {
        proof {
            self@.lemma_dealloc_keeps_wf(ptr, layout);
            lemma_class_of(layout);
            lemma_block_sizes();
        }
        match list_index(&layout) {
            Some(index) => {
                // the block can hold the link of a free block
                assert(LINK_SIZE <= BLOCK_SIZES[index as int]);
                let ghost before = self.list_heads@[index as int]@;
                self.list_heads[index].push(ptr);
                proof {
                    assert(before.push(ptr).reverse() =~= before.reverse().insert(0, ptr));
                    assert(self@.lists =~= old(self)@.lists.update(
                        index as int,
                        old(self)@.lists[index as int].insert(0, ptr),
                    ));
                }
            },
            None => {
                self.fallback_alloc.dealloc(ptr, layout);
                assert(self@.lists =~= old(self)@.lists);
            },
        }
        self.live = Ghost(self.live@.remove(ptr));
    }
}

impl SlabState {
    /// Of a block on a list and of a block in use, the fallback keeps the
    /// backing layout, and that layout gives the block at least the size
    /// that was asked for, aligned as asked.
    pub proof fn lemma_backing(layout: Layout)
        requires
            layout.wf(),
        ensures
            backing_layout(layout).wf(),
            class_of(layout) is Some ==> adjustable(backing_layout(layout)),
            adjustable(backing_layout(layout)) ==> {
                &&& adjusted_size(backing_layout(layout)) >= layout.size()
                &&& adjusted_align(backing_layout(layout)) >= layout.align()
                &&& is_power_of_two(adjusted_align(backing_layout(layout)))
            },
    {
        lemma_class_of(layout);
        match class_of(layout) {
            Some(index) => {
                lemma_class_layout(index as int);
                lemma_adjusted(class_layout(index as int));
            },
            None => {
                if adjustable(layout) {
                    lemma_adjusted(layout);
                }
            },
        }
    }

    /// An allocation keeps the invariant. The block that it hands out is
    /// aligned as asked, lies in the heap of the fallback, was not in use,
    /// and lies apart from every block in use.
    pub proof fn lemma_allocate_keeps_wf(self, layout: Layout)
        requires
            self.wf(),
            layout.wf(),
        ensures
            self.allocate(layout).0.wf(),
            self.allocate(layout).0.fallback.heap_start == self.fallback.heap_start,
            self.allocate(layout).0.fallback.heap_end == self.fallback.heap_end,
            self.allocate(layout).1 is None ==> self.allocate(layout).0 == self,
            self.allocate(layout).1 matches Some(addr) ==> {
                &&& addr % layout.align() == 0
                &&& self.fallback.heap_start <= addr
                &&& addr + layout.size() <= self.fallback.heap_end
                &&& !self.live.contains_key(addr)
                &&& self.allocate(layout).0.live == self.live.insert(addr, layout)
                &&& forall|b: usize| #[trigger]
                    self.live.contains_key(b) ==> ranges_disjoint(
                        b as int,
                        self.live[b].size() as int,
                        addr as int,
                        layout.size() as int,
                    )
            },
    {
        Self::lemma_backing(layout);
        lemma_class_of(layout);
        let backing = backing_layout(layout);
        let after = self.allocate(layout).0;
        if self.has_listed(layout) {
            let index = class_of(layout).unwrap() as int;
            let head = self.lists[index][0];
            assert(self.listed_ok(index, 0));
            assert(self.fallback.live_ok(head));
            lemma_power_of_two_divides(head, layout.align(), adjusted_align(backing));
            assert forall|class: int, at: int|
                0 <= class < after.lists.len() && 0 <= at < after.lists[class].len()
                    implies #[trigger] after.listed_ok(class, at) by {
                let old_at = if class == index { at + 1 } else { at };
                assert(after.lists[class][at] == self.lists[class][old_at]);
                assert(self.listed_ok(class, old_at));
                assert(self.lists[class][old_at] != self.lists[index][0]);
            }
            assert forall|class: int, at: int, other: int, other_at: int|
                0 <= class < after.lists.len() && 0 <= at < after.lists[class].len() && 0 <= other
                    < after.lists.len() && 0 <= other_at < after.lists[other].len() && (class
                    != other || at != other_at) implies #[trigger] after.lists[class][at]
                    != #[trigger] after.lists[other][other_at] by {
                let old_at = if class == index { at + 1 } else { at };
                let old_other_at = if other == index { other_at + 1 } else { other_at };
                assert(after.lists[class][at] == self.lists[class][old_at]);
                assert(after.lists[other][other_at] == self.lists[other][old_other_at]);
            }
            assert forall|a: usize| #[trigger] after.live.contains_key(a) implies after.live_ok(
                a,
            ) by {
                if a != head {
                    assert(self.live_ok(a));
                }
            }
            self.lemma_live_apart(head, layout);
        } else {
            self.fallback.lemma_allocate_keeps_wf(backing);
            if let Some(addr) = self.fallback.allocate(backing).1 {
                let fallback = self.fallback.allocate(backing).0;
                assert(fallback.live.contains_key(addr));
                assert(fallback.live_ok(addr));
                lemma_power_of_two_divides(addr, layout.align(), adjusted_align(backing));
                assert(backing.align() <= adjusted_align(backing));
                assert forall|class: int, at: int|
                    0 <= class < after.lists.len() && 0 <= at < after.lists[class].len()
                        implies #[trigger] after.listed_ok(class, at) by {
                    assert(self.listed_ok(class, at));
                }
                assert forall|a: usize| #[trigger] after.live.contains_key(a) implies after.live_ok(
                    a,
                ) by {
                    if a != addr {
                        assert(self.live_ok(a));
                    }
                }
                if self.live.contains_key(addr) {
                    assert(self.live_ok(addr));
                }
                assert forall|b: usize| #[trigger] self.live.contains_key(b) implies ranges_disjoint(
                    b as int,
                    self.live[b].size() as int,
                    addr as int,
                    layout.size() as int,
                ) by {
                    assert(self.live_ok(b));
                    assert(self.fallback.live_ok(b));
                    Self::lemma_backing(self.live[b]);
                }
            }
        }
    }

    /// A block that the fallback has handed out for the backing layout of
    /// `layout` lies apart from every block in use.
    pub proof fn lemma_live_apart(self, addr: usize, layout: Layout)
        requires
            self.wf(),
            layout.wf(),
            self.fallback.live.contains_key(addr),
            self.fallback.live[addr] == backing_layout(layout),
            !self.live.contains_key(addr),
        ensures
            self.fallback.heap_start <= addr,
            addr + layout.size() <= self.fallback.heap_end,
            forall|b: usize| #[trigger]
                self.live.contains_key(b) ==> ranges_disjoint(
                    b as int,
                    self.live[b].size() as int,
                    addr as int,
                    layout.size() as int,
                ),
    {
        assert(self.fallback.live_ok(addr));
        Self::lemma_backing(layout);
        assert forall|b: usize| #[trigger] self.live.contains_key(b) implies ranges_disjoint(
            b as int,
            self.live[b].size() as int,
            addr as int,
            layout.size() as int,
        ) by {
            assert(self.live_ok(b));
            assert(self.fallback.live_ok(b));
            Self::lemma_backing(self.live[b]);
        }
    }

    /// Releasing a block in use keeps the invariant.
    pub proof fn lemma_dealloc_keeps_wf(self, ptr: usize, layout: Layout)
        requires
            self.wf(),
            self.live.contains_key(ptr),
            self.live[ptr] == layout,
        ensures
            self.dealloc(ptr, layout).wf(),
            class_of(layout) is None ==> self.fallback.live.contains_key(ptr)
                && self.fallback.live[ptr] == layout,
    {
        assert(self.live_ok(ptr));
        let after = self.dealloc(ptr, layout);
        match class_of(layout) {
            Some(index) => {
                let index = index as int;
                lemma_class_of(layout);
                assert forall|class: int, at: int|
                    0 <= class < after.lists.len() && 0 <= at < after.lists[class].len()
                        implies #[trigger] after.listed_ok(class, at) by {
                    if class == index && at == 0 {
                    } else {
                        let old_at = if class == index { at - 1 } else { at };
                        assert(after.lists[class][at] == self.lists[class][old_at]);
                        assert(self.listed_ok(class, old_at));
                    }
                }
                assert forall|class: int, at: int, other: int, other_at: int|
                    0 <= class < after.lists.len() && 0 <= at < after.lists[class].len() && 0
                        <= other < after.lists.len() && 0 <= other_at < after.lists[other].len()
                        && (class != other || at != other_at) implies #[trigger] after.lists[class][at]
                        != #[trigger] after.lists[other][other_at] by {
                    let old_at = if class == index { at - 1 } else { at };
                    let old_other_at = if other == index { other_at - 1 } else { other_at };
                    if !(class == index && at == 0) {
                        assert(after.lists[class][at] == self.lists[class][old_at]);
                        assert(self.listed_ok(class, old_at));
                    }
                    if !(other == index && other_at == 0) {
                        assert(after.lists[other][other_at] == self.lists[other][old_other_at]);
                        assert(self.listed_ok(other, old_other_at));
                    }
                }
                assert forall|a: usize| #[trigger] after.live.contains_key(a) implies after.live_ok(
                    a,
                ) by {
                    assert(self.live_ok(a));
                }
            },
            None => {
                self.fallback.lemma_dealloc_keeps_wf(ptr, layout);
                assert forall|class: int, at: int|
                    0 <= class < after.lists.len() && 0 <= at < after.lists[class].len()
                        implies #[trigger] after.listed_ok(class, at) by {
                    assert(self.listed_ok(class, at));
                }
                assert forall|a: usize| #[trigger] after.live.contains_key(a) implies after.live_ok(
                    a,
                ) by {
                    assert(self.live_ok(a));
                }
            },
        }
    }
}

impl SlabState {
    /// No overlap: two blocks in use never share a byte.
    pub proof fn lemma_live_blocks_apart(self, a: usize, b: usize)
        requires
            self.wf(),
            self.live.contains_key(a),
            self.live.contains_key(b),
            a != b,
        ensures
            ranges_disjoint(
                a as int,
                self.live[a].size() as int,
                b as int,
                self.live[b].size() as int,
            ),
    {
        assert(self.live_ok(a));
        assert(self.live_ok(b));
        assert(self.fallback.live_ok(a));
        assert(self.fallback.live_ok(b));
        Self::lemma_backing(self.live[a]);
        Self::lemma_backing(self.live[b]);
    }

    /// No overlap: of two allocations in a row, neither block shares a byte
    /// with the other.
    pub proof fn lemma_allocations_apart(self, first: Layout, second: Layout)
        requires
            self.wf(),
            first.wf(),
            second.wf(),
        ensures
            ({
                let (after, a) = self.allocate(first);
                let (_, b) = after.allocate(second);
                a is Some && b is Some ==> ranges_disjoint(
                    a.unwrap() as int,
                    first.size() as int,
                    b.unwrap() as int,
                    second.size() as int,
                )
            }),
    {
        self.lemma_allocate_keeps_wf(first);
        let (after, a) = self.allocate(first);
        after.lemma_allocate_keeps_wf(second);
        let (last, b) = after.allocate(second);
        if a is Some && b is Some {
            assert(after.live.contains_key(a.unwrap()));
            assert(last.live.contains_key(a.unwrap()));
            last.lemma_live_blocks_apart(a.unwrap(), b.unwrap());
        }
    }

    /// Reuse: a block of a class that is released is handed out again to the
    /// next request of that class.
    pub proof fn lemma_reuse(self, first: Layout, second: Layout)
        requires
            self.wf(),
            first.wf(),
            class_of(first) is Some,
            class_of(second) == class_of(first),
            self.allocate(first).1 is Some,
        ensures
            ({
                let (after, block) = self.allocate(first);
                let released = after.dealloc(block.unwrap(), first);
                released.allocate(second).1 == block
            }),
    {
        self.lemma_allocate_keeps_wf(first);
        lemma_class_of(first);
    }

    /// Reuse: a block without a class that is released goes back to the
    /// fallback, and is handed out again as the fallback reuses it.
    pub proof fn lemma_reuse_without_class(self, first: Layout, second: Layout)
        requires
            self.wf(),
            first.wf(),
            second.wf(),
            class_of(first) is None,
            class_of(second) is None,
            adjustable(second),
            self.allocate(first).1 is Some,
            self.allocate(first).1.unwrap() % adjusted_align(second) == 0,
            adjusted_size(first) == adjusted_size(second) || adjusted_size(first) - adjusted_size(
                second,
            ) >= NODE_SIZE,
        ensures
            ({
                let (after, block) = self.allocate(first);
                let released = after.dealloc(block.unwrap(), first);
                released.allocate(second).1 == block
            }),
    {
        self.lemma_allocate_keeps_wf(first);
        self.fallback.lemma_reuse(first, second);
    }

    /// Exhaustion: with no block left on the list of its class and none
    /// that the fallback can hand out, a request fails and changes nothing.
    pub proof fn lemma_exhausted(self, layout: Layout)
        requires
            !self.has_listed(layout),
            self.fallback.allocate(backing_layout(layout)).1 is None,
        ensures
            self.allocate(layout) == (self, None::<usize>),
    {
    }

    /// The state after `count` attempts in a row to allocate the same
    /// layout, whether they succeed or not.
    pub open spec fn allocate_repeatedly(self, layout: Layout, count: nat) -> SlabState
        decreases count,
    {
        if count == 0 {
            self
        } else {
            self.allocate(layout).0.allocate_repeatedly(layout, (count - 1) as nat)
        }
    }

    /// While the list of its class is empty, a layout is served by the
    /// fallback alone: the lists stay as they are, and the fallback goes
    /// through the same attempts for the backing layout.
    pub proof fn lemma_repeated_provisioning(self, layout: Layout, count: nat)
        requires
            !self.has_listed(layout),
        ensures
            self.allocate_repeatedly(layout, count).lists == self.lists,
            self.allocate_repeatedly(layout, count).fallback == self.fallback.allocate_repeatedly(
                backing_layout(layout),
                count,
            ),
        decreases count,
    {
        if count > 0 {
            self.allocate(layout).0.lemma_repeated_provisioning(layout, (count - 1) as nat);
        }
    }

    /// Exhaustion: with the list of its class empty, a layout gets no more
    /// blocks once more attempts were made than blocks of its backing layout
    /// go into the free bytes of the fallback.
    pub proof fn lemma_exhaustion(self, layout: Layout, count: nat)
        requires
            self.wf(),
            layout.wf(),
            !self.has_listed(layout),
            count * adjusted_size(backing_layout(layout)) > self.fallback.free_bytes(),
        ensures
            self.allocate_repeatedly(layout, count).allocate(layout).1 is None,
    {
        Self::lemma_backing(layout);
        self.lemma_repeated_provisioning(layout, count);
        self.fallback.lemma_exhaustion(backing_layout(layout), count);
    }
}

} // verus!
