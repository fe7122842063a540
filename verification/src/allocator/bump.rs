//! A bump allocator: a cursor that only moves forward, and a count of the
//! blocks still in use. Memory comes back all at once, when the last block
//! is released.

use vstd::prelude::*;
use vstd::multiset::Multiset;
use crate::allocator::layout::Layout;
use crate::allocator::{align_up_spec, checked_align_up, lemma_align_up_spec, ranges_disjoint};

verus! {

broadcast use vstd::multiset::group_multiset_axioms;

/// A block of memory that the allocator has handed out: where it starts, and
/// the layout it was asked for.
pub struct Block {
    /// The address of the first byte.
    pub addr: usize,
    /// The layout of the request that the block answers.
    pub layout: Layout,
}

impl Block {
    /// The address past the last byte that was asked for.
    pub open spec fn end(self) -> int {
        self.addr + self.layout.size()
    }

    /// Whether the two blocks lie apart, one wholly before the other.
    pub open spec fn disjoint(self, other: Block) -> bool {
        ranges_disjoint(
            self.addr as int,
            self.layout.size() as int,
            other.addr as int,
            other.layout.size() as int,
        )
    }
}

/// What a bump allocator is, as plain values.
pub struct BumpState {
    /// First address of the heap.
    pub heap_start: usize,
    /// First address past the heap.
    pub heap_end: usize,
    /// Where the next block may start.
    pub next: usize,
    /// How many blocks are in use.
    pub allocations: usize,
    /// The blocks in use. One block can be in use several times over, if it
    /// is empty.
    pub live: Multiset<Block>,
}

impl BumpState {
    /// The allocator before `init`: an empty heap at address zero.
    pub open spec fn empty() -> BumpState {
        BumpState { heap_start: 0, heap_end: 0, next: 0, allocations: 0, live: Multiset::empty() }
    }

    /// The allocator right after `init`.
    pub open spec fn init(heap_start: usize, heap_size: usize) -> BumpState {
        BumpState {
            heap_start,
            heap_end: (heap_start + heap_size) as usize,
            next: heap_start,
            allocations: 0,
            live: Multiset::empty(),
        }
    }

    /// The invariant of the allocator: the cursor lies in the heap, the blocks
    /// in use lie between the start of the heap and the cursor and apart
    /// from each other, the counter counts them, and with none in use the
    /// cursor is back at the start.
    pub open spec fn wf(self) -> bool {
        &&& self.heap_start <= self.next <= self.heap_end
        &&& self.allocations == self.live.len()
        &&& self.allocations == 0 ==> self.next == self.heap_start
        &&& forall|b: Block| #[trigger]
            self.live.count(b) > 0 ==> b.layout.wf() && b.addr % b.layout.align() == 0
                && self.heap_start <= b.addr && b.end() <= self.next
        &&& forall|a: Block, b: Block|
            self.live.count(a) > 0 && self.live.count(b) > 0 && a != b ==> #[trigger] a.disjoint(b)
        &&& forall|b: Block| #[trigger] self.live.count(b) > 1 ==> b.layout.size() == 0
    }

    /// Where a block of the given layout would start: the cursor, rounded up
    /// to the alignment.
    pub open spec fn alloc_start(self, layout: Layout) -> int {
        align_up_spec(self.next as int, layout.align() as int)
    }

    /// Whether a block of the given layout still fits before the end of the
    /// heap.
    pub open spec fn fits(self, layout: Layout) -> bool {
        self.alloc_start(layout) + layout.size() <= self.heap_end
    }

    /// What `allocate` does: the new state and the address handed out.
    pub open spec fn allocate(self, layout: Layout) -> (BumpState, Option<usize>) {
        if self.fits(layout) {
            let start = self.alloc_start(layout) as usize;
            (
                BumpState {
                    next: (start + layout.size()) as usize,
                    allocations: (self.allocations + 1) as usize,
                    live: self.live.insert(Block { addr: start, layout }),
                    ..self
                },
                Some(start),
            )
        } else {
            (self, None)
        }
    }

    /// What `dealloc` does. Releasing the last block in use moves the cursor
    /// back to the start of the heap; releasing any other moves nothing.
    pub open spec fn dealloc(self, ptr: usize, layout: Layout) -> BumpState {
        BumpState {
            next: if self.allocations == 1 {
                self.heap_start
            } else {
                self.next
            },
            allocations: (self.allocations - 1) as usize,
            live: self.live.remove(Block { addr: ptr, layout }),
            ..self
        }
    }

    /// The state after releasing the given blocks one after the other.
    pub open spec fn dealloc_all(self, blocks: Seq<Block>) -> BumpState
        decreases blocks.len(),
    {
        if blocks.len() == 0 {
            self
        } else {
            self.dealloc(blocks[0].addr, blocks[0].layout).dealloc_all(blocks.remove(0))
        }
    }

    /// The state after `count` attempts in a row to allocate the same
    /// layout, whether they succeed or not.
    pub open spec fn allocate_repeatedly(self, layout: Layout, count: nat) -> BumpState
        decreases count,
    {
        if count == 0 {
            self
        } else {
            self.allocate(layout).0.allocate_repeatedly(layout, (count - 1) as nat)
        }
    }
}

/// A bump allocator over the heap `[heap_start, heap_end)`.
pub struct BumpAlloc {
    heap_start: usize,
    heap_end: usize,
    next: usize,
    allocations: usize,
    live: Ghost<Multiset<Block>>,
}

impl View for BumpAlloc {
    type V = BumpState;

    closed spec fn view(&self) -> BumpState {
        BumpState {
            heap_start: self.heap_start,
            heap_end: self.heap_end,
            next: self.next,
            allocations: self.allocations,
            live: self.live@,
        }
    }
}

impl BumpAlloc {
    /// An allocator with an empty heap. Nothing fits in it until `init`.
    pub fn new() -> (fresh: Self)
        ensures
            fresh@ == BumpState::empty(),
            fresh@.wf(),
    {
        Self { heap_start: 0, heap_end: 0, next: 0, allocations: 0, live: Ghost(Multiset::empty()) }
    }

    /// Gives the allocator its heap, the `heap_size` bytes from `heap_start`.
    ///
    /// To be called once, on an allocator that `new` has just made.
    pub fn init(&mut self, heap_start: usize, heap_size: usize)
        requires
            old(self)@ == BumpState::empty(),
            heap_start + heap_size <= usize::MAX,
        ensures
            final(self)@ == BumpState::init(heap_start, heap_size),
            final(self)@.wf(),
    {
        self.heap_start = heap_start;
        self.heap_end = heap_start + heap_size;
        self.next = heap_start;
    }

    /// How many blocks are in use.
    pub fn allocations(&self) -> (count: usize)
        ensures
            count == self@.allocations,
    {
        self.allocations
    }

    /// Hands out a block of the given layout at the cursor, rounded up to the
    /// alignment, and moves the cursor past it; `None` if the block would
    /// reach beyond the end of the heap or of the address space.
    pub fn allocate(&mut self, layout: Layout) -> (block: Option<usize>)
        requires
            old(self)@.wf(),
            layout.wf(),
            old(self)@.allocations < usize::MAX,
        ensures
            (final(self)@, block) == old(self)@.allocate(layout),
            final(self)@.wf(),
            block is Some <==> old(self)@.fits(layout),
            block matches Some(addr) ==> {
                &&& addr % layout.align() == 0
                &&& final(self)@.heap_start <= addr
                &&& addr + layout.size() <= final(self)@.heap_end
                &&& forall|b: Block| #[trigger]
                    old(self)@.live.count(b) > 0 ==> b.disjoint(Block { addr, layout })
            },
    {
        proof {
            lemma_align_up_spec(self.next as int, layout.align() as int);
            BumpState::lemma_allocate_keeps_wf(self@, layout);
        }
        let alloc_start = match checked_align_up(self.next, layout.align()) {
            Some(start) => start,
            None => return None,
        };
        let alloc_end = match alloc_start.checked_add(layout.size()) {
            Some(end) => end,
            None => return None,
        };
        if alloc_end > self.heap_end {
            None
        } else {
            self.next = alloc_end;
            self.allocations += 1;
            self.live = Ghost(self.live@.insert(Block { addr: alloc_start, layout }));
            Some(alloc_start)
        }
    }

    /// Takes back a block that `allocate` handed out for this layout and that
    /// has not been released since. When it was the last one in use, the
    /// whole heap is free again.
    pub fn dealloc(&mut self, ptr: usize, layout: Layout)
        requires
            old(self)@.wf(),
            old(self)@.live.count(Block { addr: ptr, layout }) > 0,
        ensures
            final(self)@ == old(self)@.dealloc(ptr, layout),
            final(self)@.wf(),
    {
        proof {
            BumpState::lemma_dealloc_keeps_wf(self@, ptr, layout);
        }
        self.allocations -= 1;
        if self.allocations == 0 {
            self.next = self.heap_start;
        }
        self.live = Ghost(self.live@.remove(Block { addr: ptr, layout }));
    }
}

impl BumpState {
    /// An allocation keeps the invariant, and the block it hands out is
    /// aligned as asked, lies in the heap and apart from every block in use.
    pub proof fn lemma_allocate_keeps_wf(self, layout: Layout)
        requires
            self.wf(),
            layout.wf(),
            self.allocations < usize::MAX,
        ensures
            self.allocate(layout).0.wf(),
            self.allocate(layout).1 matches Some(addr) ==> {
                &&& addr == self.alloc_start(layout)
                &&& addr % layout.align() == 0
                &&& self.next <= addr
                &&& addr + layout.size() <= self.heap_end
                &&& forall|b: Block| #[trigger]
                    self.live.count(b) > 0 ==> b.disjoint(Block { addr, layout })
            },
    {
        lemma_align_up_spec(self.next as int, layout.align() as int);
        if self.fits(layout) {
            let after = self.allocate(layout).0;
            let block = Block { addr: self.alloc_start(layout) as usize, layout };
            assert(after.live.len() == self.live.len() + 1);
            assert forall|b: Block| #[trigger] after.live.count(b) > 1 implies b.layout.size()
                == 0 by {
                if b == block && self.live.count(b) > 0 {
                    assert(b.end() <= self.next);
                }
            }
        }
    }

    /// Releasing a block in use keeps the invariant.
    pub proof fn lemma_dealloc_keeps_wf(self, ptr: usize, layout: Layout)
        requires
            self.wf(),
            self.live.count(Block { addr: ptr, layout }) > 0,
        ensures
            self.dealloc(ptr, layout).wf(),
            self.allocations >= 1,
    {
        let block = Block { addr: ptr, layout };
        let after = self.dealloc(ptr, layout);
        vstd::multiset::axiom_count_le_len(self.live, block);
        assert(after.live.len() == self.live.len() - 1);
        if after.allocations == 0 {
            vstd::multiset::lemma_multiset_empty_len(after.live);
        }
    }
}

impl BumpState {
    /// Bulk reclaim: once every block in use has been released, in whatever
    /// order, the cursor is back at the start of the heap, and the next
    /// block starts at the first aligned address of the heap.
    pub proof fn lemma_bulk_reclaim(self, blocks: Seq<Block>, layout: Layout)
        requires
            self.wf(),
            layout.wf(),
            blocks.to_multiset() == self.live,
        ensures
            self.dealloc_all(blocks).wf(),
            self.dealloc_all(blocks).heap_start == self.heap_start,
            self.dealloc_all(blocks).heap_end == self.heap_end,
            self.dealloc_all(blocks).next == self.heap_start,
            self.dealloc_all(blocks).allocations == 0,
            self.dealloc_all(blocks).live == Multiset::<Block>::empty(),
            self.dealloc_all(blocks).allocate(layout).1 matches Some(addr) ==> addr
                == align_up_spec(self.heap_start as int, layout.align() as int),
        decreases blocks.len(),
    {
        broadcast use vstd::seq_lib::group_to_multiset_ensures;

        lemma_align_up_spec(self.heap_start as int, layout.align() as int);
        if blocks.len() == 0 {
            vstd::multiset::lemma_multiset_empty_len(self.live);
            assert(self.live =~= Multiset::<Block>::empty());
        } else {
            let first = blocks[0];
            assert(blocks.contains(first));
            self.lemma_dealloc_keeps_wf(first.addr, first.layout);
            self.dealloc(first.addr, first.layout).lemma_bulk_reclaim(blocks.remove(0), layout);
        }
    }

    /// Exhaustion: each block handed out moves the cursor on by its size at
    /// least, so once more attempts were made than blocks of that size go
    /// into what was left of the heap, a further attempt fails.
    pub proof fn lemma_exhaustion(self, layout: Layout, count: nat)
        requires
            self.next <= self.heap_end,
            layout.wf(),
            layout.size() > 0,
            count * layout.size() > self.heap_end - self.next,
        ensures
            self.allocate_repeatedly(layout, count).allocate(layout).1 is None,
        decreases count,
    {
        lemma_align_up_spec(self.next as int, layout.align() as int);
        if count == 0 {
            assert(count * layout.size() == 0) by (nonlinear_arith)
                requires
                    count == 0,
            ;
        } else {
            let after = self.allocate(layout).0;
            let rest = (count - 1) as nat;
            assert(count * layout.size() == rest * layout.size() + layout.size())
                by (nonlinear_arith)
                requires
                    rest == count - 1,
            ;
            if self.fits(layout) {
                after.lemma_exhaustion(layout, rest);
            } else {
                self.lemma_failure_repeats(layout, rest);
            }
        }
    }

    /// An allocation that fails leaves the allocator as it was, so the same
    /// request fails again however often it is made.
    pub proof fn lemma_failure_repeats(self, layout: Layout, count: nat)
        requires
            !self.fits(layout),
        ensures
            self.allocate_repeatedly(layout, count) == self,
        decreases count,
    {
        if count > 0 {
            self.lemma_failure_repeats(layout, (count - 1) as nat);
        }
    }
}

impl BumpState {
    /// No overlap: two different blocks in use never share a byte.
    pub proof fn lemma_live_blocks_apart(self, a: Block, b: Block)
        requires
            self.wf(),
            self.live.count(a) > 0,
            self.live.count(b) > 0,
            a != b,
        ensures
            a.disjoint(b),
    {
    }

    /// No overlap: of two allocations in a row, the second block starts
    /// where the first one ends or behind it.
    pub proof fn lemma_allocations_apart(self, first: Layout, second: Layout)
        requires
            self.wf(),
            first.wf(),
            second.wf(),
            self.allocations < usize::MAX - 1,
        ensures
            ({
                let (after, a) = self.allocate(first);
                let (_, b) = after.allocate(second);
                a is Some && b is Some ==> a.unwrap() + first.size() <= b.unwrap()
            }),
    {
        self.lemma_allocate_keeps_wf(first);
        let (after, a) = self.allocate(first);
        after.lemma_allocate_keeps_wf(second);
    }
}

} // verus!
