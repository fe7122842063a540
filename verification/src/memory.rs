//! Physical frames: which of them the memory map of the boot loader leaves
//! for use, and in what order they are handed out.

use vstd::prelude::*;

verus! {

/// The bytes of a frame of physical memory.
pub const FRAME_SIZE: u64 = 4096;

/// A range of physical addresses from the memory map.
#[derive(Debug, Clone, Copy, PartialEq, Eq, Structural)]
pub struct MemoryRegion {
    /// The first address of the range.
    pub start: u64,
    /// The first address behind the range.
    pub end: u64,
    /// Whether the range is free for use.
    pub usable: bool,
}

impl MemoryRegion {
    /// How many frames the region gives: one for every `FRAME_SIZE` bytes
    /// from its start that begin before its end, if it is usable at all.
    pub open spec fn frame_count(self) -> int {
        if self.usable && self.start < self.end {
            (self.end - self.start - 1) / (FRAME_SIZE as int) + 1
        } else {
            0
        }
    }

    /// Where the frame starts that holds the address `index` frames behind
    /// the start of the region.
    pub open spec fn frame(self, index: int) -> u64 {
        let addr = self.start + index * FRAME_SIZE;
        (addr - addr % (FRAME_SIZE as int)) as u64
    }
}

/// The frame of the given number among the usable frames of the map, counted
/// from zero in the order of the map, if there are that many.
pub open spec fn usable_frame(map: Seq<MemoryRegion>, number: int) -> Option<u64>
    decreases map.len(),
{
    if map.len() == 0 || number < 0 {
        None
    } else if number < map[0].frame_count() {
        Some(map[0].frame(number))
    } else {
        usable_frame(map.drop_first(), number - map[0].frame_count())
    }
}

/// Hands out the usable frames of a memory map, one after the other.
pub struct BootInfoFrameAllocator {
    memory_map: Vec<MemoryRegion>,
    next: usize,
}

impl BootInfoFrameAllocator {
    /// The memory map that the frames come from.
    pub closed spec fn memory_map(&self) -> Seq<MemoryRegion> {
        self.memory_map@
    }

    /// How many frames have been asked for.
    pub closed spec fn next(&self) -> usize {
        self.next
    }

    /// A frame allocator for the given memory map. What the map marks as
    /// usable must in truth be unused.
    pub fn init(memory_map: Vec<MemoryRegion>) -> (allocator: Self)
        ensures
            allocator.memory_map() == memory_map@,
            allocator.next() == 0,
    {
        BootInfoFrameAllocator { memory_map, next: 0 }
    }

    /// The next usable frame, by the address at which it starts; `None` when
    /// the map has no more.
    pub fn allocate_frame(&mut self) -> (frame: Option<u64>)
        requires
            old(self).next() < usize::MAX,
        ensures
            frame == usable_frame(old(self).memory_map(), old(self).next() as int),
            final(self).memory_map() == old(self).memory_map(),
            final(self).next() == old(self).next() + 1,
    {
        let number = self.next;
        self.next += 1;
        let mut remaining: u64 = number as u64;
        let mut at: usize = 0;
        assert(self.memory_map@.subrange(0, self.memory_map@.len() as int) =~= self.memory_map@);
        while at < self.memory_map.len()
            invariant
                at <= self.memory_map.len(),
                self.memory_map() == old(self).memory_map(),
                self.next() == old(self).next() + 1,
                usable_frame(old(self).memory_map(), old(self).next() as int) == usable_frame(
                    self.memory_map@.subrange(at as int, self.memory_map@.len() as int),
                    remaining as int,
                ),
            decreases self.memory_map.len() - at,
        {
            let region = self.memory_map[at];
            proof {
                let rest = self.memory_map@.subrange(at as int, self.memory_map@.len() as int);
                assert(rest[0] == region);
                assert(rest.drop_first() =~= self.memory_map@.subrange(
                    at + 1,
                    self.memory_map@.len() as int,
                ));
            }
            if region.usable && region.start < region.end {
                let count = (region.end - region.start - 1) / FRAME_SIZE + 1;
                if remaining < count {
                    let addr = region.start + remaining * FRAME_SIZE;
                    return Some(addr - addr % FRAME_SIZE);
                }
                remaining -= count;
            }
            at += 1;
        }
        None
    }
}

} // verus!
