//! The skip list's arena: a bump allocator whose addresses never move and
//! whose accounting — alignment slop included — gives a conservative upper
//! bound on the memory a memtable holds. Freed wholesale on drop.

use vstd::prelude::*;

verus! {

/// Node-header alignment: every allocation is rounded up to this.
pub const ARENA_ALIGN: usize = 8;

pub struct Arena {
    pub blocks: Vec<Vec<u8>>,
    pub block_size: usize,
    pub current_block_remaining: usize,
    pub memory_usage: usize,
}

/// `size` rounded up to the arena alignment.
pub open spec fn aligned_up(size: int) -> int {
    size + ((ARENA_ALIGN - size % (ARENA_ALIGN as int)) % (ARENA_ALIGN as int))
}

impl Arena {
    /// While the current block has a free tail, it is the last block, the
    /// tail fits inside it, and the watermark in front of it is aligned.
    pub open spec fn wf(&self) -> bool {
        self.current_block_remaining > 0 ==> self.blocks@.len() > 0
            && self.current_block_remaining <= self.blocks@.last()@.len() && (self.blocks@.last()@.len()
            - self.current_block_remaining) % (ARENA_ALIGN as int) == 0
    }

    pub fn new(block_size: usize) -> (r: Arena)
        ensures
            r.wf(),
            r.block_size == block_size,
            r.memory_usage == 0,
            r.blocks@.len() == 0,
            r.current_block_remaining == 0,
    {
        Arena {
            blocks: Vec::new(),
            block_size,
            current_block_remaining: 0,
            memory_usage: 0,
        }
    }

    /// A fresh zeroed backing block.
    pub fn create_block(size: usize) -> (r: Vec<u8>)
        ensures
            r@.len() == size,
            forall|i: int| 0 <= i < size ==> r@[i] == 0u8,
    {
        let mut v: Vec<u8> = Vec::new();
        crate::endian::append_zeros(&mut v, size);
        v
    }

    /// Sum of all bytes requested, alignment slop included: a conservative
    /// upper bound on the arena's accounted memory.
    pub fn memory_usage(&self) -> (r: usize)
        ensures
            r == self.memory_usage,
    {
        self.memory_usage
    }

    /// Reserve `size` bytes (rounded up to alignment) and return the stable
    /// address as a (block, offset) pair. The current block is carved while
    /// the rounded request fits its tail; a request over a quarter block
    /// gets a block of its own, leaving the tail for later; anything else
    /// opens a fresh block, wasting the old tail.
    pub fn allocate(&mut self, size: usize) -> (r: (usize, usize))
        requires
            old(self).wf(),
            1 <= size,
            size + ARENA_ALIGN <= usize::MAX,
        ensures
            final(self).wf(),
            final(self).block_size == old(self).block_size,
            final(self).memory_usage == (if old(self).memory_usage + aligned_up(size as int)
                <= usize::MAX {
                old(self).memory_usage + aligned_up(size as int)
            } else {
                usize::MAX as int
            }),
            // the address is in bounds, aligned, and never moves: blocks
            // already placed stay exactly as they were
            (r.0 as int) < final(self).blocks@.len(),
            r.1 + aligned_up(size as int) <= final(self).blocks@[r.0 as int]@.len(),
            r.1 % ARENA_ALIGN == 0,
            forall|b: int|
                0 <= b < old(self).blocks@.len() ==> #[trigger] final(self).blocks@[b] == old(
                    self,
                ).blocks@[b],
            // carve: the old watermark of the current (last) block, which
            // moves past the reservation
            (aligned_up(size as int) <= old(self).current_block_remaining ==> final(self).current_block_remaining == old(self).current_block_remaining - aligned_up(
                size as int,
            ) && final(self).blocks@.len() == old(self).blocks@.len() && r.0 == old(
                self,
            ).blocks@.len() - 1 && r.1 == old(self).blocks@.last()@.len() - old(
                self,
            ).current_block_remaining),
            // a large request: a dedicated block of its own, fully used
            (aligned_up(size as int) > old(self).current_block_remaining && aligned_up(size as int)
                > old(self).block_size / 4 ==> final(self).current_block_remaining == 0 && final(self).blocks@.len() == old(self).blocks@.len() + 1 && r.0 == old(self).blocks@.len()
                && r.1 == 0 && final(self).blocks@.last()@.len() == aligned_up(size as int)),
            // otherwise: the start of a fresh block, the old tail wasted
            (aligned_up(size as int) > old(self).current_block_remaining && aligned_up(size as int)
                <= old(self).block_size / 4 ==> final(self).current_block_remaining == old(self).block_size - aligned_up(size as int) && final(self).blocks@.len() == old(self).blocks@.len() + 1 && r.0 == old(self).blocks@.len() && r.1 == 0 && final(self).blocks@.last()@.len() == old(self).block_size),
    {
        let slop = (ARENA_ALIGN - size % ARENA_ALIGN) % ARENA_ALIGN;
        let rounded = size + slop;
        self.memory_usage = crate::endian::sat_add(self.memory_usage, rounded);
        if rounded <= self.current_block_remaining {
            let off = self.blocks[self.blocks.len() - 1].len() - self.current_block_remaining;
            self.current_block_remaining = self.current_block_remaining - rounded;
            (self.blocks.len() - 1, off)
        } else if rounded > self.block_size / 4 {
            // a dedicated block sized for the request; current tail wasted
            let b = Self::create_block(rounded);
            let idx = self.blocks.len();
            self.blocks.push(b);
            self.current_block_remaining = 0;
            (idx, 0)
        } else {
            let b = Self::create_block(self.block_size);
            let idx = self.blocks.len();
            self.blocks.push(b);
            self.current_block_remaining = self.block_size - rounded;
            (idx, 0)
        }
    }
}

} // verus!
