//! A fixed-block-size bump allocator with stable storage: allocations carve
//! the tail of the current block; what does not fit opens a fresh block, or
//! a dedicated one when the request is large. Addresses are (block, offset)
//! pairs and never move; freed only when the pool is dropped.

use vstd::prelude::*;

verus! {

pub struct MemoryPool {
    pub blocks: Vec<Vec<u8>>,
    pub block_size: usize,
    pub current: usize,
    pub remaining_space: usize,
    pub memory_usage: usize,
}

/// Write one byte of one block.
fn poke(blocks: &mut Vec<Vec<u8>>, b: usize, i: usize, v: u8)
    requires
        (b as int) < old(blocks)@.len(),
        (i as int) < old(blocks)@[b as int]@.len(),
    ensures
        final(blocks)@.len() == old(blocks)@.len(),
        forall|x: int|
            0 <= x < old(blocks)@.len() && x != b ==> #[trigger] final(blocks)@[x] == old(
                blocks,
            )@[x],
        final(blocks)@[b as int]@ == old(blocks)@[b as int]@.update(i as int, v),
{
    let target = &mut blocks[b];
    target.set(i, v);
}

/// A block of `n` zero bytes.
fn zero_block(n: usize) -> (r: Vec<u8>)
    ensures
        r@ == Seq::<u8>::new(n as nat, |i: int| 0u8),
{
    let mut v: Vec<u8> = Vec::new();
    crate::endian::append_zeros(&mut v, n);
    proof {
        assert(v@ =~= Seq::<u8>::new(n as nat, |i: int| 0u8));
    }
    v
}

impl MemoryPool {
    /// While the current block has a free tail, it is a real block and the
    /// tail fits inside it.
    pub open spec fn wf(&self) -> bool {
        self.remaining_space > 0 ==> ((self.current as int) < self.blocks@.len()
            && self.remaining_space <= self.blocks@[self.current as int]@.len())
    }

    pub fn new(block_size: usize) -> (r: MemoryPool)
        ensures
            r.wf(),
            r.block_size == block_size,
            r.blocks@.len() == 0,
            r.remaining_space == 0,
            r.memory_usage == 0,
    {
        MemoryPool {
            blocks: Vec::new(),
            block_size,
            current: 0,
            remaining_space: 0,
            memory_usage: 0,
        }
    }

    /// Total bytes requested so far.
    pub fn size(&self) -> (r: usize)
        ensures
            r == self.memory_usage,
    {
        self.memory_usage
    }

    /// The free tail of the current block.
    pub fn remaining_space(&self) -> (r: usize)
        ensures
            r == self.remaining_space,
    {
        self.remaining_space
    }

    /// Reserve `bytes` and return its stable address. A request smaller than
    /// the current tail carves it; a large request (over a quarter block)
    /// gets a dedicated block, leaving the tail untouched; anything else
    /// opens a fresh block and wastes the old tail.
    pub fn allocate(&mut self, bytes: usize) -> (r: (usize, usize))
        requires
            old(self).wf(),
        ensures
            final(self).wf(),
            final(self).block_size == old(self).block_size,
            final(self).memory_usage == (if old(self).memory_usage + bytes <= usize::MAX {
                old(self).memory_usage + bytes
            } else {
                usize::MAX as int
            }),
            // existing storage never moves or changes
            forall|b: int|
                0 <= b < old(self).blocks@.len() ==> #[trigger] final(self).blocks@[b]
                    == old(self).blocks@[b],
            // the returned region is in bounds
            (r.0 as int) < final(self).blocks@.len() && r.1 + bytes <= final(self).blocks@[r.0
                as int]@.len(),
            // the three carving cases
            (bytes < old(self).remaining_space ==> final(self).blocks == old(self).blocks
                && r.0 == old(self).current && r.1 == final(self).blocks@[r.0 as int]@.len()
                - old(self).remaining_space && final(self).remaining_space == old(self).remaining_space - bytes && final(self).current == old(self).current),
            (bytes >= old(self).remaining_space && bytes > old(self).block_size / 4 ==> final(self).blocks@.len() == old(self).blocks@.len() + 1 && r.0 == old(self).blocks@.len()
                && r.1 == 0 && final(self).remaining_space == old(self).remaining_space && final(self).current == old(self).current),
            (bytes >= old(self).remaining_space && bytes <= old(self).block_size / 4 ==> final(self).blocks@.len() == old(self).blocks@.len() + 1 && r.0 == old(self).blocks@.len()
                && r.1 == 0 && final(self).remaining_space == old(self).block_size - bytes
                && final(self).current == old(self).blocks@.len()),
    {
        self.memory_usage = crate::endian::sat_add(self.memory_usage, bytes);
        if bytes < self.remaining_space {
            let off = self.blocks[self.current].len() - self.remaining_space;
            self.remaining_space = self.remaining_space - bytes;
            (self.current, off)
        } else if bytes > self.block_size / 4 {
            let b = zero_block(bytes);
            let idx = self.blocks.len();
            self.blocks.push(b);
            (idx, 0)
        } else {
            let b = zero_block(self.block_size);
            let idx = self.blocks.len();
            self.blocks.push(b);
            self.current = idx;
            self.remaining_space = self.block_size - bytes;
            (idx, 0)
        }
    }

    /// Fill an allocated region with `data`; everything else stays as it is.
    pub fn write_at(&mut self, block: usize, offset: usize, data: &[u8])
        requires
            old(self).wf(),
            (block as int) < old(self).blocks@.len(),
            offset + data@.len() <= old(self).blocks@[block as int]@.len(),
        ensures
            final(self).wf(),
            final(self).block_size == old(self).block_size,
            final(self).current == old(self).current,
            final(self).remaining_space == old(self).remaining_space,
            final(self).memory_usage == old(self).memory_usage,
            final(self).blocks@.len() == old(self).blocks@.len(),
            forall|b: int|
                0 <= b < old(self).blocks@.len() && b != block ==> #[trigger] final(self).blocks@[b] == old(self).blocks@[b],
            final(self).blocks@[block as int]@.len() == old(self).blocks@[block as int]@.len(),
            final(self).blocks@[block as int]@.subrange(
                offset as int,
                offset + data@.len(),
            ) == data@,
            forall|i: int|
                0 <= i < old(self).blocks@[block as int]@.len() && !(offset <= i < offset
                    + data@.len()) ==> final(self).blocks@[block as int]@[i] == old(self).blocks@[block as int]@[i],
    {
        let ghost pre = self.blocks@[block as int]@;
        let blen = self.blocks[block].len();
        let mut i: usize = 0;
        while i < data.len()
            invariant
                i <= data@.len(),
                (block as int) < self.blocks@.len(),
                self.blocks@.len() == old(self).blocks@.len(),
                self.block_size == old(self).block_size,
                self.current == old(self).current,
                self.remaining_space == old(self).remaining_space,
                self.memory_usage == old(self).memory_usage,
                offset + data@.len() <= self.blocks@[block as int]@.len(),
                self.blocks@[block as int]@.len() == pre.len(),
                blen == pre.len(),
                pre == old(self).blocks@[block as int]@,
                forall|b: int|
                    0 <= b < old(self).blocks@.len() && b != block ==> #[trigger] self.blocks@[b]
                        == old(self).blocks@[b],
                forall|j: int|
                    0 <= j < i ==> #[trigger] self.blocks@[block as int]@[offset + j] == data@[j],
                forall|j: int|
                    0 <= j < pre.len() && !(offset <= j < offset + i)
                        ==> #[trigger] self.blocks@[block as int]@[j] == pre[j],
            decreases data@.len() - i,
        {
            poke(&mut self.blocks, block, offset + i, data[i]);
            i = i + 1;
        }
        proof {
            let off = offset as int;
            let target = self.blocks@[block as int]@;
            assert forall|k: int| 0 <= k < data@.len() implies target.subrange(
                off,
                off + data@.len(),
            )[k] == data@[k] by {
                assert(target.subrange(off, off + data@.len())[k] == target[off + k]);
                assert(target[offset + k] == data@[k]);
                assert(off + k == offset + k);
            }
            assert(target.subrange(off, off + data@.len()) =~= data@);
        }
    }

    /// Read `len` bytes at an allocated address.
    pub fn read_at(&self, block: usize, offset: usize, len: usize) -> (r: Vec<u8>)
        requires
            (block as int) < self.blocks@.len(),
            offset + len <= self.blocks@[block as int]@.len(),
        ensures
            r@ == self.blocks@[block as int]@.subrange(offset as int, offset + len),
    {
        let blk = &self.blocks[block];
        let blen = blk.len();
        vstd::slice::slice_to_vec(vstd::slice::slice_subrange(blk.as_slice(), offset, offset + len))
    }
}

} // verus!
