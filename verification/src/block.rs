//! Pool-backed record blocks: one key/value entry laid out in a memory
//! pool as `varint(internal_key_size) || wrapped_tag || key || varint(
//! value_size) || value`, addressed by stable (block, offset) handles.

use crate::error::Error;
use crate::format::{ValueTag, ValueType, TYPE_BIT};
use crate::memory_pool::MemoryPool;
use crate::varint::{encode_usize, varint_bytes};
use vstd::prelude::*;

verus! {

/// The pool layout of one entry.
pub open spec fn block_bytes(tag: ValueTag, k: Seq<u8>, v: Seq<u8>) -> Seq<u8> {
    varint_bytes((k.len() + 8) as nat) + tag.spec_wrapped() + k + varint_bytes(v.len()) + v
}

/// Mint the tag for `(sequence_number, ty)` and write the entry into the
/// pool: what recording one key/value pair in a pool-backed table comes to.
/// Refused — with the pool untouched — exactly when the sequence number
/// does not fit 63 bits.
pub fn add_entry(
    sequence_number: u64,
    ty: ValueType,
    key: &[u8],
    value: &[u8],
    pool: &mut MemoryPool,
) -> (r: Result<Block, Error>)
    requires
        old(pool).wf(),
        key@.len() + value@.len() + 64 <= usize::MAX,
    ensures
        final(pool).wf(),
        sequence_number >= TYPE_BIT ==> r == Err::<Block, Error>(Error::SequenceNumberOverflow)
            && *final(pool) == *old(pool),
        sequence_number < TYPE_BIT ==> match r {
            Err(_) => false,
            Ok(b) => {
                let tag = ValueTag { sequence_number, ty };
                &&& b.wf_in(final(pool))
                &&& b.internal_key_size == key@.len() + 8
                &&& b.value_size == value@.len()
                &&& final(pool).blocks@[b.block as int]@.subrange(
                    b.offset as int,
                    b.offset + b.size,
                ) == block_bytes(tag, key@, value@)
                &&& b.size == block_bytes(tag, key@, value@).len()
            },
        },
{
    let tag = match ValueTag::new(sequence_number, ty) {
        Err(e) => {
            return Err(e);
        },
        Ok(tag) => tag,
    };
    Ok(Block::allocate_and_write(tag, key, value, pool))
}

/// A handle to one entry in a pool: its address and the offsets of its
/// parts.
pub struct Block {
    pub block: usize,
    pub offset: usize,
    pub internal_key_size: usize,
    pub value_size: usize,
    pub size: usize,
    pub tag_off: usize,
    pub key_off: usize,
    pub value_off: usize,
}

impl Block {
    /// The handle points into `pool` at an entry of the stated shape.
    pub open spec fn wf_in(&self, pool: &MemoryPool) -> bool {
        &&& (self.block as int) < pool.blocks@.len()
        &&& self.offset + self.size <= pool.blocks@[self.block as int]@.len()
        &&& self.offset <= self.tag_off
        &&& self.tag_off + 8 == self.key_off
        &&& self.key_off + self.internal_key_size - 8 <= self.value_off
        &&& self.value_off + self.value_size <= self.offset + self.size
        &&& self.internal_key_size >= 8
    }

    /// Reserve pool space for `(tag, key, value)` and write the entry.
    pub fn allocate_and_write(tag: ValueTag, key: &[u8], value: &[u8], pool: &mut MemoryPool) -> (r:
        Block)
        requires
            old(pool).wf(),
            key@.len() + value@.len() + 64 <= usize::MAX,
        ensures
            final(pool).wf(),
            r.wf_in(final(pool)),
            r.internal_key_size == key@.len() + 8,
            r.value_size == value@.len(),
            final(pool).blocks@[r.block as int]@.subrange(
                r.offset as int,
                r.offset + r.size,
            ) == block_bytes(tag, key@, value@),
            r.size == block_bytes(tag, key@, value@).len(),
            final(pool).blocks@[r.block as int]@.subrange(
                r.tag_off as int,
                r.tag_off + 8,
            ) == tag.spec_wrapped(),
            final(pool).blocks@[r.block as int]@.subrange(
                r.key_off as int,
                r.key_off + key@.len(),
            ) == key@,
            final(pool).blocks@[r.block as int]@.subrange(
                r.value_off as int,
                r.value_off + value@.len(),
            ) == value@,
    {
        proof {
            crate::record::lemma_varint_len_bound((key@.len() + 8) as nat);
            crate::record::lemma_varint_len_bound(value@.len() as nat);
        }
        let internal_key_size = key.len() + 8;
        let iks = encode_usize(internal_key_size);
        let vs = encode_usize(value.len());
        let wrapped = tag.wrap();
        let mut enc: Vec<u8> = Vec::new();
        crate::endian::append_bytes(&mut enc, iks.as_slice());
        let tag_rel = enc.len();
        crate::endian::append_bytes(&mut enc, wrapped.as_slice());
        crate::endian::append_bytes(&mut enc, key);
        let vs_rel = enc.len();
        crate::endian::append_bytes(&mut enc, vs.as_slice());
        let value_rel = enc.len();
        crate::endian::append_bytes(&mut enc, value);
        proof {
            assert(enc@ =~= block_bytes(tag, key@, value@));
        }
        let (block, offset) = pool.allocate(enc.len());
        let cap = pool.blocks[block].len();
        proof {
            assert(offset + enc@.len() <= cap);
        }
        pool.write_at(block, offset, enc.as_slice());
        let r = Block {
            block,
            offset,
            internal_key_size,
            value_size: value.len(),
            size: enc.len(),
            tag_off: offset + tag_rel,
            key_off: offset + tag_rel + 8,
            value_off: offset + value_rel,
        };
        proof {
            let whole = pool.blocks@[block as int]@.subrange(offset as int, offset + enc@.len());
            assert(whole == enc@);
            assert(pool.blocks@[r.block as int]@.subrange(r.tag_off as int, r.tag_off + 8)
                =~= enc@.subrange(tag_rel as int, tag_rel + 8));
            assert(enc@.subrange(tag_rel as int, tag_rel + 8) =~= tag.spec_wrapped());
            assert forall|k2: int| 0 <= k2 < key@.len() implies #[trigger] pool.blocks@[r.block
                as int]@[r.key_off + k2] == key@[k2] by {
                assert(whole[tag_rel + 8 + k2] == key@[k2]);
                assert(pool.blocks@[r.block as int]@[offset + (tag_rel + 8 + k2)] == whole[tag_rel
                    + 8 + k2]);
            }
            let ko = r.key_off as int;
            let target = pool.blocks@[r.block as int]@;
            assert forall|k2: int| 0 <= k2 < key@.len() implies target.subrange(
                ko,
                ko + key@.len(),
            )[k2] == key@[k2] by {
                assert(target.subrange(ko, ko + key@.len())[k2] == target[ko + k2]);
                assert(target[r.key_off + k2] == key@[k2]);
                assert(ko + k2 == r.key_off + k2);
            }
            assert(target.subrange(ko, ko + key@.len()) =~= key@);
            assert forall|k2: int| 0 <= k2 < value@.len() implies #[trigger] pool.blocks@[r.block
                as int]@[r.value_off + k2] == value@[k2] by {
                assert(whole[value_rel + k2] == value@[k2]);
                assert(pool.blocks@[r.block as int]@[offset + (value_rel + k2)] == whole[value_rel
                    + k2]);
            }
            let vo = r.value_off as int;
            assert forall|k2: int| 0 <= k2 < value@.len() implies target.subrange(
                vo,
                vo + value@.len(),
            )[k2] == value@[k2] by {
                assert(target.subrange(vo, vo + value@.len())[k2] == target[vo + k2]);
                assert(target[r.value_off + k2] == value@[k2]);
                assert(vo + k2 == r.value_off + k2);
            }
            assert(target.subrange(vo, vo + value@.len()) =~= value@);
        }
        r
    }

    /// Decode the entry's tag back out of the pool.
    pub fn value_tag(&self, pool: &MemoryPool) -> (r: ValueTag)
        requires
            self.wf_in(pool),
        ensures
            r == ValueTag::spec_from_wrapped(
                pool.blocks@[self.block as int]@.subrange(self.tag_off as int, self.tag_off + 8),
            ),
    {
        let bytes = pool.read_at(self.block, self.tag_off, 8);
        let mut wrapped: [u8; 8] = [0; 8];
        let mut i: usize = 0;
        while i < 8
            invariant
                i <= 8,
                bytes@.len() == 8,
                forall|j: int| 0 <= j < i ==> wrapped@[j] == bytes@[j],
            decreases 8 - i,
        {
            wrapped[i] = bytes[i];
            i = i + 1;
        }
        proof {
            assert(wrapped@ =~= bytes@);
        }
        ValueTag::from_wrapped(&wrapped)
    }

    /// The user key's length.
    pub fn key_size(&self) -> (r: usize)
        requires
            self.internal_key_size >= 8,
        ensures
            r == self.internal_key_size - 8,
    {
        self.internal_key_size - 8
    }

    /// The entry's total footprint in the pool.
    pub fn size(&self) -> (r: usize)
        ensures
            r == self.size,
    {
        self.size
    }

    /// The user key bytes, read back out of the pool.
    pub fn key_slice(&self, pool: &MemoryPool) -> (r: Vec<u8>)
        requires
            self.wf_in(pool),
        ensures
            r@ == pool.blocks@[self.block as int]@.subrange(
                self.key_off as int,
                self.key_off + self.internal_key_size - 8,
            ),
    {
        pool.read_at(self.block, self.key_off, self.internal_key_size - 8)
    }
}

} // verus!
