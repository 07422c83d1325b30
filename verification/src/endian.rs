//! Big-endian coding of the fixed-width header fields, and small byte-vector
//! helpers shared by the log framing code.

use vstd::prelude::*;

verus! {

/// The big-endian bytes of a `u32`.
pub open spec fn u32_be_bytes(x: u32) -> Seq<u8> {
    seq![(x >> 24) as u8, (x >> 16) as u8, (x >> 8) as u8, x as u8]
}

/// The big-endian bytes of a `u16`.
pub open spec fn u16_be_bytes(x: u16) -> Seq<u8> {
    seq![(x >> 8) as u8, x as u8]
}

/// The `u32` read big-endian from the first four bytes of `s`.
pub open spec fn u32_from_be_bytes(s: Seq<u8>) -> u32
    recommends
        s.len() >= 4,
{
    ((s[0] as u32) << 24) | ((s[1] as u32) << 16) | ((s[2] as u32) << 8) | (s[3] as u32)
}

/// The `u16` read big-endian from the first two bytes of `s`.
pub open spec fn u16_from_be_bytes(s: Seq<u8>) -> u16
    recommends
        s.len() >= 2,
{
    ((s[0] as u16) << 8) | (s[1] as u16)
}

pub proof fn lemma_u32_be_round_trip(x: u32)
    ensures
        u32_from_be_bytes(u32_be_bytes(x)) == x,
{
    assert((((x >> 24) as u8) as u32) << 24 | (((x >> 16) as u8) as u32) << 16 | (((x
        >> 8) as u8) as u32) << 8 | ((x as u8) as u32) == x) by (bit_vector);
}

pub proof fn lemma_u16_be_round_trip(x: u16)
    ensures
        u16_from_be_bytes(u16_be_bytes(x)) == x,
{
    assert((((x >> 8) as u8) as u16) << 8 | ((x as u8) as u16) == x) by (bit_vector);
}

/// Append the big-endian bytes of `x` to `out`.
pub fn put_u32_be(out: &mut Vec<u8>, x: u32)
    ensures
        final(out)@ == old(out)@ + u32_be_bytes(x),
{
    out.push((x >> 24) as u8);
    out.push((x >> 16) as u8);
    out.push((x >> 8) as u8);
    out.push(x as u8);
    proof {
        assert(out@ =~= old(out)@ + u32_be_bytes(x));
    }
}

/// Append the big-endian bytes of `x` to `out`.
pub fn put_u16_be(out: &mut Vec<u8>, x: u16)
    ensures
        final(out)@ == old(out)@ + u16_be_bytes(x),
{
    out.push((x >> 8) as u8);
    out.push(x as u8);
    proof {
        assert(out@ =~= old(out)@ + u16_be_bytes(x));
    }
}

/// Read a big-endian `u32` at `offset`.
pub fn get_u32_be(bytes: &[u8], offset: usize) -> (r: u32)
    requires
        offset + 4 <= bytes.len(),
    ensures
        r == u32_from_be_bytes(bytes@.subrange(offset as int, offset as int + 4)),
{
    let r = ((bytes[offset] as u32) << 24) | ((bytes[offset + 1] as u32) << 16) | ((bytes[offset
        + 2] as u32) << 8) | (bytes[offset + 3] as u32);
    proof {
        let s = bytes@.subrange(offset as int, offset as int + 4);
        assert(s[0] == bytes@[offset as int] && s[1] == bytes@[offset as int + 1] && s[2]
            == bytes@[offset as int + 2] && s[3] == bytes@[offset as int + 3]);
    }
    r
}

/// Read a big-endian `u16` at `offset`.
pub fn get_u16_be(bytes: &[u8], offset: usize) -> (r: u16)
    requires
        offset + 2 <= bytes.len(),
    ensures
        r == u16_from_be_bytes(bytes@.subrange(offset as int, offset as int + 2)),
{
    let r = ((bytes[offset] as u16) << 8) | (bytes[offset + 1] as u16);
    proof {
        let s = bytes@.subrange(offset as int, offset as int + 2);
        assert(s[0] == bytes@[offset as int] && s[1] == bytes@[offset as int + 1]);
    }
    r
}

/// Read a big-endian `u64` at `offset`.
pub fn get_u64_be(bytes: &[u8], offset: usize) -> (r: u64)
    requires
        offset + 8 <= bytes.len(),
    ensures
        r == crate::format::u64_from_be_bytes(bytes@.subrange(offset as int, offset as int + 8)),
{
    let r = ((bytes[offset] as u64) << 56) | ((bytes[offset + 1] as u64) << 48) | ((bytes[offset
        + 2] as u64) << 40) | ((bytes[offset + 3] as u64) << 32) | ((bytes[offset + 4] as u64)
        << 24) | ((bytes[offset + 5] as u64) << 16) | ((bytes[offset + 6] as u64) << 8) | (bytes[
        offset + 7] as u64);
    proof {
        let s = bytes@.subrange(offset as int, offset as int + 8);
        assert(s[0] == bytes@[offset as int] && s[1] == bytes@[offset as int + 1] && s[2]
            == bytes@[offset as int + 2] && s[3] == bytes@[offset as int + 3] && s[4]
            == bytes@[offset as int + 4] && s[5] == bytes@[offset as int + 5] && s[6]
            == bytes@[offset as int + 6] && s[7] == bytes@[offset as int + 7]);
    }
    r
}

/// `a + b`, capped at the machine limit.
pub fn sat_add(a: usize, b: usize) -> (r: usize)
    ensures
        r == if a + b <= usize::MAX {
            a + b
        } else {
            usize::MAX as int
        },
        r >= a,
{
    if a <= usize::MAX - b {
        a + b
    } else {
        usize::MAX
    }
}

/// Append every byte of `src` to `dst`.
pub fn append_bytes(dst: &mut Vec<u8>, src: &[u8])
    ensures
        final(dst)@ == old(dst)@ + src@,
{
    let mut i: usize = 0;
    while i < src.len()
        invariant
            i <= src.len(),
            dst@ == old(dst)@ + src@.take(i as int),
        decreases src.len() - i,
    {
        dst.push(src[i]);
        proof {
            assert(old(dst)@ + src@.take(i as int) + seq![src@[i as int]] =~= old(dst)@
                + src@.take(i as int + 1));
        }
        i = i + 1;
    }
    proof {
        assert(src@.take(src@.len() as int) =~= src@);
    }
}

/// Append `n` zero bytes to `dst`.
pub fn append_zeros(dst: &mut Vec<u8>, n: usize)
    ensures
        final(dst)@ == old(dst)@ + Seq::<u8>::new(n as nat, |i: int| 0u8),
{
    let mut i: usize = 0;
    while i < n
        invariant
            i <= n,
            dst@ == old(dst)@ + Seq::<u8>::new(i as nat, |j: int| 0u8),
        decreases n - i,
    {
        dst.push(0);
        proof {
            assert(old(dst)@ + Seq::<u8>::new(i as nat, |j: int| 0u8) + seq![0u8] =~= old(dst)@
                + Seq::<u8>::new(i as nat + 1, |j: int| 0u8));
        }
        i = i + 1;
    }
}

} // verus!
