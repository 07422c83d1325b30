//! Log chunks: the physical framing of the write-ahead log. A chunk is a
//! seven-byte header — CRC32 of the payload (4 bytes, big-endian), payload
//! length (2 bytes, big-endian), chunk type (1 byte) — followed by the
//! payload. Chunks never straddle block boundaries.

use crate::endian::{
    get_u16_be, get_u32_be, lemma_u16_be_round_trip, lemma_u32_be_round_trip, put_u16_be,
    put_u32_be, u16_be_bytes, u16_from_be_bytes, u32_be_bytes, u32_from_be_bytes,
};
use vstd::prelude::*;

verus! {

/// Bytes of a chunk header: CRC32, payload length, chunk type.
pub const CHUNK_HEAD_SIZE: usize = 4 + 2 + 1;

/// Below this many bytes at a block's tail, the writer pads with zeros and the
/// reader skips: two headers' worth.
pub const MIN_CHUNK_SIZE: usize = CHUNK_HEAD_SIZE * 2;

#[derive(Debug, Copy, Clone, Eq, PartialEq, Structural)]
pub enum ChunkType {
    Full,
    First,
    Middle,
    Last,
}

impl ChunkType {
    /// The wire byte of each chunk type.
    pub open spec fn spec_byte(self) -> u8 {
        match self {
            ChunkType::Full => 0,
            ChunkType::First => 1,
            ChunkType::Middle => 2,
            ChunkType::Last => 3,
        }
    }

    /// The chunk type a wire byte denotes, if any.
    pub open spec fn spec_from_byte(byte: u8) -> Option<ChunkType> {
        if byte == 0 {
            Some(ChunkType::Full)
        } else if byte == 1 {
            Some(ChunkType::First)
        } else if byte == 2 {
            Some(ChunkType::Middle)
        } else if byte == 3 {
            Some(ChunkType::Last)
        } else {
            None
        }
    }

    /// A `Full` or `Last` chunk completes a record.
    pub fn is_ending(&self) -> (r: bool)
        ensures
            r == (*self is Full || *self is Last),
    {
        matches!(self, ChunkType::Full | ChunkType::Last)
    }

    pub fn as_byte(&self) -> (r: u8)
        ensures
            r == self.spec_byte(),
    {
        match self {
            ChunkType::Full => 0,
            ChunkType::First => 1,
            ChunkType::Middle => 2,
            ChunkType::Last => 3,
        }
    }

    pub fn from_byte(byte: u8) -> (r: Option<ChunkType>)
        ensures
            r == Self::spec_from_byte(byte),
    {
        match byte {
            0 => Some(ChunkType::Full),
            1 => Some(ChunkType::First),
            2 => Some(ChunkType::Middle),
            3 => Some(ChunkType::Last),
            _ => None,
        }
    }
}

/// The CRC32 (IEEE) checksum of a byte string, as `crc32fast` computes it: a
/// pure function of the bytes alone.
pub uninterp spec fn crc32_of(data: Seq<u8>) -> u32;

/// Relies on crc32fast::hash: the CRC32-IEEE checksum of the bytes, a
/// deterministic function of the input alone.
#[verifier::external_body]
fn crc32(data: &[u8]) -> (r: u32)
    ensures
        r == crc32_of(data@),
{
    crc32fast::hash(data)
}

/// A framed fragment of a record. `crc32` is the checksum as read or written;
/// for chunks built by `new` it matches the payload, for decoded chunks
/// `check_crc32` tells.
pub struct Chunk {
    pub ty: ChunkType,
    pub crc32: u32,
    pub data: Vec<u8>,
}

impl Chunk {
    /// Payloads must fit the two-byte length field.
    pub open spec fn wf(self) -> bool {
        self.data@.len() <= u16::MAX
    }

    /// The wire form: header then payload.
    pub open spec fn spec_encoding(self) -> Seq<u8> {
        u32_be_bytes(self.crc32) + u16_be_bytes(self.data@.len() as u16) + seq![
            self.ty.spec_byte(),
        ] + self.data@
    }

    pub open spec fn spec_ty(self) -> ChunkType {
        self.ty
    }

    pub open spec fn spec_crc32(self) -> u32 {
        self.crc32
    }

    /// Frame `data` as a chunk of type `ty`, computing its checksum.
    pub fn new(data: Vec<u8>, ty: ChunkType) -> (r: Chunk)
        requires
            data@.len() <= u16::MAX,
        ensures
            r.wf(),
            r.ty == ty,
            r.data == data,
            r.crc32 == crc32_of(data@),
    {
        let crc = crc32(data.as_slice());
        Chunk { ty, crc32: crc, data }
    }

    /// Whether the stored checksum matches the payload.
    pub fn check_crc32(&self) -> (r: bool)
        ensures
            r == (self.crc32 == crc32_of(self.data@)),
    {
        crc32(self.data.as_slice()) == self.crc32
    }

    /// Total wire length: header plus payload.
    pub fn len(&self) -> (r: usize)
        requires
            self.wf(),
        ensures
            r == self.spec_encoding().len(),
            r == self.data@.len() + CHUNK_HEAD_SIZE,
    {
        self.data.len() + CHUNK_HEAD_SIZE
    }

    /// Payload length as carried in the header.
    pub fn data_len(&self) -> (r: u16)
        requires
            self.wf(),
        ensures
            r == self.data@.len(),
    {
        self.data.len() as u16
    }

    pub fn ty(&self) -> (r: ChunkType)
        ensures
            r == self.ty,
    {
        self.ty
    }

    pub fn crc32(&self) -> (r: u32)
        ensures
            r == self.crc32,
    {
        self.crc32
    }

    /// Append the wire form of this chunk to `out`.
    pub fn encode_into(&self, out: &mut Vec<u8>)
        requires
            self.wf(),
        ensures
            final(out)@ == old(out)@ + self.spec_encoding(),
    {
        put_u32_be(out, self.crc32);
        put_u16_be(out, self.data.len() as u16);
        out.push(self.ty.as_byte());
        crate::endian::append_bytes(out, self.data.as_slice());
        proof {
            assert(out@ =~= old(out)@ + self.spec_encoding());
        }
    }

    /// The wire form of this chunk.
    pub fn encode(&self) -> (r: Vec<u8>)
        requires
            self.wf(),
        ensures
            r@ == self.spec_encoding(),
    {
        let mut out: Vec<u8> = Vec::new();
        self.encode_into(&mut out);
        out
    }

    /// Parse one chunk at `offset`: the header fields and the payload bytes
    /// the length field covers, or `None` when the bytes are truncated or the
    /// type byte is unknown.
    pub fn decode(bytes: &[u8], offset: usize) -> (r: Option<(Chunk, usize)>)
        ensures
            match spec_parse_chunk(bytes@, offset as int) {
                None => r is None,
                Some((ty, crc, data, end)) => match r {
                    None => false,
                    Some((c, e)) => c.wf() && c.ty == ty && c.crc32 == crc && c.data@ == data && e
                        == end && end <= bytes@.len(),
                },
            },
    {
        if offset >= bytes.len() || bytes.len() - offset < CHUNK_HEAD_SIZE {
            return None;
        }
        let crc = get_u32_be(bytes, offset);
        let size = get_u16_be(bytes, offset + 4) as usize;
        let ty_byte = bytes[offset + 6];
        if bytes.len() - offset - CHUNK_HEAD_SIZE < size {
            return None;
        }
        match ChunkType::from_byte(ty_byte) {
            None => None,
            Some(ty) => {
                let data = vstd::slice::slice_to_vec(
                    vstd::slice::slice_subrange(bytes, offset + 7, offset + 7 + size),
                );
                Some((Chunk { ty, crc32: crc, data }, offset + 7 + size))
            },
        }
    }
}

/// What parsing a chunk at `i` of `s` yields: type, checksum field, payload,
/// and the position just past the chunk.
pub open spec fn spec_parse_chunk(s: Seq<u8>, i: int) -> Option<(ChunkType, u32, Seq<u8>, int)> {
    if i < 0 || i + CHUNK_HEAD_SIZE > s.len() {
        None
    } else {
        let crc = u32_from_be_bytes(s.subrange(i, i + 4));
        let size = u16_from_be_bytes(s.subrange(i + 4, i + 6)) as int;
        let tyb = s[i + 6];
        if i + CHUNK_HEAD_SIZE + size > s.len() {
            None
        } else {
            match ChunkType::spec_from_byte(tyb) {
                None => None,
                Some(ty) => Some((ty, crc, s.subrange(i + 7, i + 7 + size), i + 7 + size)),
            }
        }
    }
}

/// Wherever a chunk's encoding stands in a byte stream, parsing there
/// yields that chunk and stops just past it.
pub proof fn lemma_parse_chunk_at(image: Seq<u8>, i: int, c: Chunk)
    requires
        c.wf(),
        0 <= i,
        i + c.spec_encoding().len() <= image.len(),
        image.subrange(i, i + c.spec_encoding().len()) == c.spec_encoding(),
    ensures
        spec_parse_chunk(image, i) == Some(
            (c.ty, c.crc32, c.data@, i + c.spec_encoding().len()),
        ),
{
    let enc = c.spec_encoding();
    let n = c.data@.len() as int;
    assert forall|k: int| 0 <= k < enc.len() implies image[i + k] == enc[k] by {
        assert(image.subrange(i, i + enc.len())[k] == image[i + k]);
    }
    assert forall|k: int| 0 <= k < 4 implies #[trigger] image.subrange(i, i + 4)[k]
        == u32_be_bytes(c.crc32)[k] by {
        assert(image.subrange(i, i + 4)[k] == image[i + k]);
        assert(enc[k] == u32_be_bytes(c.crc32)[k]);
    }
    assert(image.subrange(i, i + 4) =~= u32_be_bytes(c.crc32));
    assert forall|k: int| 0 <= k < 2 implies #[trigger] image.subrange(i + 4, i + 6)[k]
        == u16_be_bytes(c.data@.len() as u16)[k] by {
        assert(image.subrange(i + 4, i + 6)[k] == image[i + (4 + k)]);
        assert(enc[4 + k] == u16_be_bytes(c.data@.len() as u16)[k]);
    }
    assert(image.subrange(i + 4, i + 6) =~= u16_be_bytes(c.data@.len() as u16));
    lemma_u32_be_round_trip(c.crc32);
    lemma_u16_be_round_trip(c.data@.len() as u16);
    assert(enc[6] == c.ty.spec_byte());
    assert(image[i + 6] == enc[6]);
    assert(ChunkType::spec_from_byte(c.ty.spec_byte()) == Some(c.ty));
    assert forall|k: int| 0 <= k < n implies #[trigger] image.subrange(i + 7, i + 7 + n)[k]
        == c.data@[k] by {
        assert(image.subrange(i + 7, i + 7 + n)[k] == image[i + (7 + k)]);
        assert(enc[7 + k] == c.data@[k]);
    }
    assert(image.subrange(i + 7, i + 7 + n) =~= c.data@);
}

/// Encoding then decoding yields an equal chunk — type, CRC and payload —
/// whatever bytes follow it in the stream.
pub proof fn lemma_chunk_round_trip(c: Chunk, rest: Seq<u8>)
    requires
        c.wf(),
    ensures
        spec_parse_chunk(c.spec_encoding() + rest, 0) == Some(
            (c.spec_ty(), c.spec_crc32(), c.data@, c.spec_encoding().len() as int),
        ),
{
    let s = c.spec_encoding() + rest;
    let n = c.data@.len() as int;
    assert(s.subrange(0, 4) =~= u32_be_bytes(c.spec_crc32()));
    assert(s.subrange(4, 6) =~= u16_be_bytes(c.data@.len() as u16));
    lemma_u32_be_round_trip(c.spec_crc32());
    lemma_u16_be_round_trip(c.data@.len() as u16);
    assert(s[6] == c.spec_ty().spec_byte());
    assert(ChunkType::spec_from_byte(c.spec_ty().spec_byte()) == Some(c.spec_ty()));
    assert(s.subrange(7, 7 + n) =~= c.data@);
}

} // verus!
