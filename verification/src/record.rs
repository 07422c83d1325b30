//! Log records: the logical entries of the write-ahead log. A record encodes
//! `(key, value)` as `varint(key_len) || key || varint(value_len) || value`
//! and is carried by one `Full` chunk or a `First … Last` chunk run,
//! fragmented over the log's fixed-size blocks.

use crate::chunk::{crc32_of, Chunk, ChunkType, CHUNK_HEAD_SIZE, MIN_CHUNK_SIZE};
use crate::varint::{
    decode_usize, encode_usize, lemma_varint_round_trip, spec_decode_varint, varint_bytes,
};
use vstd::prelude::*;

verus! {

/// One element of a record's wire layout: a framed chunk, or zero padding
/// covering a block tail too small for another chunk.
pub enum RecordChunk {
    Normal(Chunk),
    Slop(usize),
}

impl RecordChunk {
    pub open spec fn is_normal(self) -> bool {
        self is Normal
    }
}

/// The serialization of a `(key, value)` pair.
pub open spec fn record_bytes(k: Seq<u8>, v: Seq<u8>) -> Seq<u8> {
    varint_bytes(k.len()) + k + varint_bytes(v.len()) + v
}

/// What parsing a record from the start of `s` yields: the key and value, if
/// `s` begins with a well-formed record. Trailing bytes are ignored.
pub open spec fn spec_parse_record(s: Seq<u8>) -> Option<(Seq<u8>, Seq<u8>)> {
    match spec_decode_varint(s, 0) {
        None => None,
        Some((kl, i)) => if i + kl > s.len() {
            None
        } else {
            let key = s.subrange(i, i + kl);
            match spec_decode_varint(s, i + kl) {
                None => None,
                Some((vl, j)) => if j + vl > s.len() {
                    None
                } else {
                    Some((key, s.subrange(j, j + vl)))
                },
            }
        },
    }
}

/// The chunks of a run, in order, without the padding elements.
pub open spec fn normal_chunks(chunks: Seq<RecordChunk>) -> Seq<Chunk>
    decreases chunks.len(),
{
    if chunks.len() == 0 {
        Seq::empty()
    } else {
        normal_chunks(chunks.drop_last()) + (match chunks.last() {
            RecordChunk::Normal(c) => seq![c],
            RecordChunk::Slop(_) => Seq::empty(),
        })
    }
}

/// The concatenation of the payloads of a chunk sequence.
pub open spec fn chunk_payloads(ns: Seq<Chunk>) -> Seq<u8>
    decreases ns.len(),
{
    if ns.len() == 0 {
        Seq::empty()
    } else {
        chunk_payloads(ns.drop_last()) + ns.last().data@
    }
}

/// How a chunk run sits in the block grid. Starting with `first` bytes left
/// in the current block, each chunk must fit what is left of its block; when
/// a chunk ends a block exactly, or padding fills the tail, the next block
/// opens with `max` bytes. Yields the bytes left after the run, or `None`
/// when the run does not fit the grid.
pub open spec fn layout_after(chunks: Seq<RecordChunk>, first: int, max: int) -> Option<int>
    decreases chunks.len(),
{
    if chunks.len() == 0 {
        Some(first)
    } else {
        match layout_after(chunks.drop_last(), first, max) {
            None => None,
            Some(rem) => match chunks.last() {
                RecordChunk::Normal(c) => if c.spec_encoding().len() <= rem {
                    if rem - c.spec_encoding().len() == 0 {
                        Some(max)
                    } else {
                        Some(rem - c.spec_encoding().len())
                    }
                } else {
                    None
                },
                RecordChunk::Slop(n) => if n == rem && n < MIN_CHUNK_SIZE {
                    Some(max)
                } else {
                    None
                },
            },
        }
    }
}

/// The wire bytes of a chunk run: chunk encodings and zero padding, in order.
pub open spec fn run_bytes(chunks: Seq<RecordChunk>) -> Seq<u8>
    decreases chunks.len(),
{
    if chunks.len() == 0 {
        Seq::empty()
    } else {
        run_bytes(chunks.drop_last()) + (match chunks.last() {
            RecordChunk::Normal(c) => c.spec_encoding(),
            RecordChunk::Slop(n) => Seq::<u8>::new(n as nat, |i: int| 0u8),
        })
    }
}

/// Appending an element to a run extends its projections one step.
pub proof fn lemma_run_push(s: Seq<RecordChunk>, x: RecordChunk, first: int, max: int)
    ensures
        normal_chunks(s.push(x)) == (match x {
            RecordChunk::Normal(c) => normal_chunks(s).push(c),
            RecordChunk::Slop(_) => normal_chunks(s),
        }),
        run_bytes(s.push(x)) == run_bytes(s) + (match x {
            RecordChunk::Normal(c) => c.spec_encoding(),
            RecordChunk::Slop(n) => Seq::<u8>::new(n as nat, |i: int| 0u8),
        }),
        layout_after(s.push(x), first, max) == (match layout_after(s, first, max) {
            None => None::<int>,
            Some(rem) => match x {
                RecordChunk::Normal(c) => if c.spec_encoding().len() <= rem {
                    if rem - c.spec_encoding().len() == 0 {
                        Some(max)
                    } else {
                        Some(rem - c.spec_encoding().len())
                    }
                } else {
                    None
                },
                RecordChunk::Slop(n) => if n == rem && n < MIN_CHUNK_SIZE {
                    Some(max)
                } else {
                    None
                },
            },
        }),
{
    let t = s.push(x);
    assert(t.drop_last() =~= s);
    assert(t.last() == x);
    match x {
        RecordChunk::Normal(c) => {
            assert(normal_chunks(t) =~= normal_chunks(s).push(c));
        },
        RecordChunk::Slop(_) => {
            assert(normal_chunks(t) =~= normal_chunks(s));
        },
    }
}

/// Every `Normal` element of a run appears among its normal chunks.
pub proof fn lemma_normal_chunks_membership(s: Seq<RecordChunk>, i: int)
    requires
        0 <= i < s.len(),
    ensures
        match s[i] {
            RecordChunk::Normal(c) => exists|j: int|
                0 <= j < normal_chunks(s).len() && normal_chunks(s)[j] == c,
            RecordChunk::Slop(_) => true,
        },
    decreases s.len(),
{
    if s.len() > 0 {
        if i == s.len() - 1 {
            match s[i] {
                RecordChunk::Normal(c) => {
                    let ns = normal_chunks(s);
                    assert(ns[ns.len() - 1] == c);
                },
                RecordChunk::Slop(_) => {},
            }
        } else {
            lemma_normal_chunks_membership(s.drop_last(), i);
            assert(s.drop_last()[i] == s[i]);
            match s[i] {
                RecordChunk::Normal(c) => {
                    let ns0 = normal_chunks(s.drop_last());
                    let j = choose|j: int| 0 <= j < ns0.len() && ns0[j] == c;
                    assert(normal_chunks(s)[j] == c);
                },
                RecordChunk::Slop(_) => {},
            }
        }
    }
}

/// Appending a chunk appends its payload.
pub proof fn lemma_payloads_push(ns: Seq<Chunk>, c: Chunk)
    ensures
        chunk_payloads(ns.push(c)) == chunk_payloads(ns) + c.data@,
{
    assert(ns.push(c).drop_last() =~= ns);
    assert(ns.push(c).last() == c);
}

/// A logical `(key, value)` entry bound for the log.
pub struct Record {
    pub key: Vec<u8>,
    pub value: Vec<u8>,
}

/// 128^k.
pub open spec fn pow128(k: nat) -> nat
    decreases k,
{
    if k == 0 {
        1
    } else {
        128 * pow128((k - 1) as nat)
    }
}

proof fn lemma_varint_len_le(n: nat, k: nat)
    requires
        k >= 1,
        n < pow128(k),
    ensures
        varint_bytes(n).len() <= k,
    decreases k,
{
    if n >= 128 {
        assert(n / 128 < pow128((k - 1) as nat)) by (nonlinear_arith)
            requires
                n < pow128(k),
                pow128(k) == 128 * pow128((k - 1) as nat),
                n >= 128,
        ;
        lemma_varint_len_le(n / 128, (k - 1) as nat);
    }
}

/// Any length that fits `usize` has a varint form of at most ten bytes.
pub proof fn lemma_varint_len_bound(n: nat)
    requires
        n <= usize::MAX,
    ensures
        varint_bytes(n).len() <= 10,
{
    assert(pow128(0) == 1);
    assert(pow128(1) == 128 * pow128(0));
    assert(pow128(2) == 128 * 128);
    assert(pow128(3) == 128 * pow128(2));
    assert(pow128(4) == 128 * pow128(3));
    assert(pow128(5) == 128 * pow128(4));
    assert(pow128(6) == 128 * pow128(5));
    assert(pow128(7) == 128 * pow128(6));
    assert(pow128(8) == 128 * pow128(7));
    assert(pow128(9) == 128 * pow128(8));
    assert(pow128(10) == 128 * pow128(9));
    assert(pow128(10) > usize::MAX);
    lemma_varint_len_le(n, 10);
}

impl Record {
    /// The record's wire form.
    pub open spec fn spec_bytes(self) -> Seq<u8> {
        record_bytes(self.key@, self.value@)
    }

    /// The wire form, with room to spare below the machine limit so chunk
    /// headers can be added without overflow.
    pub open spec fn wf(self) -> bool {
        self.spec_bytes().len() + CHUNK_HEAD_SIZE <= usize::MAX
    }

    pub open spec fn spec_key(self) -> Seq<u8> {
        self.key@
    }

    pub open spec fn spec_value(self) -> Seq<u8> {
        self.value@
    }

    pub fn new(key: Vec<u8>, value: Vec<u8>) -> (r: Record)
        requires
            key@.len() + value@.len() + CHUNK_HEAD_SIZE + 20 <= usize::MAX,
        ensures
            r.key@ == key@,
            r.value@ == value@,
            r.wf(),
    {
        proof {
            lemma_varint_len_bound(key@.len());
            lemma_varint_len_bound(value@.len());
        }
        Record { key, value }
    }

    pub fn key_size(&self) -> (r: usize)
        ensures
            r == self.key@.len(),
    {
        self.key.len()
    }

    pub fn value_size(&self) -> (r: usize)
        ensures
            r == self.value@.len(),
    {
        self.value.len()
    }

    pub fn key(&self) -> (r: &Vec<u8>)
        ensures
            r@ == self.key@,
    {
        &self.key
    }

    pub fn value(&self) -> (r: &Vec<u8>)
        ensures
            r@ == self.value@,
    {
        &self.value
    }

    /// The record's total wire length.
    pub fn len(&self) -> (r: usize)
        requires
            self.wf(),
        ensures
            r == self.spec_bytes().len(),
    {
        let ks = encode_usize(self.key.len());
        let vs = encode_usize(self.value.len());
        ks.len() + self.key.len() + vs.len() + self.value.len()
    }

    /// Serialize the record.
    pub fn encode(&self) -> (r: Vec<u8>)
        requires
            self.wf(),
        ensures
            r@ == self.spec_bytes(),
    {
        let mut out = encode_usize(self.key.len());
        crate::endian::append_bytes(&mut out, self.key.as_slice());
        let vs = encode_usize(self.value.len());
        crate::endian::append_bytes(&mut out, vs.as_slice());
        crate::endian::append_bytes(&mut out, self.value.as_slice());
        proof {
            assert(out@ =~= self.spec_bytes());
        }
        out
    }

    /// Parse a record from the front of `bytes`; bytes past the record are
    /// ignored, as the chunk run fixes the record boundary.
    pub fn decode(bytes: &[u8]) -> (r: Option<Record>)
        ensures
            match spec_parse_record(bytes@) {
                None => r is None,
                Some((k, v)) => match r {
                    None => false,
                    Some(rec) => rec.key@ == k && rec.value@ == v,
                },
            },
    {
        let blen = bytes.len();
        proof {
            crate::varint::lemma_spec_decode_bounds(bytes@, 0);
        }
        let (key_size, key_start) = match decode_usize(bytes, 0) {
            None => {
                proof {
                    if let Some((kl, i)) = spec_decode_varint(bytes@, 0) {
                        assert(kl > usize::MAX);
                        assert(i + kl > bytes@.len());
                    }
                }
                return None;
            },
            Some(p) => p,
        };
        if key_size > bytes.len() - key_start {
            return None;
        }
        let key = vstd::slice::slice_to_vec(
            vstd::slice::slice_subrange(bytes, key_start, key_start + key_size),
        );
        proof {
            crate::varint::lemma_spec_decode_bounds(bytes@, key_start + key_size);
        }
        let (value_size, value_start) = match decode_usize(bytes, key_start + key_size) {
            None => {
                proof {
                    if let Some((vl, j)) = spec_decode_varint(
                        bytes@,
                        key_start + key_size,
                    ) {
                        assert(vl > usize::MAX);
                        assert(j + vl > bytes@.len());
                    }
                }
                return None;
            },
            Some(p) => p,
        };
        if value_size > bytes.len() - value_start {
            return None;
        }
        let value = vstd::slice::slice_to_vec(
            vstd::slice::slice_subrange(bytes, value_start, value_start + value_size),
        );
        Some(Record { key, value })
    }

    /// Cut the record into its chunk run. `first_size` bytes are left in the
    /// current block; further blocks hold `max_size`. A record that fits what
    /// is left becomes one `Full` chunk; otherwise a `First` chunk fills the
    /// current block and the rest runs through `Middle` chunks to a `Last`.
    /// A block tail smaller than `MIN_CHUNK_SIZE` is filled with zero
    /// padding, which the reader skips; at least `MIN_CHUNK_SIZE` is always
    /// left wherever a record may start. Returns the run and the bytes left
    /// in the block the run ends in.
    #[verifier::rlimit(100)]
    pub fn get_chunks(&self, first_size: usize, max_size: usize) -> (r: (Vec<RecordChunk>, usize))
        requires
            self.wf(),
            MIN_CHUNK_SIZE <= first_size <= max_size,
            MIN_CHUNK_SIZE < max_size,
            max_size <= u16::MAX,
        ensures
            ({
                let ns = normal_chunks(r.0@);
                &&& chunk_payloads(ns) == self.spec_bytes()
                &&& ns.len() >= 1
                &&& forall|i: int|
                    0 <= i < ns.len() ==> (#[trigger] ns[i]).crc32 == crc32_of(ns[i].data@)
                        && ns[i].wf() && ns[i].data@.len() > 0
                &&& (ns.len() == 1 ==> ns[0].ty == ChunkType::Full)
                &&& (ns.len() > 1 ==> ns[0].ty == ChunkType::First && ns[ns.len() - 1].ty
                    == ChunkType::Last && (forall|i: int|
                    0 < i < ns.len() - 1 ==> (#[trigger] ns[i]).ty == ChunkType::Middle))
                &&& layout_after(r.0@, first_size as int, max_size as int) == Some(r.1 as int)
                &&& MIN_CHUNK_SIZE <= r.1 <= max_size
                &&& forall|i: int|
                    0 <= i < ns.len() ==> r.0@[i] == RecordChunk::Normal(#[trigger] ns[i])
                &&& ns.len() <= r.0@.len() <= ns.len() + 1
                &&& (r.0@.len() == ns.len() + 1 ==> r.0@.last() is Slop)
                &&& forall|k: int|
                    0 <= k < ns.len() ==> #[trigger] layout_after(
                        r.0@.take(k),
                        first_size as int,
                        max_size as int,
                    ) == Some(
                        if k == 0 {
                            first_size as int
                        } else {
                            max_size as int
                        },
                    )
            }),
    {
        let bytes = self.encode();
        let total = bytes.len();
        proof {
            assert(varint_bytes(self.key@.len()).len() >= 1);
            assert(varint_bytes(self.value@.len()).len() >= 1);
        }
        let mut chunks: Vec<RecordChunk> = Vec::new();
        let mut left = first_size;
        proof {
            assert(normal_chunks(Seq::<RecordChunk>::empty()) =~= Seq::<Chunk>::empty());
            assert(chunk_payloads(Seq::<Chunk>::empty()) =~= Seq::<u8>::empty());
            assert(layout_after(Seq::<RecordChunk>::empty(), first_size as int, max_size as int)
                == Some(first_size as int));
        }
        if total + CHUNK_HEAD_SIZE <= left {
            // The whole record fits where it stands: one Full chunk.
            let ghost pre = chunks@;
            let c = Chunk::new(bytes, ChunkType::Full);
            proof {
                lemma_run_push(pre, RecordChunk::Normal(c), first_size as int, max_size as int);
                lemma_payloads_push(normal_chunks(pre), c);
                assert(normal_chunks(pre) =~= Seq::<Chunk>::empty());
                assert(chunk_payloads(normal_chunks(pre)) + c.data@ =~= c.data@);
            }
            chunks.push(RecordChunk::Normal(c));
            proof {
                let ns = normal_chunks(chunks@);
                assert(ns.len() == 1 && ns[0] == c);
                assert(chunk_payloads(ns) == self.spec_bytes());
            }
            left = left - (total + CHUNK_HEAD_SIZE);
            if left == 0 {
                left = max_size;
            } else if left < MIN_CHUNK_SIZE {
                proof {
                    lemma_run_push(chunks@, RecordChunk::Slop(left), first_size as int,
                        max_size as int);
                }
                chunks.push(RecordChunk::Slop(left));
                left = max_size;
            }
            proof {
                let ns = normal_chunks(chunks@);
                assert(c.spec_encoding().len() == total + CHUNK_HEAD_SIZE);
                assert(ns.len() == 1 && ns[0] == c);
                assert(chunk_payloads(ns) == self.spec_bytes());
                assert(layout_after(chunks@, first_size as int, max_size as int) == Some(
                    left as int,
                ));
                assert(MIN_CHUNK_SIZE <= left <= max_size);
                assert(chunks@.take(0) =~= Seq::<RecordChunk>::empty());
            }
            return (chunks, left);
        }
        // Fragmented: a First chunk fills this block, Middle chunks fill
        // whole blocks, and a Last chunk carries the remainder.
        let ghost pre = chunks@;
        let first_data = vstd::slice::slice_to_vec(
            vstd::slice::slice_subrange(bytes.as_slice(), 0, left - CHUNK_HEAD_SIZE),
        );
        let c = Chunk::new(first_data, ChunkType::First);
        proof {
            lemma_run_push(pre, RecordChunk::Normal(c), first_size as int, max_size as int);
            lemma_payloads_push(normal_chunks(pre), c);
            assert(normal_chunks(pre) =~= Seq::<Chunk>::empty());
            assert(chunk_payloads(normal_chunks(pre)) + c.data@ =~= c.data@);
        }
        let mut pos = left - CHUNK_HEAD_SIZE;
        chunks.push(RecordChunk::Normal(c));
        left = max_size;
        proof {
            let ns = normal_chunks(chunks@);
            assert(c.spec_encoding().len() == pos + CHUNK_HEAD_SIZE);
            assert(ns.len() == 1 && ns[0] == c);
            assert(c.data@ =~= bytes@.take(pos as int));
            assert(layout_after(chunks@, first_size as int, max_size as int) == Some(
                max_size as int,
            ));
        }
        while total - pos + CHUNK_HEAD_SIZE > max_size
            invariant
                self.wf(),
                bytes@ == self.spec_bytes(),
                total == bytes@.len(),
                0 < pos < total,
                left == max_size,
                MIN_CHUNK_SIZE < max_size <= u16::MAX,
                chunk_payloads(normal_chunks(chunks@)) == bytes@.take(pos as int),
                layout_after(chunks@, first_size as int, max_size as int) == Some(
                    max_size as int,
                ),
                normal_chunks(chunks@).len() >= 1,
                normal_chunks(chunks@)[0].ty == ChunkType::First,
                forall|i: int|
                    0 < i < normal_chunks(chunks@).len() ==> (#[trigger] normal_chunks(
                        chunks@,
                    )[i]).ty == ChunkType::Middle,
                forall|i: int|
                    0 <= i < normal_chunks(chunks@).len() ==> (#[trigger] normal_chunks(
                        chunks@,
                    )[i]).crc32 == crc32_of(normal_chunks(chunks@)[i].data@) && normal_chunks(
                        chunks@,
                    )[i].wf() && normal_chunks(chunks@)[i].data@.len() > 0,
                chunks@.len() == normal_chunks(chunks@).len(),
                forall|i: int|
                    0 <= i < normal_chunks(chunks@).len() ==> chunks@[i] == RecordChunk::Normal(
                        #[trigger] normal_chunks(chunks@)[i],
                    ),
                forall|k: int|
                    0 <= k < chunks@.len() ==> #[trigger] layout_after(
                        chunks@.take(k),
                        first_size as int,
                        max_size as int,
                    ) == Some(
                        if k == 0 {
                            first_size as int
                        } else {
                            max_size as int
                        },
                    ),
            decreases total - pos,
        {
            let ghost pre2 = chunks@;
            let part = vstd::slice::slice_to_vec(
                vstd::slice::slice_subrange(bytes.as_slice(), pos, pos + (max_size
                    - CHUNK_HEAD_SIZE)),
            );
            let c2 = Chunk::new(part, ChunkType::Middle);
            proof {
                lemma_run_push(pre2, RecordChunk::Normal(c2), first_size as int, max_size as int);
                lemma_payloads_push(normal_chunks(pre2), c2);
                assert(bytes@.take(pos as int) + bytes@.subrange(
                    pos as int,
                    pos as int + (max_size - CHUNK_HEAD_SIZE),
                ) =~= bytes@.take(pos as int + (max_size - CHUNK_HEAD_SIZE)));
            }
            chunks.push(RecordChunk::Normal(c2));
            pos = pos + (max_size - CHUNK_HEAD_SIZE);
            proof {
                assert forall|k: int| 0 <= k < chunks@.len() implies #[trigger] layout_after(
                    chunks@.take(k),
                    first_size as int,
                    max_size as int,
                ) == Some(
                    if k == 0 {
                        first_size as int
                    } else {
                        max_size as int
                    },
                ) by {
                    assert(chunks@.take(k) =~= pre2.take(k));
                    if k == pre2.len() {
                        assert(pre2.take(k) =~= pre2);
                    }
                }
            }
        }
        let ghost pre3 = chunks@;
        let last_data = vstd::slice::slice_to_vec(
            vstd::slice::slice_subrange(bytes.as_slice(), pos, total),
        );
        let last_len = total - pos + CHUNK_HEAD_SIZE;
        let c3 = Chunk::new(last_data, ChunkType::Last);
        proof {
            lemma_run_push(pre3, RecordChunk::Normal(c3), first_size as int, max_size as int);
            lemma_payloads_push(normal_chunks(pre3), c3);
            assert(bytes@.take(pos as int) + bytes@.subrange(pos as int, total as int)
                =~= bytes@);
            assert(bytes@.take(total as int) =~= bytes@);
        }
        chunks.push(RecordChunk::Normal(c3));
        proof {
            assert forall|k: int| 0 <= k < normal_chunks(chunks@).len() implies
                #[trigger] layout_after(chunks@.take(k), first_size as int, max_size as int)
                == Some(
                if k == 0 {
                    first_size as int
                } else {
                    max_size as int
                },
            ) by {
                assert(chunks@.take(k) =~= pre3.take(k));
                if k == pre3.len() {
                    assert(pre3.take(k) =~= pre3);
                }
            }
        }
        left = max_size - last_len;
        let ghost sealed = chunks@;
        if left == 0 {
            left = max_size;
        } else if left < MIN_CHUNK_SIZE {
            proof {
                lemma_run_push(chunks@, RecordChunk::Slop(left), first_size as int,
                    max_size as int);
            }
            chunks.push(RecordChunk::Slop(left));
            left = max_size;
            proof {
                assert forall|k: int| 0 <= k < normal_chunks(chunks@).len() implies
                    #[trigger] layout_after(chunks@.take(k), first_size as int, max_size as int)
                    == Some(
                    if k == 0 {
                        first_size as int
                    } else {
                        max_size as int
                    },
                ) by {
                    assert(chunks@.take(k) =~= sealed.take(k));
                }
            }
        }
        (chunks, left)
    }
}

/// Round trip across fragmentation: whatever block boundaries cut a record
/// into chunks, the chunk payloads concatenate back to its serialization,
/// and parsing that recovers the key and value exactly.
pub proof fn lemma_fragmentation_round_trip(k: Seq<u8>, v: Seq<u8>, ns: Seq<Chunk>)
    requires
        chunk_payloads(ns) == record_bytes(k, v),
    ensures
        spec_parse_record(chunk_payloads(ns)) == Some((k, v)),
{
    lemma_record_round_trip(k, v);
}

/// Decoding the serialization of `(k, v)` recovers exactly `k` and `v`.
pub proof fn lemma_record_round_trip(k: Seq<u8>, v: Seq<u8>)
    ensures
        spec_parse_record(record_bytes(k, v)) == Some((k, v)),
{
    let s = record_bytes(k, v);
    let kl = varint_bytes(k.len()).len() as int;
    let vl = varint_bytes(v.len()).len() as int;
    assert(s =~= varint_bytes(k.len()) + (k + varint_bytes(v.len()) + v));
    lemma_varint_round_trip(k.len(), k + varint_bytes(v.len()) + v);
    assert(spec_decode_varint(s, 0) == Some((k.len(), kl)));
    assert(s.subrange(kl, kl + k.len() as int) =~= k);
    assert(s.skip(kl + k.len() as int) =~= varint_bytes(v.len()) + v);
    crate::varint::lemma_varint_decode_at(s, kl + k.len() as int, v.len(), v);
    assert(s.subrange(kl + k.len() as int + vl, s.len() as int) =~= v);
}

} // verus!
