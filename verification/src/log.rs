//! The write-ahead log's framing engine. `LogWriter` turns records into the
//! exact bytes to append to the current log file, tracking how much of the
//! current block is left. `LogIterator` replays a log image — the bytes of
//! one log file — back into record payloads; `lemma_replay_log` proves the
//! two fit: an image framed by successive appends replays to exactly the
//! appended records, in order. Opening, appending to and reading log files
//! is the caller's business; everything here works on plain bytes.

use crate::chunk::{Chunk, MIN_CHUNK_SIZE};
use crate::error::Error;
use crate::record::{
    chunk_payloads, layout_after, normal_chunks, run_bytes, Record, RecordChunk,
};
use vstd::prelude::*;

verus! {

impl RecordChunk {
    /// Chunks in a run must fit their length field.
    pub open spec fn chunk_wf(self) -> bool {
        match self {
            RecordChunk::Normal(c) => c.wf(),
            RecordChunk::Slop(_) => true,
        }
    }
}

/// Serialize a chunk run: chunk encodings and zero padding, in order.
pub fn flatten_run(chunks: &Vec<RecordChunk>) -> (r: Vec<u8>)
    requires
        forall|i: int| 0 <= i < chunks@.len() ==> (#[trigger] chunks@[i]).chunk_wf(),
    ensures
        r@ == run_bytes(chunks@),
{
    let mut out: Vec<u8> = Vec::new();
    let mut i: usize = 0;
    proof {
        assert(run_bytes(Seq::<RecordChunk>::empty()) =~= Seq::<u8>::empty());
        assert(chunks@.take(0) =~= Seq::<RecordChunk>::empty());
    }
    while i < chunks.len()
        invariant
            i <= chunks@.len(),
            out@ == run_bytes(chunks@.take(i as int)),
            forall|k: int| 0 <= k < chunks@.len() ==> (#[trigger] chunks@[k]).chunk_wf(),
        decreases chunks@.len() - i,
    {
        proof {
            assert(chunks@.take(i as int + 1).drop_last() =~= chunks@.take(i as int));
            assert(chunks@.take(i as int + 1).last() == chunks@[i as int]);
        }
        match &chunks[i] {
            RecordChunk::Normal(c) => {
                c.encode_into(&mut out);
            },
            RecordChunk::Slop(n) => {
                crate::endian::append_zeros(&mut out, *n);
            },
        }
        i = i + 1;
    }
    proof {
        assert(chunks@.take(chunks@.len() as int) =~= chunks@);
    }
    out
}

/// The framing state of the current log file: the block size and how much of
/// the current block is still free. Appending yields the bytes to write.
pub struct LogWriter {
    pub block_size: usize,
    pub remaining_size: usize,
}

impl LogWriter {
    /// The writer never leaves a block tail smaller than `MIN_CHUNK_SIZE`
    /// unpadded, so a record can always open where the cursor stands.
    pub open spec fn wf(self) -> bool {
        &&& MIN_CHUNK_SIZE < self.block_size <= u16::MAX
        &&& MIN_CHUNK_SIZE <= self.remaining_size <= self.block_size
    }

    /// Start framing a fresh (empty) log file.
    pub fn new(block_size: usize) -> (r: LogWriter)
        requires
            MIN_CHUNK_SIZE < block_size <= u16::MAX,
        ensures
            r.wf(),
            r.block_size == block_size,
            r.remaining_size == block_size,
    {
        LogWriter { block_size, remaining_size: block_size }
    }

    /// Frame `record` for appending at the current position: the returned
    /// bytes are its chunk run, padding included, and the writer's cursor
    /// moves past them. The run carries exactly the record's serialization
    /// in its chunk payloads and fits the block grid.
    pub fn append_record(&mut self, record: &Record) -> (out: Vec<u8>)
        requires
            old(self).wf(),
            record.wf(),
        ensures
            final(self).wf(),
            final(self).block_size == old(self).block_size,
            exists|chunks: Seq<RecordChunk>|
                {
                    let ns = normal_chunks(chunks);
                    &&& out@ == #[trigger] run_bytes(chunks)
                    &&& layout_after(
                        chunks,
                        old(self).remaining_size as int,
                        old(self).block_size as int,
                    ) == Some(final(self).remaining_size as int)
                    &&& chunk_payloads(ns) == record.spec_bytes()
                    &&& ns.len() >= 1
                    &&& forall|i: int|
                        0 <= i < ns.len() ==> (#[trigger] ns[i]).crc32 == crate::chunk::crc32_of(
                            ns[i].data@,
                        ) && ns[i].wf() && ns[i].data@.len() > 0
                    &&& (ns.len() == 1 ==> ns[0].ty is Full)
                    &&& (ns.len() > 1 ==> ns[0].ty is First && ns[ns.len() - 1].ty is Last
                        && (forall|i: int|
                        0 < i < ns.len() - 1 ==> (#[trigger] ns[i]).ty is Middle))
                    &&& forall|i: int|
                        0 <= i < ns.len() ==> chunks[i] == RecordChunk::Normal(#[trigger] ns[i])
                    &&& ns.len() <= chunks.len() <= ns.len() + 1
                    &&& (chunks.len() == ns.len() + 1 ==> chunks.last() is Slop)
                    &&& forall|k: int|
                        0 <= k < ns.len() ==> #[trigger] layout_after(
                            chunks.take(k),
                            old(self).remaining_size as int,
                            old(self).block_size as int,
                        ) == Some(
                            if k == 0 {
                                old(self).remaining_size as int
                            } else {
                                old(self).block_size as int
                            },
                        )
                },
    {
        let (chunks, new_remaining) = record.get_chunks(self.remaining_size, self.block_size);
        self.remaining_size = new_remaining;
        proof {
            let ns = normal_chunks(chunks@);
            assert forall|i: int| 0 <= i < chunks@.len() implies (#[trigger] chunks@[i]).chunk_wf() by {
                crate::record::lemma_normal_chunks_membership(chunks@, i);
                match chunks@[i] {
                    RecordChunk::Normal(c) => {
                        let j = choose|j: int| 0 <= j < ns.len() && ns[j] == c;
                        assert(ns[j].wf());
                    },
                    RecordChunk::Slop(_) => {},
                }
            }
        }
        let out = flatten_run(&chunks);
        proof {
            assert(out@ == run_bytes(chunks@));
        }
        out
    }
}

/// The number a decimal digit string denotes.
pub open spec fn digits_value(s: Seq<u8>) -> nat
    decreases s.len(),
{
    if s.len() == 0 {
        0
    } else {
        (digits_value(s.drop_last()) * 10 + (s.last() - 48)) as nat
    }
}

/// A non-empty run of ASCII decimal digits.
pub open spec fn is_digits(s: Seq<u8>) -> bool {
    s.len() >= 1 && forall|i: int| 0 <= i < s.len() ==> 48 <= #[trigger] s[i] <= 57
}

/// `name` has the shape of a log file name: `log_` followed by decimal
/// digits denoting a number that fits `u64`.
pub open spec fn is_log_file_name(name: Seq<u8>) -> bool {
    &&& name.len() > 4
    &&& name.take(4) == seq![108u8, 111u8, 103u8, 95u8]
    &&& is_digits(name.skip(4))
    &&& digits_value(name.skip(4)) <= u64::MAX
}

/// A longer digit run never denotes a smaller number.
proof fn lemma_digits_prefix_le(s: Seq<u8>, i: int)
    requires
        0 <= i <= s.len(),
        forall|j: int| 0 <= j < s.len() ==> 48 <= #[trigger] s[j] <= 57,
    ensures
        digits_value(s.take(i)) <= digits_value(s),
    decreases s.len() - i,
{
    if i < s.len() {
        lemma_digits_prefix_le(s, i + 1);
        assert(s.take(i + 1).drop_last() =~= s.take(i));
        assert(digits_value(s.take(i + 1)) == digits_value(s.take(i)) * 10 + (s[i] - 48));
    } else {
        assert(s.take(i) =~= s);
    }
}

/// Parse a file name of the form `log_<digits>`: the log number it names,
/// or `None` for any other name, a number past `u64` included.
pub fn parse_log_file_name(name: &[u8]) -> (r: Option<u64>)
    ensures
        match r {
            Some(n) => is_log_file_name(name@) && n == digits_value(name@.skip(4)),
            None => !is_log_file_name(name@),
        },
{
    if name.len() <= 4 {
        return None;
    }
    if !(name[0] == 108 && name[1] == 111 && name[2] == 103 && name[3] == 95) {
        proof {
            if name@.take(4) == seq![108u8, 111u8, 103u8, 95u8] {
                assert(name@.take(4)[0] == 108 && name@.take(4)[1] == 111 && name@.take(4)[2]
                    == 103 && name@.take(4)[3] == 95);
            }
        }
        return None;
    }
    proof {
        assert(name@.take(4) =~= seq![108u8, 111u8, 103u8, 95u8]);
    }
    let ghost digits = name@.skip(4);
    let mut acc: u64 = 0;
    let mut i: usize = 4;
    while i < name.len()
        invariant
            4 <= i <= name@.len(),
            4 < name@.len(),
            forall|j: int| 4 <= j < i ==> 48 <= #[trigger] name@[j] <= 57,
            digits == name@.skip(4),
            acc == digits_value(digits.take(i - 4)),
        decreases name@.len() - i,
    {
        let b = name[i];
        if b < 48 || b > 57 {
            proof {
                assert(digits[i - 4] == name@[i as int]);
            }
            return None;
        }
        let d = (b - 48) as u64;
        if acc > (u64::MAX - d) / 10 {
            proof {
                assert(digits.take(i - 4 + 1).drop_last() =~= digits.take(i - 4));
                assert(digits.take(i - 4 + 1).last() == name@[i as int]);
                assert(digits_value(digits.take(i - 4 + 1)) == acc * 10 + d);
                assert(acc * 10 + d > u64::MAX) by (nonlinear_arith)
                    requires
                        acc > (u64::MAX - d) / 10,
                        d <= 9,
                        acc * 10 + d >= 0,
                ;
                if is_log_file_name(name@) {
                    lemma_digits_prefix_le(digits, i - 4 + 1);
                }
            }
            return None;
        }
        proof {
            assert(digits.take(i - 4 + 1).drop_last() =~= digits.take(i - 4));
            assert(digits.take(i - 4 + 1).last() == name@[i as int]);
            assert(acc * 10 + d <= u64::MAX) by (nonlinear_arith)
                requires
                    acc <= (u64::MAX - d) / 10,
                    d <= 9,
            ;
        }
        acc = acc * 10 + d;
        i = i + 1;
    }
    proof {
        assert(digits.take(name@.len() - 4) =~= digits);
    }
    Some(acc)
}

/// A reassembled record as pulled out of a log image.
pub struct RecordWrapper {
    pub chunk_data: Vec<u8>,
}

impl RecordWrapper {
    /// Decode the reassembled bytes as a record; `None` means the payload is
    /// not a well-formed record.
    pub fn record(&self) -> (r: Option<Record>)
        ensures
            match crate::record::spec_parse_record(self.chunk_data@) {
                None => r is None,
                Some((k, v)) => match r {
                    None => false,
                    Some(rec) => rec.key@ == k && rec.value@ == v,
                },
            },
    {
        Record::decode(self.chunk_data.as_slice())
    }
}

/// Replays one log file from its bytes: each `next` yields the payload of
/// the next record's chunk run, a CRC failure, or `None` at the end.
pub struct LogIterator {
    pub image: Vec<u8>,
    pub file_name: String,
    pub block_size: usize,
    pub pos: usize,
}

impl LogIterator {
    pub open spec fn wf(self) -> bool {
        &&& MIN_CHUNK_SIZE < self.block_size
        &&& self.pos <= self.image@.len()
    }

    pub open spec fn spec_image(self) -> Seq<u8> {
        self.image@
    }

    pub open spec fn spec_pos(self) -> int {
        self.pos as int
    }

    /// Start replaying `image`, the full contents of a log file.
    /// `file_name` names the file in errors.
    pub fn new(file_name: String, block_size: usize, image: Vec<u8>) -> (r: LogIterator)
        requires
            MIN_CHUNK_SIZE < block_size,
        ensures
            r.wf(),
            r.spec_image() == image@,
            r.spec_pos() == 0,
            r.block_size == block_size,
    {
        LogIterator { image, file_name, block_size, pos: 0 }
    }

    /// Pull the next record's reassembled payload: exactly what `spec_scan`
    /// says stands at the cursor. Skips block tails smaller than
    /// `MIN_CHUNK_SIZE`, accumulates chunk payloads until an ending chunk
    /// (`Full` or `Last`), and checks each chunk's CRC. Returns `None` at
    /// the end of the image, also when a truncated or unparsable tail
    /// remains; a chunk whose checksum does not match its payload yields
    /// `UnexpectedChunkCRC`.
    pub fn next(&mut self) -> (r: Option<Result<RecordWrapper, Error>>)
        requires
            old(self).wf(),
        ensures
            final(self).wf(),
            final(self).block_size == old(self).block_size,
            final(self).spec_image() == old(self).spec_image(),
            final(self).file_name == old(self).file_name,
            match spec_scan(
                old(self).spec_image(),
                old(self).block_size as int,
                old(self).spec_pos(),
                Seq::empty(),
            ) {
                ScanStep::End => r is None,
                ScanStep::Crc => match r {
                    Some(Err(Error::UnexpectedChunkCRC(s))) => s@ == old(self).file_name@,
                    _ => false,
                },
                ScanStep::Rec(d, p) => match r {
                    Some(Ok(w)) => w.chunk_data@ == d && final(self).spec_pos() == p,
                    _ => false,
                },
            },
    {
        let mut data: Vec<u8> = Vec::new();
        loop
            invariant
                self.wf(),
                self.block_size == old(self).block_size,
                self.image@ == old(self).image@,
                self.file_name == old(self).file_name,
                old(self).pos <= self.pos,
                spec_scan(
                    self.image@,
                    self.block_size as int,
                    old(self).pos as int,
                    Seq::empty(),
                ) == spec_scan(self.image@, self.block_size as int, self.pos as int, data@),
            decreases self.image@.len() - self.pos,
        {
            if self.pos >= self.image.len() {
                return None;
            }
            // How much of the current block lies ahead of the cursor.
            let block_off = self.pos % self.block_size;
            let in_block = self.block_size - block_off;
            if in_block < MIN_CHUNK_SIZE {
                // A block tail too small for a chunk is padding; it runs to
                // the end of the block, or to the image's end if truncated.
                let to_end = self.image.len() - self.pos;
                let skip = if in_block < to_end {
                    in_block
                } else {
                    to_end
                };
                self.pos = self.pos + skip;
                continue;
            }
            match Chunk::decode(self.image.as_slice(), self.pos) {
                None => {
                    // Malformed header or a chunk running past the image.
                    self.pos = self.image.len();
                    return None;
                },
                Some((chunk, end)) => {
                    if !chunk.check_crc32() {
                        self.pos = self.image.len();
                        return Some(Err(Error::UnexpectedChunkCRC(self.file_name.clone())));
                    }
                    self.pos = end;
                    crate::endian::append_bytes(&mut data, chunk.data.as_slice());
                    if chunk.ty().is_ending() {
                        return Some(Ok(RecordWrapper { chunk_data: data }));
                    }
                },
            }
        }
    }
}

/// What one pull of the replayer yields.
pub enum ScanStep {
    /// The image is exhausted, or its tail is truncated or unparsable.
    End,
    /// A chunk's stored checksum does not match its payload.
    Crc,
    /// A record's reassembled payload, and the position just past its
    /// ending chunk.
    Rec(Seq<u8>, int),
}

/// The replayer's course through an image, from `pos` with `acc` already
/// reassembled: skip sub-`MIN_CHUNK_SIZE` block tails as padding, gather
/// chunk payloads, stop at an ending chunk or a checksum mismatch.
pub open spec fn spec_scan(image: Seq<u8>, bs: int, pos: int, acc: Seq<u8>) -> ScanStep
    decreases image.len() - pos,
{
    if pos < 0 || pos >= image.len() || bs <= MIN_CHUNK_SIZE {
        ScanStep::End
    } else {
        let in_block = bs - pos % bs;
        if in_block < MIN_CHUNK_SIZE {
            let skip = if in_block < image.len() - pos {
                in_block
            } else {
                image.len() - pos
            };
            spec_scan(image, bs, pos + skip, acc)
        } else {
            match crate::chunk::spec_parse_chunk(image, pos) {
                None => ScanStep::End,
                Some((ty, crc, data, end)) => if crc != crate::chunk::crc32_of(data) {
                    ScanStep::Crc
                } else if ty is Full || ty is Last {
                    ScanStep::Rec(acc + data, end)
                } else {
                    spec_scan(image, bs, end, acc + data)
                },
            }
        }
    }
}

/// A sound, intact, non-ending chunk of a run.
pub open spec fn good_open_chunk(rc: RecordChunk) -> bool {
    match rc {
        RecordChunk::Normal(c) => c.wf() && c.crc32 == crate::chunk::crc32_of(c.data@)
            && c.data@.len() > 0 && !(c.ty is Full) && !(c.ty is Last),
        RecordChunk::Slop(_) => false,
    }
}

/// The scanner walks a run of intact non-ending chunks, gathering their
/// payloads, and comes out aligned where the layout says the run ends.
proof fn lemma_scan_open_run(
    image: Seq<u8>,
    bs: int,
    pos: int,
    rem: int,
    chunks: Seq<RecordChunk>,
    acc: Seq<u8>,
)
    requires
        MIN_CHUNK_SIZE < bs,
        MIN_CHUNK_SIZE <= rem <= bs,
        0 <= pos,
        bs - pos % bs == rem,
        pos + run_bytes(chunks).len() <= image.len(),
        image.subrange(pos, pos + run_bytes(chunks).len()) == run_bytes(chunks),
        forall|i: int| 0 <= i < chunks.len() ==> good_open_chunk(#[trigger] chunks[i]),
        forall|k: int|
            0 <= k <= chunks.len() ==> match #[trigger] layout_after(chunks.take(k), rem, bs) {
                Some(r) => MIN_CHUNK_SIZE <= r <= bs,
                None => false,
            },
    ensures
        spec_scan(image, bs, pos, acc) == spec_scan(
            image,
            bs,
            pos + run_bytes(chunks).len(),
            acc + chunk_payloads(normal_chunks(chunks)),
        ),
        match layout_after(chunks, rem, bs) {
            Some(r) => bs - (pos + run_bytes(chunks).len()) % bs == r,
            None => false,
        },
    decreases chunks.len(),
{
    vstd::arithmetic::div_mod::lemma_fundamental_div_mod(pos, bs);
    if chunks.len() == 0 {
        assert(run_bytes(chunks) =~= Seq::<u8>::empty());
        assert(normal_chunks(chunks) =~= Seq::<Chunk>::empty());
        assert(acc + chunk_payloads(normal_chunks(chunks)) =~= acc);
        assert(image.subrange(pos, pos) =~= Seq::<u8>::empty());
    } else {
        let base = chunks.drop_last();
        let c = chunks.last()->Normal_0;
        assert(chunks[chunks.len() - 1] == RecordChunk::Normal(c));
        // the base run is everything but the final chunk
        assert forall|k: int|
            0 <= k <= base.len() implies match #[trigger] layout_after(base.take(k), rem, bs) {
            Some(r) => MIN_CHUNK_SIZE <= r <= bs,
            None => false,
        } by {
            assert(base.take(k) =~= chunks.take(k));
        }
        assert(run_bytes(chunks) == run_bytes(base) + c.spec_encoding());
        let blen = run_bytes(base).len() as int;
        let elen = c.spec_encoding().len() as int;
        assert forall|k: int| 0 <= k < blen implies image.subrange(pos, pos + blen)[k]
            == run_bytes(base)[k] by {
            assert(image.subrange(pos, pos + blen + elen)[k] == image[pos + k]);
            assert(image.subrange(pos, pos + blen)[k] == image[pos + k]);
        }
        assert(image.subrange(pos, pos + blen) =~= run_bytes(base));
        lemma_scan_open_run(image, bs, pos, rem, base, acc);
        let pos_m = pos + blen;
        let r_m = layout_after(base, rem, bs)->Some_0;
        assert(layout_after(chunks.take(base.len() as int), rem, bs) == Some(r_m)) by {
            assert(chunks.take(base.len() as int) =~= base);
        }
        assert(MIN_CHUNK_SIZE <= r_m <= bs);
        // the final chunk parses at its own offset
        assert forall|k: int| 0 <= k < elen implies image.subrange(pos_m, pos_m + elen)[k]
            == c.spec_encoding()[k] by {
            assert(image.subrange(pos, pos + blen + elen)[blen + k] == image[pos_m + k]);
            assert(image.subrange(pos_m, pos_m + elen)[k] == image[pos_m + k]);
        }
        assert(image.subrange(pos_m, pos_m + elen) =~= c.spec_encoding());
        crate::chunk::lemma_parse_chunk_at(image, pos_m, c);
        // the cursor stands at the chunk with its block tail intact
        assert(layout_after(chunks, rem, bs) is Some) by {
            assert(chunks.take(chunks.len() as int) =~= chunks);
        }
        let rr = layout_after(chunks, rem, bs)->Some_0;
        assert(elen <= r_m && rr == (if r_m - elen == 0 {
            bs
        } else {
            r_m - elen
        })) by {
            assert(chunks.take(chunks.len() as int) =~= chunks);
            assert(layout_after(chunks, rem, bs) == (match layout_after(base, rem, bs) {
                None => None::<int>,
                Some(rem0) => if c.spec_encoding().len() <= rem0 {
                    if rem0 - c.spec_encoding().len() == 0 {
                        Some(bs)
                    } else {
                        Some(rem0 - c.spec_encoding().len())
                    }
                } else {
                    None
                },
            }));
        }
        vstd::arithmetic::div_mod::lemma_fundamental_div_mod(pos_m, bs);
        let q = pos_m / bs;
        assert(pos_m + elen == bs * q + (bs - r_m) + elen);
        if r_m - elen == 0 {
            assert(bs * q + (bs - r_m) + elen == bs * (q + 1) + 0) by (nonlinear_arith)
                requires
                    elen == r_m,
            ;
            vstd::arithmetic::div_mod::lemma_fundamental_div_mod_converse(
                pos_m + elen,
                bs,
                q + 1,
                0,
            );
        } else {
            vstd::arithmetic::div_mod::lemma_fundamental_div_mod_converse(
                pos_m + elen,
                bs,
                q,
                bs - r_m + elen,
            );
        }
        // one scan step over the final chunk
        assert(pos_m < image.len());
        assert(bs - pos_m % bs == r_m);
        assert(spec_scan(image, bs, pos_m, acc + chunk_payloads(normal_chunks(base)))
            == spec_scan(
            image,
            bs,
            pos_m + elen,
            acc + chunk_payloads(normal_chunks(base)) + c.data@,
        ));
        assert(normal_chunks(chunks) == normal_chunks(base).push(c));
        crate::record::lemma_payloads_push(normal_chunks(base), c);
        assert(acc + chunk_payloads(normal_chunks(base)) + c.data@ =~= acc + chunk_payloads(
            normal_chunks(chunks),
        ));
    }
}

/// A chunk run as the writer frames one record, entering a block with `rem`
/// bytes free: intact chunks in order, a single ending chunk at the end,
/// at most one trailing pad, each chunk opening where at least
/// `MIN_CHUNK_SIZE` is free.
pub open spec fn good_run(chunks: Seq<RecordChunk>, rem: int, bs: int) -> bool {
    let ns = normal_chunks(chunks);
    &&& layout_after(chunks, rem, bs) is Some
    &&& ns.len() >= 1
    &&& forall|i: int|
        0 <= i < ns.len() ==> (#[trigger] ns[i]).crc32 == crate::chunk::crc32_of(ns[i].data@)
            && ns[i].wf() && ns[i].data@.len() > 0
    &&& (ns.len() == 1 ==> ns[0].ty is Full)
    &&& (ns.len() > 1 ==> ns[0].ty is First && ns[ns.len() - 1].ty is Last && (forall|i: int|
        0 < i < ns.len() - 1 ==> (#[trigger] ns[i]).ty is Middle))
    &&& forall|i: int| 0 <= i < ns.len() ==> chunks[i] == RecordChunk::Normal(#[trigger] ns[i])
    &&& ns.len() <= chunks.len() <= ns.len() + 1
    &&& (chunks.len() == ns.len() + 1 ==> chunks.last() is Slop)
    &&& forall|k: int|
        0 <= k < ns.len() ==> match #[trigger] layout_after(chunks.take(k), rem, bs) {
            Some(r) => MIN_CHUNK_SIZE <= r <= bs,
            None => false,
        }
}

/// Replay of one framed record: scanning an image at the position where a
/// record's chunk run was written yields exactly that record's payload —
/// whatever precedes the run and whatever follows it. The scan stops just
/// past the run's ending chunk; resuming there carries it over the trailing
/// padding to the end of the run, aligned as the layout says.
#[verifier::rlimit(100)]
pub proof fn lemma_replay_record(
    image: Seq<u8>,
    bs: int,
    pos: int,
    rem: int,
    chunks: Seq<RecordChunk>,
    payload: Seq<u8>,
    acc: Seq<u8>,
)
    requires
        MIN_CHUNK_SIZE < bs,
        MIN_CHUNK_SIZE <= rem <= bs,
        0 <= pos,
        bs - pos % bs == rem,
        pos + run_bytes(chunks).len() <= image.len(),
        image.subrange(pos, pos + run_bytes(chunks).len()) == run_bytes(chunks),
        good_run(chunks, rem, bs),
        chunk_payloads(normal_chunks(chunks)) == payload,
    ensures
        spec_scan(image, bs, pos, acc) == ScanStep::Rec(
            acc + payload,
            pos + run_bytes(chunks.take(normal_chunks(chunks).len() as int)).len(),
        ),
        forall|acc2: Seq<u8>|
            #[trigger] spec_scan(
                image,
                bs,
                pos + run_bytes(chunks.take(normal_chunks(chunks).len() as int)).len(),
                acc2,
            ) == spec_scan(image, bs, pos + run_bytes(chunks).len(), acc2),
        bs - (pos + run_bytes(chunks).len()) % bs == layout_after(chunks, rem, bs)->Some_0,
        run_bytes(chunks.take(normal_chunks(chunks).len() as int)).len() >= 8,
{
    let ns = normal_chunks(chunks);
    let m = ns.len() as int;
    let open_run = chunks.take(m - 1);
    let c = ns[m - 1];
    // every chunk before the last is intact and non-ending
    assert forall|i: int| 0 <= i < open_run.len() implies good_open_chunk(
        #[trigger] open_run[i],
    ) by {
        assert(open_run[i] == RecordChunk::Normal(ns[i]));
    }
    assert forall|k: int|
        0 <= k <= open_run.len() implies match #[trigger] layout_after(open_run.take(k), rem, bs) {
        Some(r) => MIN_CHUNK_SIZE <= r <= bs,
        None => false,
    } by {
        assert(open_run.take(k) =~= chunks.take(k));
    }
    // the open run's bytes are a prefix of the run's bytes
    let with_last = chunks.take(m);
    assert(with_last.drop_last() =~= open_run);
    assert(with_last.last() == RecordChunk::Normal(c));
    assert(run_bytes(with_last) == run_bytes(open_run) + c.spec_encoding());
    let blen = run_bytes(open_run).len() as int;
    let elen = c.spec_encoding().len() as int;
    assert(run_bytes(chunks).len() >= blen + elen) by {
        if chunks.len() == m {
            assert(chunks.take(m) =~= chunks);
        } else {
            assert(chunks.drop_last() =~= chunks.take(m));
        }
    }
    assert forall|k: int| 0 <= k < blen + elen implies image.subrange(pos, pos + blen + elen)[k]
        == run_bytes(with_last)[k] by {
        assert(image.subrange(pos, pos + run_bytes(chunks).len())[k] == image[pos + k]);
        assert(image.subrange(pos, pos + blen + elen)[k] == image[pos + k]);
        if chunks.len() == m {
            assert(chunks.take(m) =~= chunks);
        } else {
            assert(chunks.drop_last() =~= chunks.take(m));
            assert(run_bytes(chunks) == run_bytes(with_last) + (match chunks.last() {
                RecordChunk::Normal(c2) => c2.spec_encoding(),
                RecordChunk::Slop(n) => Seq::<u8>::new(n as nat, |i: int| 0u8),
            }));
        }
    }
    assert(image.subrange(pos, pos + blen) =~= run_bytes(open_run)) by {
        assert forall|k: int| 0 <= k < blen implies image.subrange(pos, pos + blen)[k]
            == run_bytes(open_run)[k] by {
            assert(image.subrange(pos, pos + blen + elen)[k] == image[pos + k]);
            assert(image.subrange(pos, pos + blen)[k] == image[pos + k]);
        }
    }
    lemma_scan_open_run(image, bs, pos, rem, open_run, acc);
    let pos_m = pos + blen;
    let r_m = layout_after(open_run, rem, bs)->Some_0;
    assert(layout_after(chunks.take(m - 1), rem, bs) == Some(r_m)) by {
        assert(chunks.take(m - 1) =~= open_run);
    }
    assert(MIN_CHUNK_SIZE <= r_m <= bs);
    assert(elen <= r_m) by {
        if chunks.len() == m {
            assert(chunks.take(m) =~= chunks);
        } else {
            assert(chunks.drop_last() =~= chunks.take(m));
        }
        assert(layout_after(with_last, rem, bs) is Some);
        assert(layout_after(with_last, rem, bs) == (match layout_after(open_run, rem, bs) {
            None => None::<int>,
            Some(rem0) => if c.spec_encoding().len() <= rem0 {
                if rem0 - c.spec_encoding().len() == 0 {
                    Some(bs)
                } else {
                    Some(rem0 - c.spec_encoding().len())
                }
            } else {
                None
            },
        }));
    }
    // parse the ending chunk where the open run left the cursor
    assert(image.subrange(pos_m, pos_m + elen) =~= c.spec_encoding()) by {
        assert forall|k: int| 0 <= k < elen implies image.subrange(pos_m, pos_m + elen)[k]
            == c.spec_encoding()[k] by {
            assert(image.subrange(pos, pos + blen + elen)[blen + k] == image[pos_m + k]);
            assert(image.subrange(pos_m, pos_m + elen)[k] == image[pos_m + k]);
        }
    }
    crate::chunk::lemma_parse_chunk_at(image, pos_m, c);
    assert(pos_m < image.len());
    assert(c.ty is Full || c.ty is Last);
    assert(spec_scan(image, bs, pos_m, acc + chunk_payloads(normal_chunks(open_run)))
        == ScanStep::Rec(acc + chunk_payloads(normal_chunks(open_run)) + c.data@, pos_m + elen));
    assert(normal_chunks(with_last) == normal_chunks(open_run).push(c));
    assert(normal_chunks(with_last) =~= ns) by {
        if chunks.len() == m {
            assert(chunks.take(m) =~= chunks);
        } else {
            assert(chunks.drop_last() =~= chunks.take(m));
            assert(normal_chunks(chunks) == normal_chunks(with_last));
        }
    }
    crate::record::lemma_payloads_push(normal_chunks(open_run), c);
    assert(acc + chunk_payloads(normal_chunks(open_run)) + c.data@ =~= acc + payload);
    assert(run_bytes(with_last).len() >= 8) by {
        assert(c.data@.len() > 0);
    }
    // where the run leaves the cursor: past the ending chunk, over the pad
    let e = pos_m + elen;
    let r_l = layout_after(with_last, rem, bs)->Some_0;
    assert(layout_after(with_last, rem, bs) == (match layout_after(open_run, rem, bs) {
        None => None::<int>,
        Some(rem0) => if c.spec_encoding().len() <= rem0 {
            if rem0 - c.spec_encoding().len() == 0 {
                Some(bs)
            } else {
                Some(rem0 - c.spec_encoding().len())
            }
        } else {
            None
        },
    })) by {
        assert(with_last.drop_last() =~= open_run);
    }
    vstd::arithmetic::div_mod::lemma_fundamental_div_mod(pos_m, bs);
    let q = pos_m / bs;
    assert(bs - pos_m % bs == r_m);
    assert(pos_m == bs * q + (bs - r_m));
    assert(e == bs * q + (bs - r_m) + elen);
    if r_m - elen == 0 {
        assert(e == (q + 1) * bs + 0) by (nonlinear_arith)
            requires
                elen == r_m,
                e == bs * q + (bs - r_m) + elen,
        ;
        vstd::arithmetic::div_mod::lemma_fundamental_div_mod_converse(e, bs, q + 1, 0);
    } else {
        assert(e == q * bs + (bs - r_m + elen)) by (nonlinear_arith)
            requires
                e == bs * q + (bs - r_m) + elen,
        ;
        vstd::arithmetic::div_mod::lemma_fundamental_div_mod_converse(e, bs, q, bs - r_m + elen);
    }
    assert(bs - e % bs == r_l);
    if chunks.len() == m {
        assert(chunks.take(m) =~= chunks);
        assert(layout_after(chunks, rem, bs)->Some_0 == r_l);
        assert(e == pos + run_bytes(chunks).len());
    } else {
        // the run ends in padding that fills the block
        assert(chunks.drop_last() =~= with_last);
        let n = chunks.last()->Slop_0;
        assert(layout_after(chunks, rem, bs) == Some(bs as int) && n == r_l && n
            < MIN_CHUNK_SIZE) by {
            assert(layout_after(chunks, rem, bs) == (match layout_after(with_last, rem, bs) {
                None => None::<int>,
                Some(rem0) => match chunks.last() {
                    RecordChunk::Normal(c2) => if c2.spec_encoding().len() <= rem0 {
                        if rem0 - c2.spec_encoding().len() == 0 {
                            Some(bs)
                        } else {
                            Some(rem0 - c2.spec_encoding().len())
                        }
                    } else {
                        None
                    },
                    RecordChunk::Slop(n2) => if n2 == rem0 && n2 < MIN_CHUNK_SIZE {
                        Some(bs)
                    } else {
                        None
                    },
                },
            }));
        }
        assert(run_bytes(chunks) == run_bytes(with_last) + Seq::<u8>::new(
            n as nat,
            |i: int| 0u8,
        ));
        assert(pos + run_bytes(chunks).len() == e + n);
        // the scan resumed at the pad hops to the block boundary
        assert forall|acc2: Seq<u8>| #[trigger] spec_scan(image, bs, e, acc2) == spec_scan(
            image,
            bs,
            e + n,
            acc2,
        ) by {
            assert(bs - e % bs == n);
            assert(e + n <= image.len());
            assert(e < image.len());
        }
        vstd::arithmetic::div_mod::lemma_fundamental_div_mod(e, bs);
        let q2 = e / bs;
        assert(e == bs * q2 + (bs - n));
        assert(e + n == (q2 + 1) * bs + 0) by (nonlinear_arith)
            requires
                e == bs * q2 + (bs - n),
        ;
        vstd::arithmetic::div_mod::lemma_fundamental_div_mod_converse(e + n, bs, q2 + 1, 0);
        assert(bs - (e + n) % bs == bs);
    }
}

/// The runs of successive records: each framed in the block state the one
/// before left, every hand-over state fit to open a record.
pub open spec fn good_runs(runs: Seq<Seq<RecordChunk>>, rem: int, bs: int) -> bool
    decreases runs.len(),
{
    if runs.len() == 0 {
        true
    } else {
        &&& good_run(runs[0], rem, bs)
        &&& MIN_CHUNK_SIZE <= layout_after(runs[0], rem, bs)->Some_0 <= bs
        &&& good_runs(runs.drop_first(), layout_after(runs[0], rem, bs)->Some_0, bs)
    }
}

/// The wire bytes of successive runs, in order.
pub open spec fn runs_bytes(runs: Seq<Seq<RecordChunk>>) -> Seq<u8>
    decreases runs.len(),
{
    if runs.len() == 0 {
        Seq::empty()
    } else {
        run_bytes(runs[0]) + runs_bytes(runs.drop_first())
    }
}

/// The record serializations the runs carry, in order.
pub open spec fn runs_payloads(runs: Seq<Seq<RecordChunk>>) -> Seq<Seq<u8>> {
    Seq::new(runs.len(), |i: int| chunk_payloads(normal_chunks(runs[i])))
}

/// What up to `fuel` pulls of the replayer yield from `pos` on: the record
/// payloads until the image ends or a checksum fails.
pub open spec fn scan_records(image: Seq<u8>, bs: int, pos: int, fuel: nat) -> Seq<Seq<u8>>
    decreases fuel,
{
    if fuel == 0 {
        Seq::empty()
    } else {
        match spec_scan(image, bs, pos, Seq::empty()) {
            ScanStep::End => Seq::empty(),
            ScanStep::Crc => Seq::empty(),
            ScanStep::Rec(d, p) => seq![d] + scan_records(image, bs, p, (fuel - 1) as nat),
        }
    }
}

/// Two starting points the scanner cannot tell apart yield the same records.
proof fn lemma_scan_records_congruent(image: Seq<u8>, bs: int, p1: int, p2: int, fuel: nat)
    requires
        forall|acc: Seq<u8>| #[trigger] spec_scan(image, bs, p1, acc) == spec_scan(
            image,
            bs,
            p2,
            acc,
        ),
    ensures
        scan_records(image, bs, p1, fuel) == scan_records(image, bs, p2, fuel),
{
    if fuel > 0 {
        assert(spec_scan(image, bs, p1, Seq::empty()) == spec_scan(image, bs, p2, Seq::empty()));
    }
}

/// Write-ahead-log replay. An image holding the runs of records framed one
/// after the other — as the log writer frames them — replays to exactly
/// those records' serializations, in order, and then ends.
pub proof fn lemma_replay_log(
    image: Seq<u8>,
    bs: int,
    pos: int,
    rem: int,
    runs: Seq<Seq<RecordChunk>>,
    fuel: nat,
)
    requires
        MIN_CHUNK_SIZE < bs,
        MIN_CHUNK_SIZE <= rem <= bs,
        0 <= pos,
        bs - pos % bs == rem,
        image.len() == pos + runs_bytes(runs).len(),
        image.subrange(pos, image.len() as int) == runs_bytes(runs),
        good_runs(runs, rem, bs),
        fuel >= runs.len(),
    ensures
        scan_records(image, bs, pos, fuel) == runs_payloads(runs),
    decreases runs.len(),
{
    if runs.len() == 0 {
        assert(pos >= image.len());
        assert(spec_scan(image, bs, pos, Seq::empty()) == ScanStep::End);
        assert(runs_payloads(runs) =~= Seq::<Seq<u8>>::empty());
    } else {
        let r0 = runs[0];
        let rest = runs.drop_first();
        let l0 = run_bytes(r0).len() as int;
        let payload0 = chunk_payloads(normal_chunks(r0));
        assert(runs_bytes(runs) == run_bytes(r0) + runs_bytes(rest));
        assert(image.subrange(pos, pos + l0) =~= run_bytes(r0)) by {
            assert forall|k: int| 0 <= k < l0 implies #[trigger] image.subrange(pos, pos + l0)[k]
                == run_bytes(r0)[k] by {
                assert(image.subrange(pos, image.len() as int)[k] == image[pos + k]);
                assert(image.subrange(pos, pos + l0)[k] == image[pos + k]);
            }
        }
        lemma_replay_record(image, bs, pos, rem, r0, payload0, Seq::empty());
        let m = normal_chunks(r0).len() as int;
        let e = pos + run_bytes(r0.take(m)).len();
        assert(Seq::<u8>::empty() + payload0 =~= payload0);
        let rem2 = layout_after(r0, rem, bs)->Some_0;
        // the rest of the image carries the remaining runs
        assert(image.subrange(pos + l0, image.len() as int) =~= runs_bytes(rest)) by {
            assert forall|k: int|
                0 <= k < runs_bytes(rest).len() implies #[trigger] image.subrange(
                pos + l0,
                image.len() as int,
            )[k] == runs_bytes(rest)[k] by {
                assert(image.subrange(pos, image.len() as int)[l0 + k] == image[pos + l0 + k]);
                assert(image.subrange(pos + l0, image.len() as int)[k] == image[pos + l0 + k]);
            }
        }
        lemma_replay_log(image, bs, pos + l0, rem2, rest, (fuel - 1) as nat);
        // the scan after this record equals the scan at the next run
        lemma_scan_records_congruent(image, bs, e, pos + l0, (fuel - 1) as nat);
        assert(scan_records(image, bs, pos, fuel) == seq![payload0] + scan_records(
            image,
            bs,
            e,
            (fuel - 1) as nat,
        ));
        assert(runs_payloads(runs) =~= seq![payload0] + runs_payloads(rest)) by {
            assert forall|i: int| 0 <= i < runs.len() implies #[trigger] runs_payloads(runs)[i]
                == (seq![payload0] + runs_payloads(rest))[i] by {
                if i > 0 {
                    assert(rest[i - 1] == runs[i]);
                }
            }
        }
    }
}

} // verus!
