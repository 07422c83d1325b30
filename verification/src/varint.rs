//! Variable-length integer coding: little-endian base-128 with the high bit of
//! each byte marking continuation (LEB128). Record framing stores key and
//! value lengths in this form.

use vstd::prelude::*;

verus! {

/// The canonical LEB128 byte string for `n`: low seven bits first, the high
/// bit set on every byte but the last.
pub open spec fn varint_bytes(n: nat) -> Seq<u8>
    decreases n,
{
    if n < 128 {
        seq![n as u8]
    } else {
        seq![((n % 128) + 128) as u8] + varint_bytes(n / 128)
    }
}

/// What decoding from position `i` of `s` yields: the value and the position
/// just past its last byte, or `None` when the bytes at `i` do not finish a
/// varint before `s` ends.
pub open spec fn spec_decode_varint(s: Seq<u8>, i: int) -> Option<(nat, int)>
    decreases s.len() - i,
{
    if i < 0 || i >= s.len() {
        None
    } else if s[i] < 128 {
        Some((s[i] as nat, i + 1))
    } else {
        match spec_decode_varint(s, i + 1) {
            None => None,
            Some((m, j)) => Some((((s[i] - 128) + 128 * m) as nat, j)),
        }
    }
}

/// Encode `num` as a LEB128 byte string.
pub fn encode_usize(num: usize) -> (r: Vec<u8>)
    ensures
        r@ == varint_bytes(num as nat),
        r@.len() >= 1,
{
    let mut out: Vec<u8> = Vec::new();
    let mut n: usize = num;
    loop
        invariant
            varint_bytes(num as nat) == out@ + varint_bytes(n as nat),
            out@.len() + varint_bytes(n as nat).len() == varint_bytes(num as nat).len(),
        decreases n,
    {
        if n < 128 {
            out.push(n as u8);
            assert(varint_bytes(n as nat) == seq![n as u8]);
            assert(out@ == varint_bytes(num as nat));
            return out;
        } else {
            out.push(((n % 128) + 128) as u8);
            proof {
                assert(varint_bytes(n as nat) == seq![((n % 128) + 128) as u8] + varint_bytes(
                    (n / 128) as nat,
                ));
                assert(out@ + varint_bytes((n / 128) as nat) == varint_bytes(num as nat));
            }
            n = n / 128;
        }
    }
}

/// Decode a LEB128 value starting at `offset`. Returns the value and the
/// position just past it, or `None` when the bytes are truncated or the value
/// does not fit in `usize`.
pub fn decode_usize(bytes: &[u8], offset: usize) -> (r: Option<(usize, usize)>)
    ensures
        match spec_decode_varint(bytes@, offset as int) {
            None => r is None,
            Some((n, j)) => j <= bytes@.len() && if n <= usize::MAX {
                r == Some((n as usize, j as usize))
            } else {
                r is None
            },
        },
    decreases bytes.len() - offset,
{
    if offset >= bytes.len() {
        None
    } else {
        let b = bytes[offset];
        if b < 128 {
            Some((b as usize, offset + 1))
        } else {
            match decode_usize(bytes, offset + 1) {
                None => {
                    proof {
                        if let Some((m, j)) = spec_decode_varint(bytes@, offset as int + 1) {
                            assert(m > usize::MAX);
                            assert((b - 128) + 128 * m > usize::MAX);
                        }
                    }
                    None
                },
                Some((m, j)) => {
                    let low = (b - 128) as usize;
                    if m <= (usize::MAX - low) / 128 {
                        Some((low + 128 * m, j))
                    } else {
                        proof {
                            let (ms, js) = spec_decode_varint(bytes@, offset as int + 1).unwrap();
                            assert(low + 128 * ms > usize::MAX) by (nonlinear_arith)
                                requires
                                    ms > (usize::MAX - low) / 128,
                                    low < 128,
                                    low + 128 * ((usize::MAX - low) / 128) <= usize::MAX,
                            ;
                        }
                        None
                    }
                },
            }
        }
    }
}

/// Decoding reads back exactly the value encoded, independent of what follows
/// the varint in the byte stream.
pub proof fn lemma_varint_round_trip(n: nat, rest: Seq<u8>)
    ensures
        spec_decode_varint(varint_bytes(n) + rest, 0) == Some(
            (n, varint_bytes(n).len() as int),
        ),
    decreases n,
{
    let s = varint_bytes(n) + rest;
    if n < 128 {
        assert(s[0] == n as u8);
    } else {
        lemma_varint_round_trip(n / 128, rest);
        assert(varint_bytes(n / 128) + rest == s.skip(1)) by {
            assert(varint_bytes(n) == seq![((n % 128) + 128) as u8] + varint_bytes(n / 128));
            assert((varint_bytes(n / 128) + rest) =~= s.skip(1));
        }
        lemma_decode_shift(s, 1, n / 128, varint_bytes(n / 128).len() as int + 1);
        assert(s[0] == ((n % 128) + 128) as u8);
        assert((s[0] - 128) + 128 * (n / 128) == n as int);
    }
}

/// A successful decode lands strictly past where it started, within `s`.
pub proof fn lemma_spec_decode_bounds(s: Seq<u8>, i: int)
    ensures
        match spec_decode_varint(s, i) {
            None => true,
            Some((n, j)) => i + 1 <= j <= s.len(),
        },
    decreases s.len() - i,
{
    if 0 <= i < s.len() && s[i] >= 128 {
        lemma_spec_decode_bounds(s, i + 1);
    }
}

/// Decoding at a position where the varint form of `n` begins yields `n`.
pub proof fn lemma_varint_decode_at(s: Seq<u8>, i: int, n: nat, rest: Seq<u8>)
    requires
        0 <= i <= s.len(),
        s.skip(i) == varint_bytes(n) + rest,
    ensures
        spec_decode_varint(s, i) == Some((n, i + varint_bytes(n).len())),
{
    lemma_varint_round_trip(n, rest);
    lemma_decode_skip_zero(s, i);
}

/// Decoding at `i` of `s` sees exactly the suffix of `s` from `i`.
proof fn lemma_decode_shift(s: Seq<u8>, i: int, m: nat, j: int)
    requires
        0 <= i <= s.len(),
        spec_decode_varint(s.skip(i), 0) == Some((m, j - i)),
    ensures
        spec_decode_varint(s, i) == Some((m, j)),
    decreases s.len() - i,
{
    let t = s.skip(i);
    assert(t.len() == s.len() - i);
    if t.len() > 0 {
        assert(t[0] == s[i]);
        if s[i] < 128 {
        } else {
            let (m2, j2) = spec_decode_varint(t, 1).unwrap();
            assert(t.skip(1) =~= s.skip(i + 1));
            assert(spec_decode_varint(s.skip(i + 1), 0) == spec_decode_varint(t.skip(1), 0));
            lemma_decode_skip_zero(t, 1);
            lemma_decode_skip_zero(s, i + 1);
            lemma_decode_shift(s, i + 1, m2, j2 + i);
        }
    }
}

/// Decoding from position `i` equals decoding the suffix from its start.
proof fn lemma_decode_skip_zero(s: Seq<u8>, i: int)
    requires
        0 <= i <= s.len(),
    ensures
        spec_decode_varint(s, i) == match spec_decode_varint(s.skip(i), 0) {
            None => None::<(nat, int)>,
            Some((m, j)) => Some((m, j + i)),
        },
    decreases s.len() - i,
{
    let t = s.skip(i);
    if i < s.len() {
        assert(t[0] == s[i]);
        if s[i] >= 128 {
            lemma_decode_skip_zero(s, i + 1);
            assert(t.skip(1) =~= s.skip(i + 1));
            let sub = spec_decode_varint(s.skip(i + 1), 0);
            if sub is Some {
                let (m, j) = sub.unwrap();
                assert(spec_decode_varint(t, 1) == Some((m, j + 1))) by {
                    lemma_decode_skip_zero(t, 1);
                }
            } else {
                assert(spec_decode_varint(t, 1) is None) by {
                    lemma_decode_skip_zero(t, 1);
                }
            }
        }
    }
}

} // verus!
