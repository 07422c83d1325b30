//! Value tags: the 8-byte encoding that packs a 63-bit sequence number with
//! the value-type bit (value or tombstone). Tags are stored big-endian so the
//! byte order is fixed across machines.

use crate::error::Error;
use vstd::prelude::*;

verus! {

pub type SequenceNumber = u64;

pub type WrappedValueTag = [u8; 8];

/// The high bit of the packed tag word carries the value type.
pub const TYPE_BIT: u64 = 1u64 << 63;

#[derive(Debug, Copy, Clone, Eq, PartialEq, Structural)]
pub enum ValueType {
    Value,
    TombStone,
}

#[derive(Debug, Copy, Clone, Eq, PartialEq, Structural)]
pub struct ValueTag {
    pub sequence_number: SequenceNumber,
    pub ty: ValueType,
}

/// The big-endian bytes of `x`.
pub open spec fn u64_be_bytes(x: u64) -> Seq<u8> {
    seq![
        (x >> 56) as u8,
        (x >> 48) as u8,
        (x >> 40) as u8,
        (x >> 32) as u8,
        (x >> 24) as u8,
        (x >> 16) as u8,
        (x >> 8) as u8,
        x as u8,
    ]
}

/// The `u64` read big-endian from the first eight bytes of `s`.
pub open spec fn u64_from_be_bytes(s: Seq<u8>) -> u64
    recommends
        s.len() >= 8,
{
    ((s[0] as u64) << 56) | ((s[1] as u64) << 48) | ((s[2] as u64) << 40) | ((s[3] as u64) << 32)
        | ((s[4] as u64) << 24) | ((s[5] as u64) << 16) | ((s[6] as u64) << 8) | (s[7] as u64)
}

pub proof fn lemma_u64_be_round_trip(x: u64)
    ensures
        u64_from_be_bytes(u64_be_bytes(x)) == x,
{
    let s = u64_be_bytes(x);
    assert((((x >> 56) as u8) as u64) << 56 | (((x >> 48) as u8) as u64) << 48 | (((x
        >> 40) as u8) as u64) << 40 | (((x >> 32) as u8) as u64) << 32 | (((x >> 24) as u8) as u64)
        << 24 | (((x >> 16) as u8) as u64) << 16 | (((x >> 8) as u8) as u64) << 8 | ((x as u8)
        as u64) == x) by (bit_vector);
}

impl ValueTag {
    /// The packed word: sequence in the low 63 bits, type in the high bit.
    pub open spec fn spec_packed(self) -> u64 {
        match self.ty {
            ValueType::Value => self.sequence_number & !TYPE_BIT,
            ValueType::TombStone => self.sequence_number | TYPE_BIT,
        }
    }

    /// The eight tag bytes.
    pub open spec fn spec_wrapped(self) -> Seq<u8> {
        u64_be_bytes(self.spec_packed())
    }

    /// The tag read back from a packed word.
    pub open spec fn spec_unpack(num: u64) -> ValueTag {
        ValueTag {
            sequence_number: num & !TYPE_BIT,
            ty: if num & TYPE_BIT == 0 {
                ValueType::Value
            } else {
                ValueType::TombStone
            },
        }
    }

    /// The tag read back from eight bytes.
    pub open spec fn spec_from_wrapped(s: Seq<u8>) -> ValueTag
        recommends
            s.len() >= 8,
    {
        Self::spec_unpack(u64_from_be_bytes(s))
    }

    /// A tag is well formed when its sequence number leaves the type bit free.
    pub open spec fn wf(self) -> bool {
        self.sequence_number < TYPE_BIT
    }

    /// Mint a tag; sequence numbers are 63-bit, anything larger is refused.
    pub fn new(sequence_number: SequenceNumber, ty: ValueType) -> (r: Result<ValueTag, Error>)
        ensures
            sequence_number < TYPE_BIT ==> r == Ok::<ValueTag, Error>(
                ValueTag { sequence_number, ty },
            ),
            sequence_number >= TYPE_BIT ==> r == Err::<ValueTag, Error>(
                Error::SequenceNumberOverflow,
            ),
            r is Ok ==> r.unwrap().wf(),
    {
        if sequence_number < TYPE_BIT {
            Ok(ValueTag { sequence_number, ty })
        } else {
            Err(Error::SequenceNumberOverflow)
        }
    }

    pub fn is_value(&self) -> (r: bool)
        ensures
            r == (self.ty is Value),
    {
        self.ty == ValueType::Value
    }

    pub fn is_tombstone(&self) -> (r: bool)
        ensures
            r == (self.ty is TombStone),
    {
        self.ty == ValueType::TombStone
    }

    /// Pack the tag into its eight-byte form.
    pub fn wrap(&self) -> (r: WrappedValueTag)
        ensures
            r@ == self.spec_wrapped(),
    {
        let num: u64 = match self.ty {
            ValueType::Value => self.sequence_number & !TYPE_BIT,
            ValueType::TombStone => self.sequence_number | TYPE_BIT,
        };
        let r: [u8; 8] = [
            (num >> 56) as u8,
            (num >> 48) as u8,
            (num >> 32 >> 8) as u8,
            (num >> 32) as u8,
            (num >> 24) as u8,
            (num >> 16) as u8,
            (num >> 8) as u8,
            num as u8,
        ];
        proof {
            assert(num >> 32 >> 8 == num >> 40) by (bit_vector);
            assert(r@ =~= u64_be_bytes(num));
        }
        r
    }

    /// Read a tag back from its eight-byte form.
    pub fn from_wrapped(wrapped: &WrappedValueTag) -> (r: ValueTag)
        ensures
            r == Self::spec_from_wrapped(wrapped@),
            r.wf(),
    {
        let num: u64 = ((wrapped[0] as u64) << 56) | ((wrapped[1] as u64) << 48) | ((wrapped[2]
            as u64) << 40) | ((wrapped[3] as u64) << 32) | ((wrapped[4] as u64) << 24) | ((wrapped[5]
            as u64) << 16) | ((wrapped[6] as u64) << 8) | (wrapped[7] as u64);
        let sequence_number = num & !TYPE_BIT;
        let ty = if num & TYPE_BIT == 0 {
            ValueType::Value
        } else {
            ValueType::TombStone
        };
        proof {
            assert(num & !(1u64 << 63) < (1u64 << 63)) by (bit_vector);
            assert(TYPE_BIT == 1u64 << 63);
        }
        ValueTag { sequence_number, ty }
    }
}

/// Wrapping and unwrapping a tag is the identity on well-formed tags: every
/// sequence number below 2^63 survives the round trip with its type.
pub proof fn lemma_tag_round_trip(tag: ValueTag)
    requires
        tag.wf(),
    ensures
        ValueTag::spec_from_wrapped(tag.spec_wrapped()) == tag,
{
    lemma_u64_be_round_trip(tag.spec_packed());
    let s = tag.sequence_number;
    assert(s < (1u64 << 63) ==> ((s & !(1u64 << 63)) & !(1u64 << 63) == s && (s & !(1u64 << 63)) & (
    1u64 << 63) == 0)) by (bit_vector);
    assert(s < (1u64 << 63) ==> ((s | (1u64 << 63)) & !(1u64 << 63) == s && (s | (1u64 << 63)) & (
    1u64 << 63) != 0)) by (bit_vector);
    assert(TYPE_BIT == 1u64 << 63);
}

} // verus!
