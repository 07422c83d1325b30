//! Internal keys: the skip list's key encoding, `wrapped_tag (8 bytes) ||
//! user_key`. The comparator orders internal keys by user key first, ties
//! broken by sequence number ascending — the type bit never participates —
//! which is what makes predecessor search read a snapshot.

use crate::comparator::{Cmp, Comparator};
use crate::format::{u64_from_be_bytes, ValueTag, TYPE_BIT};
use core::marker::PhantomData;
use vstd::prelude::*;

verus! {

/// The user key carried inside an internal key's bytes.
pub open spec fn user_key_of(a: Seq<u8>) -> Seq<u8> {
    if a.len() >= 8 {
        a.skip(8)
    } else {
        Seq::empty()
    }
}

/// The sequence number carried inside an internal key's bytes.
pub open spec fn sequence_of(a: Seq<u8>) -> u64 {
    if a.len() >= 8 {
        u64_from_be_bytes(a) & !TYPE_BIT
    } else {
        0
    }
}

/// The tag carried inside an internal key's bytes.
pub open spec fn tag_of(a: Seq<u8>) -> ValueTag {
    ValueTag::spec_unpack(u64_from_be_bytes(a))
}

/// A decoded `(tag, user_key)` pair with its wire form.
pub struct InternalKey {
    pub value_tag: ValueTag,
    pub key: Vec<u8>,
}

impl InternalKey {
    /// The wire form: the eight tag bytes, then the user key.
    pub open spec fn spec_bytes(self) -> Seq<u8> {
        self.value_tag.spec_wrapped() + self.key@
    }

    pub fn new(key: Vec<u8>, value_tag: ValueTag) -> (r: InternalKey)
        ensures
            r.key == key,
            r.value_tag == value_tag,
    {
        InternalKey { key, value_tag }
    }

    /// Serialize: tag bytes then user key.
    pub fn as_bytes(&self) -> (r: Vec<u8>)
        ensures
            r@ == self.spec_bytes(),
    {
        let wrapped = self.value_tag.wrap();
        let mut out: Vec<u8> = Vec::new();
        crate::endian::append_bytes(&mut out, wrapped.as_slice());
        crate::endian::append_bytes(&mut out, self.key.as_slice());
        proof {
            assert(out@ =~= self.spec_bytes());
        }
        out
    }

    /// Split encoded bytes into the tag and the user key.
    pub fn split(slice: &[u8]) -> (r: (ValueTag, Vec<u8>))
        requires
            slice@.len() >= 8,
        ensures
            r.0 == ValueTag::spec_from_wrapped(slice@.take(8)),
            r.1@ == user_key_of(slice@),
            r.0.sequence_number == sequence_of(slice@),
    {
        let mut wrapped: [u8; 8] = [0; 8];
        let mut i: usize = 0;
        while i < 8
            invariant
                i <= 8,
                slice@.len() >= 8,
                forall|j: int| 0 <= j < i ==> wrapped@[j] == slice@[j],
            decreases 8 - i,
        {
            wrapped[i] = slice[i];
            i = i + 1;
        }
        let tag = ValueTag::from_wrapped(&wrapped);
        let key = vstd::slice::slice_to_vec(
            vstd::slice::slice_subrange(slice, 8, slice.len()),
        );
        proof {
            assert(wrapped@ =~= slice@.take(8));
            assert(key@ =~= user_key_of(slice@));
            lemma_sequence_of_prefix(slice@);
        }
        (tag, key)
    }

    pub fn split_key(slice: &[u8]) -> (r: Vec<u8>)
        requires
            slice@.len() >= 8,
        ensures
            r@ == user_key_of(slice@),
    {
        Self::split(slice).1
    }

    pub fn split_value_tag(slice: &[u8]) -> (r: ValueTag)
        requires
            slice@.len() >= 8,
        ensures
            r == ValueTag::spec_from_wrapped(slice@.take(8)),
            r.sequence_number == sequence_of(slice@),
    {
        Self::split(slice).0
    }
}

/// Reading the packed word from the first eight bytes sees only them.
proof fn lemma_sequence_of_prefix(a: Seq<u8>)
    requires
        a.len() >= 8,
    ensures
        u64_from_be_bytes(a.take(8)) == u64_from_be_bytes(a),
        ValueTag::spec_from_wrapped(a.take(8)).sequence_number == sequence_of(a),
{
    let t = a.take(8);
    assert(t[0] == a[0] && t[1] == a[1] && t[2] == a[2] && t[3] == a[3] && t[4] == a[4] && t[5]
        == a[5] && t[6] == a[6] && t[7] == a[7]);
}

/// Orders internal keys: user key under `C` first, then sequence number.
pub struct InternalKeyComparator<C: Comparator> {
    pub marker: PhantomData<C>,
}

impl<C: Comparator> Comparator for InternalKeyComparator<C> {
    open spec fn cmp_spec(a: Seq<u8>, b: Seq<u8>) -> Cmp {
        match C::cmp_spec(user_key_of(a), user_key_of(b)) {
            Cmp::Equal => if sequence_of(a) < sequence_of(b) {
                Cmp::Less
            } else if sequence_of(a) > sequence_of(b) {
                Cmp::Greater
            } else {
                Cmp::Equal
            },
            Cmp::Less => Cmp::Less,
            Cmp::Greater => Cmp::Greater,
        }
    }

    proof fn lemma_reflexive(a: Seq<u8>) {
        C::lemma_reflexive(user_key_of(a));
    }

    proof fn lemma_flip(a: Seq<u8>, b: Seq<u8>) {
        C::lemma_flip(user_key_of(a), user_key_of(b));
        C::lemma_flip(user_key_of(b), user_key_of(a));
    }

    proof fn lemma_transitive(a: Seq<u8>, b: Seq<u8>, c: Seq<u8>) {
        let ua = user_key_of(a);
        let ub = user_key_of(b);
        let uc = user_key_of(c);
        if C::cmp_spec(ua, ub) == Cmp::Equal {
            C::lemma_equal_congruent(ua, ub, uc);
        } else if C::cmp_spec(ub, uc) == Cmp::Equal {
            C::lemma_equal_congruent(ub, uc, ua);
            C::lemma_flip(ua, ub);
            C::lemma_flip(ua, uc);
        } else {
            C::lemma_transitive(ua, ub, uc);
        }
    }

    proof fn lemma_equal_congruent(a: Seq<u8>, b: Seq<u8>, c: Seq<u8>) {
        C::lemma_equal_congruent(user_key_of(a), user_key_of(b), user_key_of(c));
    }

    fn compare(a: &[u8], b: &[u8]) -> (r: Cmp) {
        let ua = if a.len() >= 8 {
            vstd::slice::slice_subrange(a, 8, a.len())
        } else {
            vstd::slice::slice_subrange(a, 0, 0)
        };
        let ub = if b.len() >= 8 {
            vstd::slice::slice_subrange(b, 8, b.len())
        } else {
            vstd::slice::slice_subrange(b, 0, 0)
        };
        proof {
            assert(ua@ =~= user_key_of(a@));
            assert(ub@ =~= user_key_of(b@));
        }
        match C::compare(ua, ub) {
            Cmp::Equal => {
                let sa = if a.len() >= 8 {
                    crate::endian::get_u64_be(a, 0) & !TYPE_BIT
                } else {
                    0
                };
                let sb = if b.len() >= 8 {
                    crate::endian::get_u64_be(b, 0) & !TYPE_BIT
                } else {
                    0
                };
                proof {
                    if a.len() >= 8 {
                        assert(a@.subrange(0, 8) =~= a@.take(8));
                        lemma_sequence_of_prefix(a@);
                    }
                    if b.len() >= 8 {
                        assert(b@.subrange(0, 8) =~= b@.take(8));
                        lemma_sequence_of_prefix(b@);
                    }
                }
                if sa < sb {
                    Cmp::Less
                } else if sa > sb {
                    Cmp::Greater
                } else {
                    Cmp::Equal
                }
            },
            Cmp::Less => Cmp::Less,
            Cmp::Greater => Cmp::Greater,
        }
    }
}

} // verus!
