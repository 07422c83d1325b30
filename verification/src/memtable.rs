//! The memtable: an ordered map of internal keys over the skip list. The
//! mutable form absorbs writes and remembers which log file records them;
//! freezing turns it into a read-only table awaiting flush.

use crate::comparator::{Cmp, Comparator};
use crate::error::Error;
use crate::format::{ValueTag, ValueType, TYPE_BIT};
use crate::internal_key::{sequence_of, user_key_of, InternalKey, InternalKeyComparator};
use crate::iter::SkipListIterator;
use crate::level_generator::LevelGenerator;
use crate::node::NIL;
use crate::skip_list::{eqv, lt, SkipList};
use vstd::prelude::*;

verus! {

/// Entry `j` holds a record of user key `k` readable at snapshot `s`.
pub open spec fn matches_at<C: Comparator>(
    es: Seq<(Seq<u8>, Seq<u8>)>,
    j: int,
    k: Seq<u8>,
    s: u64,
) -> bool {
    eqv::<C>(user_key_of(es[j].0), k) && sequence_of(es[j].0) <= s
}

pub struct MemTableMut<C: Comparator, L: LevelGenerator> {
    pub log_number: u64,
    pub skip_list: SkipList<InternalKeyComparator<C>, L>,
}

impl<C: Comparator, L: LevelGenerator> MemTableMut<C, L> {
    /// The table's contents: internal-key/value pairs in internal-key order.
    pub open spec fn entries(&self) -> Seq<(Seq<u8>, Seq<u8>)> {
        self.skip_list.entries()
    }

    /// Every stored key carries a full eight-byte tag prefix.
    pub open spec fn wf(&self) -> bool {
        &&& self.skip_list.wf()
        &&& forall|j: int|
            0 <= j < self.entries().len() ==> (#[trigger] self.entries()[j]).0.len() >= 8
    }

    pub fn new(log_number: u64, level_generator: L) -> (r: MemTableMut<C, L>)
        requires
            level_generator.spec_max_level() < usize::MAX,
        ensures
            r.wf(),
            r.log_number == log_number,
            r.entries().len() == 0,
    {
        MemTableMut { log_number, skip_list: SkipList::new(level_generator) }
    }

    /// The log file recording this table's writes.
    pub fn log_number(&self) -> (r: u64)
        ensures
            r == self.log_number,
    {
        self.log_number
    }

    /// Record `(key, value)`: the encoded internal key enters the skip list.
    /// An exact duplicate — same user key, same sequence — is a no-op.
    pub fn add(&mut self, key: InternalKey, value: Vec<u8>)
        requires
            old(self).wf(),
            old(self).entries().len() + 2 < NIL,
        ensures
            final(self).wf(),
            final(self).log_number == old(self).log_number,
            final(self).entries() == old(self).skip_list.spec_insert(
                key.spec_bytes(),
                value@,
            ),
    {
        let encoded = key.as_bytes();
        let ghost pre = self.skip_list;
        self.skip_list.insert(encoded, value);
        proof {
            let oe = pre.entries();
            let ne = self.entries();
            if !pre.has_key(key.spec_bytes()) {
                let p = SkipList::<InternalKeyComparator<C>, L>::count_lt(oe, key.spec_bytes());
                SkipList::<InternalKeyComparator<C>, L>::lemma_count_lt_bounds(
                    oe,
                    key.spec_bytes(),
                );
                assert forall|j: int| 0 <= j < ne.len() implies (#[trigger] ne[j]).0.len()
                    >= 8 by {
                    if j < p {
                        assert(ne[j] == oe[j]);
                    } else if j == p {
                        assert(ne[j].0 == key.spec_bytes());
                    } else {
                        assert(ne[j] == oe[j - 1]);
                    }
                }
            }
        }
    }

    /// Exact lookup by encoded internal key.
    pub fn seek_by_internal_key(&self, key: &InternalKey) -> (r: Option<Vec<u8>>)
        requires
            self.wf(),
        ensures
            match self.skip_list.spec_seek(key.spec_bytes()) {
                Some(v) => r is Some && r.unwrap()@ == v,
                None => r is None,
            },
    {
        let encoded = key.as_bytes();
        let mut visitor = self.skip_list.visitor();
        visitor.seek(encoded.as_slice());
        match visitor.value() {
            Some(v) => Some(vstd::slice::slice_to_vec(v.as_slice())),
            None => None,
        }
    }

    /// Snapshot read: among the records of `key` whose sequence is at most
    /// `sequence`, the one with the greatest sequence — tombstones included,
    /// so the caller can tell a deletion from absence. `None` when no such
    /// record exists; sequences with the type bit set are refused.
    pub fn seek_by_key_and_sequence(&self, key: &[u8], sequence: u64) -> (r: Result<
        Option<(ValueTag, Vec<u8>)>,
        Error,
    >)
        requires
            self.wf(),
        ensures
            sequence >= TYPE_BIT ==> r == Err::<Option<(ValueTag, Vec<u8>)>, Error>(
                Error::SequenceNumberOverflow,
            ),
            sequence < TYPE_BIT ==> match r {
                Err(_) => false,
                Ok(opt) => {
                    let es = self.entries();
                    match opt {
                        None => forall|j: int|
                            0 <= j < es.len() ==> !matches_at::<C>(es, j, key@, sequence),
                        Some((tag, v)) => exists|j: int|
                            {
                                &&& 0 <= j < es.len()
                                &&& #[trigger] matches_at::<C>(es, j, key@, sequence)
                                &&& v@ == es[j].1
                                &&& tag == ValueTag::spec_from_wrapped(es[j].0.take(8))
                                &&& tag.sequence_number == sequence_of(es[j].0)
                                &&& forall|j2: int|
                                    0 <= j2 < es.len() && #[trigger] matches_at::<C>(
                                        es,
                                        j2,
                                        key@,
                                        sequence,
                                    ) ==> sequence_of(es[j2].0) <= sequence_of(es[j].0)
                            },
                    }
                },
            },
    {
        let tag = match ValueTag::new(sequence, ValueType::Value) {
            Err(e) => {
                return Err(e);
            },
            Ok(t) => t,
        };
        let search_key = InternalKey::new(vstd::slice::slice_to_vec(key), tag);
        let pb = search_key.as_bytes();
        proof {
            lemma_probe_fields(tag, key@, pb@);
            SkipList::<InternalKeyComparator<C>, L>::lemma_count_lt_split(self.entries(), pb@);
            SkipList::<InternalKeyComparator<C>, L>::lemma_count_lt_bounds(self.entries(), pb@);
        }
        let ghost es = self.entries();
        let ghost cnt = SkipList::<InternalKeyComparator<C>, L>::count_lt(es, pb@);
        let mut visitor = self.skip_list.visitor();
        visitor.seek_less_or_equal(pb.as_slice());
        let ghost jstar: int = if self.skip_list.has_key(pb@) {
            cnt
        } else {
            cnt - 1
        };
        let found_key: Vec<u8> = match visitor.key() {
            None => {
                proof {
                    assert forall|j: int| 0 <= j < es.len() implies !matches_at::<C>(
                        es,
                        j,
                        key@,
                        sequence,
                    ) by {
                        if matches_at::<C>(es, j, key@, sequence) {
                            lemma_match_below::<C, L>(es, j, key@, sequence, pb@);
                        }
                    }
                }
                return Ok(None);
            },
            Some(k) => vstd::slice::slice_to_vec(k.as_slice()),
        };
        proof {
            if self.skip_list.has_key(pb@) {
                self.skip_list.lemma_has_key_at_count(pb@);
            }
            assert(0 <= jstar < es.len());
            assert(found_key@ == es[jstar].0);
            assert(es[jstar].0.len() >= 8);
        }
        let (entry_tag, user) = InternalKey::split(found_key.as_slice());
        match C::compare(key, user.as_slice()) {
            Cmp::Equal => {
                proof {
                    C::lemma_flip(key@, user@);
                    C::lemma_flip(user@, key@);
                    assert(eqv::<C>(user_key_of(es[jstar].0), key@));
                    if self.skip_list.has_key(pb@) {
                        assert(eqv::<InternalKeyComparator<C>>(es[jstar].0, pb@));
                        assert(sequence_of(es[jstar].0) == sequence);
                    } else {
                        assert(lt::<InternalKeyComparator<C>>(es[jstar].0, pb@));
                        assert(sequence_of(es[jstar].0) < sequence);
                    }
                    assert(matches_at::<C>(es, jstar, key@, sequence));
                    assert forall|j2: int|
                        0 <= j2 < es.len() && #[trigger] matches_at::<C>(
                            es,
                            j2,
                            key@,
                            sequence,
                        ) implies sequence_of(es[j2].0) <= sequence_of(es[jstar].0) by {
                        if self.skip_list.has_key(pb@) {
                        } else {
                            lemma_match_below::<C, L>(es, j2, key@, sequence, pb@);
                            assert(j2 < cnt);
                            if j2 < jstar {
                                assert(lt::<InternalKeyComparator<C>>(
                                    es[j2].0,
                                    es[jstar].0,
                                ));
                                C::lemma_equal_congruent(
                                    user_key_of(es[j2].0),
                                    key@,
                                    user_key_of(es[jstar].0),
                                );
                                C::lemma_flip(user_key_of(es[jstar].0), key@);
                                C::lemma_flip(key@, user_key_of(es[jstar].0));
                            }
                        }
                    }
                }
                match visitor.value() {
                    Some(v) => Ok(
                        Some((entry_tag, vstd::slice::slice_to_vec(v.as_slice()))),
                    ),
                    None => Ok(None),
                }
            },
            _ => {
                proof {
                    assert forall|j: int| 0 <= j < es.len() implies !matches_at::<C>(
                        es,
                        j,
                        key@,
                        sequence,
                    ) by {
                        if matches_at::<C>(es, j, key@, sequence) {
                            // a matching record would order at or before the
                            // straddle entry, whose user key differs
                            C::lemma_flip(key@, user@);
                            C::lemma_flip(user@, key@);
                            lemma_match_below::<C, L>(es, j, key@, sequence, pb@);
                            assert(j < cnt);
                            assert(!self.skip_list.has_key(pb@));
                            assert(jstar == cnt - 1);
                            if j < jstar {
                                assert(lt::<InternalKeyComparator<C>>(es[j].0, es[jstar].0));
                                assert(lt::<InternalKeyComparator<C>>(es[jstar].0, pb@));
                                C::lemma_equal_congruent(
                                    user_key_of(es[j].0),
                                    key@,
                                    user_key_of(es[jstar].0),
                                );
                                C::lemma_flip(user_key_of(es[jstar].0), key@);
                                C::lemma_flip(key@, user_key_of(es[jstar].0));
                            }
                        }
                    }
                }
                Ok(None)
            },
        }
    }

    pub fn memory_usage(&self) -> (r: usize)
        ensures
            r == self.skip_list.memory,
    {
        self.skip_list.memory_usage()
    }

    /// Walk the contents in ascending internal-key order.
    pub fn iter<'a>(&'a self) -> (r: SkipListIterator<'a, InternalKeyComparator<C>, L>)
        requires
            self.wf(),
        ensures
            r.wf(),
            r.list == &self.skip_list,
            r.yielded@ == 0,
    {
        self.skip_list.iter()
    }

    /// Seal the table: no further writes.
    pub fn freeze(self) -> (r: MemTable<C, L>)
        requires
            self.wf(),
        ensures
            r.wf(),
            r.memtable == self,
    {
        MemTable { memtable: self }
    }
}

/// The probe key built for a snapshot read carries the user key and the
/// snapshot sequence.
proof fn lemma_probe_fields(tag: ValueTag, k: Seq<u8>, pb: Seq<u8>)
    requires
        tag.wf(),
        tag.ty is Value,
        pb == tag.spec_wrapped() + k,
    ensures
        pb.len() >= 8,
        user_key_of(pb) == k,
        sequence_of(pb) == tag.sequence_number,
{
    assert(pb.skip(8) =~= k);
    let w = tag.spec_wrapped();
    assert(pb[0] == w[0] && pb[1] == w[1] && pb[2] == w[2] && pb[3] == w[3] && pb[4] == w[4]
        && pb[5] == w[5] && pb[6] == w[6] && pb[7] == w[7]);
    crate::format::lemma_u64_be_round_trip(tag.spec_packed());
    let s = tag.sequence_number;
    assert(s < (1u64 << 63) ==> (s & !(1u64 << 63)) & !(1u64 << 63) == s) by (bit_vector);
    assert(TYPE_BIT == 1u64 << 63);
}

/// A record readable at the snapshot orders strictly below the probe, or is
/// the probe's equivalent.
proof fn lemma_match_below<C: Comparator, L: LevelGenerator>(
    es: Seq<(Seq<u8>, Seq<u8>)>,
    j: int,
    k: Seq<u8>,
    s: u64,
    pb: Seq<u8>,
)
    requires
        0 <= j < es.len(),
        matches_at::<C>(es, j, k, s),
        user_key_of(pb) == k,
        sequence_of(pb) == s,
        forall|j2: int|
            0 <= j2 < es.len() ==> (lt::<InternalKeyComparator<C>>((#[trigger] es[j2]).0, pb)
                <==> j2 < SkipList::<InternalKeyComparator<C>, L>::count_lt(es, pb)),
    ensures
        sequence_of(es[j].0) == s ==> eqv::<InternalKeyComparator<C>>(es[j].0, pb),
        sequence_of(es[j].0) < s ==> lt::<InternalKeyComparator<C>>(es[j].0, pb) && j < SkipList::<
            InternalKeyComparator<C>,
            L,
        >::count_lt(es, pb),
{
    let u = user_key_of(es[j].0);
}

/// A frozen memtable: the same contents, read-only.
pub struct MemTable<C: Comparator, L: LevelGenerator> {
    pub memtable: MemTableMut<C, L>,
}

impl<C: Comparator, L: LevelGenerator> MemTable<C, L> {
    pub open spec fn entries(&self) -> Seq<(Seq<u8>, Seq<u8>)> {
        self.memtable.entries()
    }

    pub open spec fn wf(&self) -> bool {
        self.memtable.wf()
    }

    pub fn log_number(&self) -> (r: u64)
        ensures
            r == self.memtable.log_number,
    {
        self.memtable.log_number()
    }

    pub fn seek_by_internal_key(&self, key: &InternalKey) -> (r: Option<Vec<u8>>)
        requires
            self.wf(),
        ensures
            match self.memtable.skip_list.spec_seek(key.spec_bytes()) {
                Some(v) => r is Some && r.unwrap()@ == v,
                None => r is None,
            },
    {
        self.memtable.seek_by_internal_key(key)
    }

    pub fn seek_by_key_and_sequence(&self, key: &[u8], sequence: u64) -> (r: Result<
        Option<(ValueTag, Vec<u8>)>,
        Error,
    >)
        requires
            self.wf(),
        ensures
            sequence >= TYPE_BIT ==> r == Err::<Option<(ValueTag, Vec<u8>)>, Error>(
                Error::SequenceNumberOverflow,
            ),
            sequence < TYPE_BIT ==> match r {
                Err(_) => false,
                Ok(opt) => {
                    let es = self.entries();
                    match opt {
                        None => forall|j: int|
                            0 <= j < es.len() ==> !matches_at::<C>(es, j, key@, sequence),
                        Some((tag, v)) => exists|j: int|
                            {
                                &&& 0 <= j < es.len()
                                &&& #[trigger] matches_at::<C>(es, j, key@, sequence)
                                &&& v@ == es[j].1
                                &&& tag == ValueTag::spec_from_wrapped(es[j].0.take(8))
                                &&& tag.sequence_number == sequence_of(es[j].0)
                                &&& forall|j2: int|
                                    0 <= j2 < es.len() && #[trigger] matches_at::<C>(
                                        es,
                                        j2,
                                        key@,
                                        sequence,
                                    ) ==> sequence_of(es[j2].0) <= sequence_of(es[j].0)
                            },
                    }
                },
            },
    {
        let r = self.memtable.seek_by_key_and_sequence(key, sequence);
        proof {
            assert(self.entries() == self.memtable.entries());
        }
        r
    }

    pub fn iter<'a>(&'a self) -> (r: SkipListIterator<
        'a,
        InternalKeyComparator<C>,
        L,
    >)
        requires
            self.wf(),
        ensures
            r.wf(),
            r.list == &self.memtable.skip_list,
            r.yielded@ == 0,
    {
        self.memtable.iter()
    }
}

} // verus!
