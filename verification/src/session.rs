//! Sequence-number issuance. The factory hands out monotonically increasing
//! sequence numbers and keeps the set of those still in use; a compactor
//! consults that set before dropping tombstones.

use std::collections::HashSet;
use vstd::prelude::*;

verus! {

broadcast use vstd::std_specs::hash::group_hash_axioms;

pub struct SessionFactory {
    pub sequence: u64,
    pub in_use_sequence: HashSet<u64>,
}

impl SessionFactory {
    /// Fresh factory: the next sequence to issue is `sequence`, none in use.
    pub fn new(sequence: u64) -> (r: SessionFactory)
        ensures
            r.sequence == sequence,
            r.in_use_sequence@ == Set::<u64>::empty(),
    {
        SessionFactory { sequence, in_use_sequence: HashSet::new() }
    }

    /// Issue the next sequence number and mark it in use.
    pub fn get_session(&mut self) -> (r: u64)
        requires
            old(self).sequence < u64::MAX,
        ensures
            r == old(self).sequence,
            final(self).sequence == old(self).sequence + 1,
            final(self).in_use_sequence@ == old(self).in_use_sequence@.insert(r),
    {
        let sequence = self.sequence;
        self.sequence = self.sequence + 1;
        self.in_use_sequence.insert(sequence);
        sequence
    }

    /// A session ended: its sequence number is no longer in use.
    pub fn drop_sequence(&mut self, sequence: u64)
        ensures
            final(self).sequence == old(self).sequence,
            final(self).in_use_sequence@ == old(self).in_use_sequence@.remove(sequence),
    {
        self.in_use_sequence.remove(&sequence);
    }

    /// Whether some open session still reads at `sequence`.
    pub fn sequence_in_use(&self, sequence: u64) -> (r: bool)
        ensures
            r == self.in_use_sequence@.contains(sequence),
    {
        self.in_use_sequence.contains(&sequence)
    }
}

} // verus!
