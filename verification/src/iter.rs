//! Cursors over a skip list: the internal visitor that drives searching, the
//! public visitor with point lookup and predecessor lookup, and the ordered
//! iterator over the level-0 chain.

use crate::comparator::{Cmp, Comparator};
use crate::level_generator::LevelGenerator;
use crate::node::NIL;
use crate::skip_list::{eqv, lt, SkipList};
use vstd::prelude::*;

verus! {

/// A position inside a skip list: a node index, the level being walked, and
/// a validity bit that goes off when a walk runs past the end.
pub struct SkipListInternalVisitor<'a, C: Comparator, L: LevelGenerator> {
    pub list: &'a SkipList<C, L>,
    pub current: usize,
    pub level: usize,
    pub valid: bool,
}

impl<'a, C: Comparator, L: LevelGenerator> SkipListInternalVisitor<'a, C, L> {
    pub open spec fn wf(self) -> bool {
        &&& self.list.wf()
        &&& (self.valid ==> (self.current as int) < self.list.nodes@.len())
    }

    /// The key under the cursor, if it stands on a payload node.
    pub open spec fn spec_key(self) -> Option<Seq<u8>> {
        if self.valid && !self.list.nodes@[self.current as int].head {
            Some(self.list.key_at(self.current as int))
        } else {
            None
        }
    }

    /// The value under the cursor, if it stands on a payload node.
    pub open spec fn spec_value(self) -> Option<Seq<u8>> {
        if self.valid && !self.list.nodes@[self.current as int].head {
            Some(self.list.val_at(self.current as int))
        } else {
            None
        }
    }

    /// A cursor on the sentinel head, ready to walk from `level` down.
    pub fn create(list: &'a SkipList<C, L>, level: usize) -> (r: Self)
        requires
            list.wf(),
        ensures
            r.wf(),
            r.list == list,
            r.current == 0,
            r.level == level,
            r.valid,
    {
        SkipListInternalVisitor { list, current: 0, level, valid: true }
    }

    /// Move the cursor to `node`; `NIL` invalidates it.
    pub fn set_current(&mut self, node: usize)
        requires
            old(self).wf(),
            node == NIL || (node as int) < old(self).list.nodes@.len(),
        ensures
            final(self).wf(),
            final(self).list == old(self).list,
            final(self).level == old(self).level,
            node == NIL ==> !final(self).valid,
            node != NIL ==> final(self).valid == old(self).valid && final(self).current == node,
    {
        if node == NIL {
            self.valid = false;
        } else {
            self.current = node;
        }
    }

    pub fn set_level(&mut self, level: usize)
        requires
            old(self).wf(),
        ensures
            final(self).wf(),
            final(self).list == old(self).list,
            final(self).current == old(self).current,
            final(self).valid == old(self).valid,
            final(self).level == level,
    {
        self.level = level;
    }

    pub fn set_zero_level(&mut self)
        requires
            old(self).wf(),
        ensures
            final(self).wf(),
            final(self).list == old(self).list,
            final(self).current == old(self).current,
            final(self).valid == old(self).valid,
            final(self).level == 0,
    {
        self.level = 0;
    }

    /// Drop one level, stopping at the base.
    pub fn reduce_level(&mut self)
        requires
            old(self).wf(),
        ensures
            final(self).wf(),
            final(self).level == (if old(self).level > 0 {
                old(self).level - 1
            } else {
                0int
            }),
            final(self).list == old(self).list,
            final(self).current == old(self).current,
            final(self).valid == old(self).valid,
    {
        if self.level > 0 {
            self.level = self.level - 1;
        }
    }

    pub fn is_head(&self) -> (r: bool)
        requires
            self.wf(),
        ensures
            r == (self.valid && self.list.nodes@[self.current as int].head),
    {
        if self.valid {
            self.list.nodes[self.current].is_head()
        } else {
            false
        }
    }

    pub fn valid(&self) -> (r: bool)
        ensures
            r == self.valid,
    {
        self.valid
    }

    /// The cursor's node index, `None` once invalid.
    pub fn current_ptr(&self) -> (r: Option<usize>)
        ensures
            r == (if self.valid {
                Some(self.current)
            } else {
                None::<usize>
            }),
    {
        if self.valid {
            Some(self.current)
        } else {
            None
        }
    }

    pub fn current_level(&self) -> (r: usize)
        ensures
            r == self.level,
    {
        self.level
    }

    pub fn key(&self) -> (r: Option<&Vec<u8>>)
        requires
            self.wf(),
        ensures
            match r {
                Some(k) => self.spec_key() == Some(k@),
                None => self.spec_key() is None,
            },
    {
        if self.valid {
            self.list.nodes[self.current].key()
        } else {
            None
        }
    }

    pub fn value(&self) -> (r: Option<&Vec<u8>>)
        requires
            self.wf(),
        ensures
            match r {
                Some(v) => self.spec_value() == Some(v@),
                None => self.spec_value() is None,
            },
    {
        if self.valid {
            self.list.nodes[self.current].value()
        } else {
            None
        }
    }

    /// Compare the successor's key at the current level against `key`,
    /// handing the successor's index along; `Greater` with `NIL` when the
    /// level is exhausted.
    pub fn compare_and_get_next(&self, key: &[u8]) -> (r: (Cmp, usize))
        requires
            self.wf(),
            self.valid,
            self.level <= self.list.nodes@[self.current as int].height,
        ensures
            ({
                let t = self.list.nodes@[self.current as int].next@[self.level as int];
                &&& r.1 == t
                &&& t == NIL ==> r.0 == Cmp::Greater
                &&& t != NIL ==> (t as int) < self.list.nodes@.len() && r.0 == C::cmp_spec(
                    self.list.key_at(t as int),
                    key@,
                )
            }),
    {
        let t = self.list.nodes[self.current].next[self.level];
        proof {
            self.list.lemma_link_valid(self.current as int, self.level as int);
        }
        if t == NIL {
            (Cmp::Greater, t)
        } else {
            (C::compare(self.list.nodes[t].key.as_slice(), key), t)
        }
    }

    /// Step to the successor at the current level; at the end of the level
    /// the cursor goes invalid.
    pub fn next(&mut self)
        requires
            old(self).wf(),
            old(self).valid,
            old(self).level <= old(self).list.nodes@[old(self).current as int].height,
        ensures
            final(self).wf(),
            final(self).list == old(self).list,
            final(self).level == old(self).level,
            ({
                let t = old(self).list.nodes@[old(self).current as int].next@[old(self).level
                    as int];
                &&& t == NIL ==> !final(self).valid
                &&& t != NIL ==> final(self).valid && final(self).current == t
            }),
    {
        let t = self.list.nodes[self.current].next[self.level];
        proof {
            self.list.lemma_link_valid(self.current as int, self.level as int);
        }
        if t == NIL {
            self.valid = false;
        } else {
            self.current = t;
        }
    }

    /// Top-down search. With `less_or_equal` unset: land on the node whose
    /// key is equivalent to `key`, or go invalid. With it set: land on that
    /// node, or on the last node ordering strictly before `key` — the head
    /// when there is none. Either way the cursor ends at level 0.
    #[verifier::loop_isolation(false)]
    pub fn seek(&mut self, key: &[u8], less_or_equal: bool)
        requires
            old(self).wf(),
            old(self).valid,
            old(self).current == 0,
        ensures
            final(self).wf(),
            final(self).list == old(self).list,
            final(self).level == 0,
            ({
                let l = old(self).list;
                let cnt = SkipList::<C, L>::count_lt(l.entries(), key@);
                &&& (l.has_key(key@) ==> final(self).valid && final(self).current == l.order@[cnt]
                    && final(self).spec_key() == Some(l.entries()[cnt].0) && final(self).spec_value() == Some(l.entries()[cnt].1) && eqv::<C>(l.entries()[cnt].0, key@))
                &&& (!l.has_key(key@) && less_or_equal ==> final(self).valid && final(self).current
                    == (if cnt == 0 {
                    0int
                } else {
                    l.order@[cnt - 1] as int
                }) && (cnt == 0 ==> final(self).spec_key() is None) && (cnt > 0 ==> final(self).spec_key() == Some(l.entries()[cnt - 1].0) && final(self).spec_value() == Some(
                    l.entries()[cnt - 1].1,
                )))
                &&& (!l.has_key(key@) && !less_or_equal ==> !final(self).valid)
            }),
    {
        let list = self.list;
        let ghost ks = key@;
        let mut level = list.height;
        let mut prev: usize = 0;
        loop
            invariant
                *self == *old(self),
                prev == 0 || (1 <= (prev as int) < list.nodes@.len() && lt::<C>(
                    list.key_at(prev as int),
                    ks,
                )),
                (prev as int) < list.nodes@.len(),
                level <= list.nodes@[prev as int].height,
            decreases level,
        {
            let pr = list.find_position_for_level(prev, key, level);
            if pr.0 == pr.1 {
                // An equivalent key: stand on it.
                proof {
                    assert(list.order@.contains(pr.0));
                    let q = choose|j: int|
                        0 <= j < list.order@.len() && list.order@[j] == pr.0;
                    list.lemma_found_pos(q, ks);
                }
                self.current = pr.0;
                self.level = 0;
                return ;
            }
            if level == 0 {
                proof {
                    let ghost pos: int = if pr.0 == 0 {
                        0int
                    } else {
                        (choose|j: int|
                            0 <= j < list.order@.len() && list.order@[j] == pr.0) + 1
                    };
                    list.lemma_straddle(pr, pos, ks);
                }
                if less_or_equal {
                    self.current = pr.0;
                    self.level = 0;
                } else {
                    self.valid = false;
                    self.level = 0;
                }
                return ;
            }
            prev = pr.0;
            level = level - 1;
        }
    }
}

/// Ordered traversal of a skip list: follows the level-0 chain from the
/// head, yielding each entry once, in ascending key order.
pub struct SkipListIterator<'a, C: Comparator, L: LevelGenerator> {
    pub list: &'a SkipList<C, L>,
    pub current: usize,
    pub yielded: Ghost<int>,
}

impl<'a, C: Comparator, L: LevelGenerator> SkipListIterator<'a, C, L> {
    /// The iterator stands on the head or on the node of the last yielded
    /// entry; `yielded` counts the entries handed out.
    pub open spec fn wf(self) -> bool {
        &&& self.list.wf()
        &&& 0 <= self.yielded@ <= self.list.entries().len()
        &&& (self.yielded@ == 0 ==> self.current == 0)
        &&& (self.yielded@ > 0 ==> self.current == self.list.order@[self.yielded@ - 1])
    }

    pub fn new(list: &'a SkipList<C, L>) -> (r: Self)
        requires
            list.wf(),
        ensures
            r.wf(),
            r.list == list,
            r.yielded@ == 0,
    {
        SkipListIterator { list, current: 0, yielded: Ghost(0) }
    }

    /// The next entry in ascending order, `None` after the last.
    pub fn next(&mut self) -> (r: Option<(&'a Vec<u8>, &'a Vec<u8>)>)
        requires
            old(self).wf(),
        ensures
            final(self).wf(),
            final(self).list == old(self).list,
            ({
                let es = old(self).list.entries();
                let j = old(self).yielded@;
                &&& (j < es.len() ==> final(self).yielded@ == j + 1 && (match r {
                    Some((k, v)) => k@ == es[j].0 && v@ == es[j].1,
                    None => false,
                }))
                &&& (j == es.len() ==> final(self).yielded@ == j && r is None)
            }),
    {
        let list = self.list;
        proof {
            if self.current != 0 {
                assert(list.order@.contains(self.current));
            }
        }
        let t = list.nodes[self.current].next[0];
        proof {
            if self.yielded@ < list.entries().len() {
                if self.yielded@ == 0 {
                    assert(list.nodes@[0].next@[0] == list.order@[0]);
                } else {
                    assert(list.nodes@[list.order@[self.yielded@ - 1] as int].next@[0]
                        == list.order@[self.yielded@]);
                }
            } else {
                if self.yielded@ == 0 {
                } else {
                    assert(list.nodes@[list.order@[self.yielded@ - 1] as int].next@[0] == NIL);
                }
            }
        }
        if t == NIL {
            return None;
        }
        self.current = t;
        proof {
            self.yielded@ = self.yielded@ + 1;
        }
        let node = &list.nodes[t];
        Some((&node.key, &node.value))
    }
}

/// The public cursor: point lookup, predecessor lookup, forward steps.
pub struct SkipListVisitor<'a, C: Comparator, L: LevelGenerator> {
    pub internal_visitor: SkipListInternalVisitor<'a, C, L>,
}

impl<'a, C: Comparator, L: LevelGenerator> SkipListVisitor<'a, C, L> {
    pub open spec fn wf(self) -> bool {
        self.internal_visitor.wf()
    }

    pub open spec fn spec_key(self) -> Option<Seq<u8>> {
        self.internal_visitor.spec_key()
    }

    pub open spec fn spec_value(self) -> Option<Seq<u8>> {
        self.internal_visitor.spec_value()
    }

    pub open spec fn spec_list(self) -> SkipList<C, L> {
        *self.internal_visitor.list
    }

    pub fn new(internal_visitor: SkipListInternalVisitor<'a, C, L>) -> (r: Self)
        requires
            internal_visitor.wf(),
        ensures
            r.wf(),
            r.internal_visitor == internal_visitor,
    {
        SkipListVisitor { internal_visitor }
    }

    pub fn key(&self) -> (r: Option<&Vec<u8>>)
        requires
            self.wf(),
        ensures
            match r {
                Some(k) => self.spec_key() == Some(k@),
                None => self.spec_key() is None,
            },
    {
        self.internal_visitor.key()
    }

    pub fn value(&self) -> (r: Option<&Vec<u8>>)
        requires
            self.wf(),
        ensures
            match r {
                Some(v) => self.spec_value() == Some(v@),
                None => self.spec_value() is None,
            },
    {
        self.internal_visitor.value()
    }

    pub fn valid(&self) -> (r: bool)
        ensures
            r == self.internal_visitor.valid,
    {
        self.internal_visitor.valid()
    }

    /// Step to the next node on the base level: the cursor moves to the
    /// level-0 successor, or goes invalid at the end of the list.
    pub fn next(&mut self)
        requires
            old(self).wf(),
            old(self).internal_visitor.valid,
            old(self).internal_visitor.level == 0,
        ensures
            final(self).wf(),
            final(self).spec_list() == old(self).spec_list(),
            final(self).internal_visitor.level == 0,
            ({
                let l = old(self).spec_list();
                let t = l.nodes@[old(self).internal_visitor.current as int].next@[0];
                &&& (t == crate::node::NIL ==> !final(self).internal_visitor.valid)
                &&& (t != crate::node::NIL ==> final(self).internal_visitor.valid && final(self).internal_visitor.current == t)
            }),
    {
        self.internal_visitor.next();
    }

    /// Exact lookup: land on the equivalent key or go invalid.
    pub fn seek(&mut self, key: &[u8])
        requires
            old(self).wf(),
            old(self).internal_visitor.valid,
            old(self).internal_visitor.current == 0,
        ensures
            final(self).wf(),
            final(self).spec_list() == old(self).spec_list(),
            ({
                let l = old(self).spec_list();
                let cnt = SkipList::<C, L>::count_lt(l.entries(), key@);
                &&& (l.has_key(key@) ==> final(self).internal_visitor.valid && final(self).spec_key() == Some(l.entries()[cnt].0) && final(self).spec_value() == Some(
                    l.entries()[cnt].1,
                ) && eqv::<C>(l.entries()[cnt].0, key@))
                &&& (!l.has_key(key@) ==> !final(self).internal_visitor.valid)
            }),
    {
        self.internal_visitor.seek(key, false);
    }

    /// Predecessor lookup: land on the greatest entry ordering at or before
    /// `key`; on the head when every entry orders after it.
    pub fn seek_less_or_equal(&mut self, key: &[u8])
        requires
            old(self).wf(),
            old(self).internal_visitor.valid,
            old(self).internal_visitor.current == 0,
        ensures
            final(self).wf(),
            final(self).spec_list() == old(self).spec_list(),
            final(self).internal_visitor.valid,
            ({
                let l = old(self).spec_list();
                let cnt = SkipList::<C, L>::count_lt(l.entries(), key@);
                &&& (l.has_key(key@) ==> final(self).spec_key() == Some(l.entries()[cnt].0)
                    && final(self).spec_value() == Some(l.entries()[cnt].1) && eqv::<C>(
                    l.entries()[cnt].0,
                    key@,
                ))
                &&& (!l.has_key(key@) && cnt > 0 ==> final(self).spec_key() == Some(
                    l.entries()[cnt - 1].0,
                ) && final(self).spec_value() == Some(l.entries()[cnt - 1].1))
                &&& (!l.has_key(key@) && cnt == 0 ==> final(self).spec_key() is None)
            }),
    {
        self.internal_visitor.seek(key, true);
    }
}

} // verus!
