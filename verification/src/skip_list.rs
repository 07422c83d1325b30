//! An ordered map over byte-string keys, built as a skip list. Nodes live in
//! a growing table and link forward by index, per level; the sentinel head at
//! index 0 opens every level. A ghost sequence `order` names the payload
//! nodes in ascending key order; the level-0 chain walks exactly that
//! sequence, and every higher-level link jumps forward along it.

use crate::comparator::{Cmp, Comparator};
use crate::endian::sat_add;
use crate::level_generator::LevelGenerator;
use crate::node::{Node, NIL};
use core::marker::PhantomData;
use vstd::prelude::*;

verus! {

/// `a` orders strictly before `b` under `C`.
pub open spec fn lt<C: Comparator>(a: Seq<u8>, b: Seq<u8>) -> bool {
    C::cmp_spec(a, b) == Cmp::Less
}

/// `a` and `b` are equivalent under `C`.
pub open spec fn eqv<C: Comparator>(a: Seq<u8>, b: Seq<u8>) -> bool {
    C::cmp_spec(a, b) == Cmp::Equal
}

pub struct SkipList<C: Comparator, L: LevelGenerator> {
    pub nodes: Vec<Node>,
    pub order: Ghost<Seq<usize>>,
    pub len: usize,
    pub height: usize,
    pub max_level: usize,
    pub level_generator: L,
    pub memory: usize,
    pub comparator: PhantomData<C>,
}

impl<C: Comparator, L: LevelGenerator> SkipList<C, L> {
    pub open spec fn key_at(&self, i: int) -> Seq<u8> {
        self.nodes@[i].key@
    }

    pub open spec fn val_at(&self, i: int) -> Seq<u8> {
        self.nodes@[i].value@
    }

    /// The list's contents: its key/value pairs in ascending key order.
    pub open spec fn entries(&self) -> Seq<(Seq<u8>, Seq<u8>)> {
        Seq::new(
            self.order@.len(),
            |j: int| (self.key_at(self.order@[j] as int), self.val_at(self.order@[j] as int)),
        )
    }

    /// Some entry's key is equivalent to `k`.
    pub open spec fn has_key(&self, k: Seq<u8>) -> bool {
        exists|j: int| 0 <= j < self.entries().len() && eqv::<C>(self.entries()[j].0, k)
    }

    /// How many entries order strictly before `k`: where `k` belongs.
    pub open spec fn count_lt(entries: Seq<(Seq<u8>, Seq<u8>)>, k: Seq<u8>) -> int
        decreases entries.len(),
    {
        if entries.len() == 0 {
            0
        } else {
            Self::count_lt(entries.drop_last(), k) + (if lt::<C>(entries.last().0, k) {
                1int
            } else {
                0int
            })
        }
    }

    /// A forward link is `NIL` or a real node, at least this tall, with a
    /// strictly greater key (the head orders before everything).
    pub open spec fn link_ok(&self, i: int, k: int) -> bool {
        let t = self.nodes@[i].next@[k];
        ||| t == NIL
        ||| (1 <= t < self.nodes@.len() && self.nodes@[t as int].height >= k && (i == 0
            || lt::<C>(self.key_at(i), self.key_at(t as int))))
    }

    /// The level-0 chain from the head visits exactly `order`.
    pub open spec fn chain0_ok(&self) -> bool {
        let n = self.nodes@.len() as int;
        &&& (self.order@.len() == 0 ==> self.nodes@[0].next@[0] == NIL)
        &&& (self.order@.len() > 0 ==> self.nodes@[0].next@[0] == self.order@[0])
        &&& forall|j: int|
            0 <= j < n - 1 ==> (#[trigger] self.nodes@[self.order@[j] as int].next@[0]) == (if j
                == n - 2 {
                NIL
            } else {
                self.order@[j + 1]
            })
    }

    pub open spec fn wf(&self) -> bool {
        let n = self.nodes@.len() as int;
        &&& 1 <= n < NIL
        &&& self.nodes@[0].head
        &&& self.nodes@[0].height == self.max_level
        &&& self.nodes@[0].key@.len() == 0
        &&& self.len == n - 1
        &&& self.order@.len() == n - 1
        &&& self.height <= self.max_level
        &&& self.max_level == self.level_generator.spec_max_level()
        &&& self.max_level < usize::MAX
        &&& forall|i: int| 0 <= i < n ==> (#[trigger] self.nodes@[i]).wf()
        &&& forall|i: int|
            1 <= i < n ==> !(#[trigger] self.nodes@[i]).head && self.nodes@[i].height
                <= self.height
        &&& forall|k: int| self.height < k <= self.max_level ==> self.nodes@[0].next@[k] == NIL
        &&& forall|j: int| 0 <= j < n - 1 ==> 1 <= #[trigger] self.order@[j] < n
        &&& forall|i: usize| 1 <= i < n ==> self.order@.contains(i)
        &&& forall|a: int, b: int|
            0 <= a < b < n - 1 ==> lt::<C>(
                self.key_at(#[trigger] self.order@[a] as int),
                self.key_at(#[trigger] self.order@[b] as int),
            )
        &&& self.chain0_ok()
        &&& forall|i: int, k: int|
            0 <= i < n && 1 <= k <= self.nodes@[i].height ==> #[trigger] self.link_ok(i, k)
    }

    /// An empty list: only the sentinel head, at the generator's full height.
    pub fn new(level_generator: L) -> (r: SkipList<C, L>)
        requires
            level_generator.spec_max_level() < usize::MAX,
        ensures
            r.wf(),
            r.entries().len() == 0,
            r.max_level == level_generator.spec_max_level(),
            r.height == 0,
            r.memory == 0,
    {
        let max_level = level_generator.max_level();
        let head = Node::head(max_level);
        let mut nodes: Vec<Node> = Vec::new();
        nodes.push(head);
        let r = SkipList {
            nodes,
            order: Ghost(Seq::empty()),
            len: 0,
            height: 0,
            max_level,
            level_generator,
            memory: 0,
            comparator: PhantomData,
        };
        proof {
            assert(r.entries() =~= Seq::<(Seq<u8>, Seq<u8>)>::empty());
        }
        r
    }

    pub fn len(&self) -> (r: usize)
        requires
            self.wf(),
        ensures
            r == self.entries().len(),
    {
        self.len
    }

    pub fn is_empty(&self) -> (r: bool)
        requires
            self.wf(),
        ensures
            r == (self.entries().len() == 0),
    {
        self.len == 0
    }

    /// Bytes a node-and-payload layout of the current contents consumes: the
    /// figure rotation policy watches.
    pub fn memory_usage(&self) -> (r: usize)
        ensures
            r == self.memory,
    {
        self.memory
    }

    /// Positions in `order` come in key order: a strictly smaller key sits at
    /// a strictly smaller position, whatever witnesses name the nodes.
    proof fn lemma_pos_lt(&self, ja: int, jb: int)
        requires
            self.wf(),
            0 <= ja < self.order@.len(),
            0 <= jb < self.order@.len(),
            lt::<C>(
                self.key_at(self.order@[ja] as int),
                self.key_at(self.order@[jb] as int),
            ),
        ensures
            ja < jb,
    {
        let ka = self.key_at(self.order@[ja] as int);
        let kb = self.key_at(self.order@[jb] as int);
        if ja == jb {
            C::lemma_reflexive(ka);
        } else if ja > jb {
            C::lemma_flip(kb, ka);
        }
    }

    /// Step along a level: every forward link of a valid node (the head
    /// included) is `link_ok`, level 0 included.
    proof fn lemma_step(&self, i: int, k: int)
        requires
            self.wf(),
            0 <= i < self.nodes@.len(),
            0 <= k <= self.nodes@[i].height,
        ensures
            self.link_ok(i, k),
    {
        let n = self.nodes@.len() as int;
        if k == 0 {
            if i >= 1 {
                assert(self.order@.contains(i as usize));
                let j = choose|j: int| 0 <= j < self.order@.len() && self.order@[j] == i;
                assert(self.nodes@[self.order@[j] as int].next@[0] == (if j == n - 2 {
                    NIL
                } else {
                    self.order@[j + 1]
                }));
                if j < n - 2 {
                    assert(lt::<C>(
                        self.key_at(self.order@[j] as int),
                        self.key_at(self.order@[j + 1] as int),
                    ));
                }
            } else {
                if self.order@.len() > 0 {
                    assert(self.nodes@[0].next@[0] == self.order@[0]);
                }
            }
        }
    }

    /// At level 0, a straddle — the key sits strictly between a node (or the
    /// head) and its immediate successor (or the end) — rules the key out.
    proof fn lemma_no_dup_at0(&self, prev: usize, nxt: usize, jp: int, key: Seq<u8>)
        requires
            self.wf(),
            (prev == 0 && jp == -1) || (0 <= jp < self.order@.len() && self.order@[jp] == prev
                && lt::<C>(self.key_at(prev as int), key)),
            0 <= prev < self.nodes@.len(),
            self.nodes@[prev as int].next@[0] == nxt,
            nxt == NIL || (nxt < self.nodes@.len() && lt::<C>(key, self.key_at(nxt as int))),
        ensures
            !self.has_key(key),
    {
        let n = self.nodes@.len() as int;
        if self.has_key(key) {
            let q = choose|q: int|
                0 <= q < self.entries().len() && eqv::<C>(self.entries()[q].0, key);
            let q0 = self.entries()[q].0;
            assert(q0 == self.key_at(self.order@[q] as int));
            C::lemma_equal_congruent(q0, key, key);
            // jp < q: the straddling node's key orders before the found key
            if prev != 0 {
                let kp = self.key_at(prev as int);
                C::lemma_equal_congruent(q0, key, kp);
                C::lemma_flip(kp, key);
                C::lemma_flip(kp, q0);
                self.lemma_pos_lt(jp, q);
            }
            // q < jp + 1: the successor's key orders after the found key
            if prev == 0 {
                assert(self.nodes@[0].next@[0] == nxt);
                if self.order@.len() == 0 {
                    assert(false);
                } else {
                    assert(nxt == self.order@[0]);
                    let kn = self.key_at(nxt as int);
                    C::lemma_equal_congruent(q0, key, kn);
                    self.lemma_pos_lt(q, 0);
                    assert(false);
                }
            } else {
                assert(self.nodes@[self.order@[jp] as int].next@[0] == (if jp == n - 2 {
                    NIL
                } else {
                    self.order@[jp + 1]
                }));
                if jp == n - 2 {
                    // prev is the last entry, yet q lies beyond jp
                    assert(jp < q < self.order@.len());
                    assert(false);
                } else {
                    assert(nxt == self.order@[jp + 1]);
                    let kn = self.key_at(nxt as int);
                    C::lemma_equal_congruent(q0, key, kn);
                    self.lemma_pos_lt(q, jp + 1);
                    assert(false);
                }
            }
        }
    }

    /// Walk one level from `start`: stop at the last node whose key orders
    /// strictly before `key`, returning it and its successor. An equivalent
    /// key met on the way is reported as a `(node, node)` pair. At level 0
    /// the straddle is exact, so a non-equal answer refutes the key.
    pub fn find_position_for_level(&self, start: usize, key: &[u8], level: usize) -> (r: (
        usize,
        usize,
    ))
        requires
            self.wf(),
            start == 0 || (1 <= (start as int) < self.nodes@.len() && lt::<C>(
                self.key_at(start as int),
                key@,
            )),
            (start as int) < self.nodes@.len(),
            level <= self.nodes@[start as int].height,
        ensures
            r.0 == r.1 ==> 1 <= (r.0 as int) < self.nodes@.len() && eqv::<C>(
                self.key_at(r.0 as int),
                key@,
            ) && self.has_key(key@),
            r.0 != r.1 ==> {
                &&& r.0 == 0 || (1 <= (r.0 as int) < self.nodes@.len() && lt::<C>(
                    self.key_at(r.0 as int),
                    key@,
                ))
                &&& (r.0 as int) < self.nodes@.len()
                &&& level <= self.nodes@[r.0 as int].height
                &&& self.nodes@[r.0 as int].next@[level as int] == r.1
                &&& (r.1 == NIL || (1 <= (r.1 as int) < self.nodes@.len()
                    && self.nodes@[r.1 as int].height >= level && lt::<C>(
                    key@,
                    self.key_at(r.1 as int),
                )))
                &&& (level == 0 ==> !self.has_key(key@))
            },
    {
        let mut prev = start;
        let ghost mut jp: int = -1;
        proof {
            if start != 0 {
                assert(self.order@.contains(start));
                jp = choose|j: int| 0 <= j < self.order@.len() && self.order@[j] == start;
            }
        }
        loop
            invariant
                self.wf(),
                level <= self.nodes@[prev as int].height,
                (prev as int) < self.nodes@.len(),
                prev == 0 || (1 <= prev as int && lt::<C>(self.key_at(prev as int), key@)),
                (prev == 0 && jp == -1) || (0 <= jp < self.order@.len() && self.order@[jp]
                    == prev),
            decreases self.order@.len() - jp,
        {
            let nxt = self.nodes[prev].next[level];
            proof {
                self.lemma_step(prev as int, level as int);
            }
            if nxt == NIL {
                proof {
                    if level == 0 {
                        self.lemma_no_dup_at0(prev, NIL, jp, key@);
                    }
                }
                return (prev, NIL);
            }
            match C::compare(self.nodes[nxt].key.as_slice(), key) {
                Cmp::Less => {
                    proof {
                        assert(self.order@.contains(nxt));
                        let jn = choose|j: int|
                            0 <= j < self.order@.len() && self.order@[j] == nxt;
                        if prev != 0 {
                            self.lemma_pos_lt(jp, jn);
                        }
                        jp = jn;
                    }
                    prev = nxt;
                },
                Cmp::Equal => {
                    proof {
                        assert(self.order@.contains(nxt));
                        let jn = choose|j: int|
                            0 <= j < self.order@.len() && self.order@[j] == nxt;
                        assert(self.entries()[jn].0 == self.key_at(nxt as int));
                        assert(eqv::<C>(self.entries()[jn].0, key@));
                    }
                    return (nxt, nxt);
                },
                Cmp::Greater => {
                    proof {
                        C::lemma_flip(key@, self.key_at(nxt as int));
                        if prev != 0 {
                            C::lemma_transitive(
                                self.key_at(prev as int),
                                key@,
                                self.key_at(nxt as int),
                            );
                            C::lemma_reflexive(self.key_at(prev as int));
                        }
                        if level == 0 {
                            self.lemma_no_dup_at0(prev, nxt, jp, key@);
                        }
                    }
                    return (prev, nxt);
                },
            }
        }
    }

    /// What the search hands the insert for one level: the last node before
    /// `key` (or the head), its successor link at that level, and the
    /// successor's bounds.
    pub open spec fn pair_ok(&self, pr: (usize, usize), k: int, key: Seq<u8>) -> bool {
        &&& pr.0 == 0 || (1 <= (pr.0 as int) < self.nodes@.len() && lt::<C>(
            self.key_at(pr.0 as int),
            key,
        ))
        &&& (pr.0 as int) < self.nodes@.len()
        &&& k <= self.nodes@[pr.0 as int].height
        &&& self.nodes@[pr.0 as int].next@[k] == pr.1
        &&& (pr.1 == NIL || (1 <= (pr.1 as int) < self.nodes@.len()
            && self.nodes@[pr.1 as int].height >= k && lt::<C>(key, self.key_at(pr.1 as int))))
    }

    /// Walk down from the list's height, returning the straddling pair of
    /// every level, highest first — `None` as soon as an equivalent key
    /// turns up, in which case an insert would be a no-op.
    pub fn find_position(&self, key: &[u8]) -> (r: Option<Vec<(usize, usize)>>)
        requires
            self.wf(),
        ensures
            match r {
                None => self.has_key(key@),
                Some(path) => {
                    &&& !self.has_key(key@)
                    &&& path@.len() == self.height + 1
                    &&& forall|k: int|
                        0 <= k <= self.height ==> self.pair_ok(
                            #[trigger] path@[self.height - k],
                            k,
                            key@,
                        )
                },
            },
    {
        let mut path: Vec<(usize, usize)> = Vec::new();
        let mut level = self.height;
        let mut prev: usize = 0;
        loop
            invariant
                self.wf(),
                level <= self.height,
                path@.len() == self.height - level,
                prev == 0 || (1 <= (prev as int) < self.nodes@.len() && lt::<C>(
                    self.key_at(prev as int),
                    key@,
                )),
                (prev as int) < self.nodes@.len(),
                level <= self.nodes@[prev as int].height,
                forall|k: int|
                    level < k <= self.height ==> self.pair_ok(
                        #[trigger] path@[self.height - k],
                        k,
                        key@,
                    ),
            decreases level,
        {
            let pr = self.find_position_for_level(prev, key, level);
            if pr.0 == pr.1 {
                return None;
            }
            path.push(pr);
            prev = pr.0;
            if level == 0 {
                return Some(path);
            }
            level = level - 1;
        }
    }

    /// What the list holds after an insert: unchanged when an equivalent key
    /// is present (the earlier entry wins), else the pair spliced in at its
    /// ordered position.
    pub open spec fn spec_insert(&self, k: Seq<u8>, v: Seq<u8>) -> Seq<(Seq<u8>, Seq<u8>)> {
        if self.has_key(k) {
            self.entries()
        } else {
            let p = Self::count_lt(self.entries(), k);
            self.entries().take(p) + seq![(k, v)] + self.entries().skip(p)
        }
    }

    /// Entries name distinct nodes: two positions in `order` never share one.
    proof fn lemma_order_distinct(&self, j1: int, j2: int)
        requires
            self.wf(),
            0 <= j1 < self.order@.len(),
            0 <= j2 < self.order@.len(),
            j1 != j2,
        ensures
            self.order@[j1] != self.order@[j2],
    {
        if self.order@[j1] == self.order@[j2] {
            if j1 < j2 {
                C::lemma_reflexive(self.key_at(self.order@[j1] as int));
            } else {
                C::lemma_reflexive(self.key_at(self.order@[j1] as int));
            }
        }
    }

    /// The level-0 straddle pins the insertion position: everything below
    /// `pos` orders before the key, everything from `pos` on after it, and
    /// the pair's two ends are the neighbours of `pos` in `order`.
    pub proof fn lemma_straddle(&self, pair0: (usize, usize), pos: int, ks: Seq<u8>)
        requires
            self.wf(),
            self.pair_ok(pair0, 0, ks),
            !self.has_key(ks),
            pos == if pair0.0 == 0 {
                0int
            } else {
                (choose|j: int| 0 <= j < self.order@.len() && self.order@[j] == pair0.0) + 1
            },
        ensures
            0 <= pos <= self.entries().len(),
            pair0.0 == (if pos == 0 {
                0
            } else {
                self.order@[pos - 1]
            }),
            pair0.1 == (if pos == self.entries().len() {
                NIL
            } else {
                self.order@[pos]
            }),
            forall|a: int| 0 <= a < pos ==> lt::<C>((#[trigger] self.entries()[a]).0, ks),
            forall|b: int|
                pos <= b < self.entries().len() ==> lt::<C>(ks, (#[trigger] self.entries()[b]).0),
            Self::count_lt(self.entries(), ks) == pos,
    {
        let n = self.nodes@.len() as int;
        let oo = self.order@;
        let oe = self.entries();
        let prev = pair0.0;
        let nxt = pair0.1;
        if prev == 0 {
            assert(pos == 0);
            if oo.len() > 0 {
                assert(nxt == oo[0]);
                assert forall|b: int| pos <= b < oe.len() implies lt::<C>(
                    ks,
                    (#[trigger] oe[b]).0,
                ) by {
                    if b > 0 {
                        C::lemma_transitive(
                            ks,
                            self.key_at(oo[0] as int),
                            self.key_at(oo[b] as int),
                        );
                    }
                }
            } else {
                assert(nxt == NIL);
            }
        } else {
            assert(self.order@.contains(prev));
            let jp = choose|j: int| 0 <= j < self.order@.len() && self.order@[j] == pair0.0;
            assert(pos == jp + 1);
            assert(self.nodes@[oo[jp] as int].next@[0] == (if jp == n - 2 {
                NIL
            } else {
                oo[jp + 1]
            }));
            assert forall|a: int| 0 <= a < pos implies lt::<C>((#[trigger] oe[a]).0, ks) by {
                if a < jp {
                    C::lemma_transitive(
                        self.key_at(oo[a] as int),
                        self.key_at(oo[jp] as int),
                        ks,
                    );
                }
            }
            if jp == n - 2 {
                assert(nxt == NIL);
                assert(pos == oe.len());
            } else {
                assert(nxt == oo[jp + 1]);
                assert forall|b: int| pos <= b < oe.len() implies lt::<C>(
                    ks,
                    (#[trigger] oe[b]).0,
                ) by {
                    if b > pos {
                        C::lemma_transitive(
                            ks,
                            self.key_at(oo[pos] as int),
                            self.key_at(oo[b] as int),
                        );
                    }
                }
            }
        }
        assert forall|b: int| pos <= b < oe.len() implies !lt::<C>((#[trigger] oe[b]).0, ks) by {
            C::lemma_flip(ks, oe[b].0);
        }
        Self::lemma_count_lt_boundary(oe, ks, pos);
    }

    /// What a point lookup yields: the value stored under a key equivalent
    /// to `k`, if one is present.
    pub open spec fn spec_seek(&self, k: Seq<u8>) -> Option<Seq<u8>> {
        if self.has_key(k) {
            Some(self.entries()[Self::count_lt(self.entries(), k)].1)
        } else {
            None
        }
    }

    /// Every forward link of a valid node is `NIL` or lands on a valid,
    /// tall-enough node further along the order.
    pub proof fn lemma_link_valid(&self, i: int, k: int)
        requires
            self.wf(),
            0 <= i < self.nodes@.len(),
            0 <= k <= self.nodes@[i].height,
        ensures
            self.link_ok(i, k),
    {
        self.lemma_step(i, k);
    }

    /// However many entries order below `k`, they are a prefix count.
    pub proof fn lemma_count_lt_bounds(entries: Seq<(Seq<u8>, Seq<u8>)>, k: Seq<u8>)
        ensures
            0 <= Self::count_lt(entries, k) <= entries.len(),
        decreases entries.len(),
    {
        if entries.len() > 0 {
            Self::lemma_count_lt_bounds(entries.drop_last(), k);
        }
    }

    /// In a sorted run, the entries ordering strictly below `k` are exactly
    /// the first `count_lt` of them.
    pub proof fn lemma_count_lt_split(es: Seq<(Seq<u8>, Seq<u8>)>, k: Seq<u8>)
        requires
            forall|a: int, b: int|
                0 <= a < b < es.len() ==> lt::<C>((#[trigger] es[a]).0, (#[trigger] es[b]).0),
        ensures
            forall|j: int|
                0 <= j < es.len() ==> (lt::<C>((#[trigger] es[j]).0, k) <==> j < Self::count_lt(
                    es,
                    k,
                )),
        decreases es.len(),
    {
        Self::lemma_count_lt_bounds(es, k);
        if es.len() > 0 {
            let d = es.drop_last();
            let last = es.last();
            assert(forall|j: int| 0 <= j < d.len() ==> d[j] == es[j]);
            Self::lemma_count_lt_split(d, k);
            Self::lemma_count_lt_bounds(d, k);
            let cd = Self::count_lt(d, k);
            if lt::<C>(last.0, k) {
                assert forall|j: int| 0 <= j < es.len() - 1 implies lt::<C>(
                    (#[trigger] es[j]).0,
                    k,
                ) by {
                    C::lemma_transitive(es[j].0, last.0, k);
                }
                if cd < d.len() {
                    assert(lt::<C>(d[cd].0, k));
                    assert(false);
                }
            }
        }
    }

    /// The entries stand in strictly ascending key order: what `iter` walks.
    pub proof fn lemma_entries_sorted(&self, a: int, b: int)
        requires
            self.wf(),
            0 <= a < b < self.entries().len(),
        ensures
            lt::<C>(self.entries()[a].0, self.entries()[b].0),
    {
    }

    /// A pair just inserted is found again: after an insert of `(k, v)` into
    /// a list without `k`, a point lookup of `k` yields `v`. A key the list
    /// does not hold is never found: `spec_seek` is `None` on it.
    pub proof fn lemma_insert_then_seek(pre: Self, post: Self, k: Seq<u8>, v: Seq<u8>)
        requires
            pre.wf(),
            post.wf(),
            !pre.has_key(k),
            post.entries() == pre.spec_insert(k, v),
        ensures
            post.spec_seek(k) == Some(v),
    {
        let cnt = Self::count_lt(pre.entries(), k);
        Self::lemma_count_lt_bounds(pre.entries(), k);
        assert(post.entries()[cnt] == (k, v));
        C::lemma_reflexive(k);
        assert(eqv::<C>(post.entries()[cnt].0, k));
        assert(post.has_key(k));
        post.lemma_found_pos(cnt, k);
    }

    /// Membership after an insert: the keys present are exactly the keys
    /// present before, plus the inserted one. In particular, inserts commute
    /// on membership, whatever order concurrent writers are serialised in.
    pub proof fn lemma_insert_membership(pre: Self, post: Self, k: Seq<u8>, v: Seq<u8>, k2: Seq<u8>)
        requires
            pre.wf(),
            post.entries() == pre.spec_insert(k, v),
        ensures
            post.has_key(k2) <==> (pre.has_key(k2) || eqv::<C>(k, k2)),
    {
        let oe = pre.entries();
        let ne = post.entries();
        if pre.has_key(k) {
            // the earlier entry won: the contents are unchanged, and the
            // inserted key was already represented
            if eqv::<C>(k, k2) {
                let q = choose|j: int| 0 <= j < oe.len() && eqv::<C>(oe[j].0, k);
                C::lemma_equal_congruent(oe[q].0, k, k2);
            }
        } else {
            let cnt = Self::count_lt(oe, k);
            Self::lemma_count_lt_bounds(oe, k);
            assert(ne.len() == oe.len() + 1);
            assert forall|j: int| 0 <= j < ne.len() implies #[trigger] ne[j] == (if j < cnt {
                oe[j]
            } else if j == cnt {
                (k, v)
            } else {
                oe[j - 1]
            }) by {}
            if post.has_key(k2) {
                let q = choose|j: int| 0 <= j < ne.len() && eqv::<C>(ne[j].0, k2);
                if q != cnt {
                    let q0 = if q < cnt {
                        q
                    } else {
                        q - 1
                    };
                    assert(eqv::<C>(oe[q0].0, k2));
                }
            }
            if pre.has_key(k2) {
                let q = choose|j: int| 0 <= j < oe.len() && eqv::<C>(oe[j].0, k2);
                if q < cnt {
                    assert(eqv::<C>(ne[q].0, k2));
                } else {
                    assert(eqv::<C>(ne[q + 1].0, k2));
                }
            }
            if eqv::<C>(k, k2) {
                assert(eqv::<C>(ne[cnt].0, k2));
            }
        }
    }

    /// Other keys are untouched by an insert: a lookup of any key not
    /// equivalent to the inserted one answers exactly as before. With
    /// `lemma_insert_then_seek` and `lemma_insert_membership`, the contents
    /// after any insert sequence are pinned key by key: nothing is lost,
    /// nothing duplicated, and the first value stored under a key wins.
    pub proof fn lemma_insert_preserves_seek(
        pre: Self,
        post: Self,
        k: Seq<u8>,
        v: Seq<u8>,
        k2: Seq<u8>,
    )
        requires
            pre.wf(),
            post.wf(),
            post.entries() == pre.spec_insert(k, v),
            !eqv::<C>(k, k2),
        ensures
            post.spec_seek(k2) == pre.spec_seek(k2),
    {
        Self::lemma_insert_membership(pre, post, k, v, k2);
        let oe = pre.entries();
        let ne = post.entries();
        if pre.has_key(k2) {
            pre.lemma_has_key_at_count(k2);
            let q = Self::count_lt(oe, k2);
            if pre.has_key(k) {
                // the earlier entry won: the contents are unchanged
            } else {
                let cnt = Self::count_lt(oe, k);
                Self::lemma_count_lt_bounds(oe, k);
                assert forall|j: int| 0 <= j < ne.len() implies #[trigger] ne[j] == (if j < cnt {
                    oe[j]
                } else if j == cnt {
                    (k, v)
                } else {
                    oe[j - 1]
                }) by {}
                let q2 = if q < cnt {
                    q
                } else {
                    q + 1
                };
                assert(ne[q2] == oe[q]);
                post.lemma_found_pos(q2, k2);
            }
        }
    }

    /// An entry equivalent to `k` sits exactly where the strictly-smaller
    /// entries end.
    pub proof fn lemma_found_pos(&self, q: int, ks: Seq<u8>)
        requires
            self.wf(),
            0 <= q < self.entries().len(),
            eqv::<C>(self.entries()[q].0, ks),
        ensures
            Self::count_lt(self.entries(), ks) == q,
    {
        let oe = self.entries();
        assert forall|a: int| 0 <= a < q implies lt::<C>((#[trigger] oe[a]).0, ks) by {
            C::lemma_equal_congruent(oe[q].0, ks, oe[a].0);
            C::lemma_flip(oe[a].0, oe[q].0);
            C::lemma_flip(oe[a].0, ks);
        }
        assert forall|b: int| q <= b < oe.len() implies !lt::<C>((#[trigger] oe[b]).0, ks) by {
            if b == q {
                C::lemma_flip(oe[b].0, ks);
            } else {
                C::lemma_equal_congruent(oe[q].0, ks, oe[b].0);
                C::lemma_flip(ks, oe[b].0);
            }
        }
        Self::lemma_count_lt_boundary(oe, ks, q);
    }

    /// Whenever the list holds a key equivalent to `k`, that entry stands at
    /// position `count_lt` — what `seek` finds.
    pub proof fn lemma_has_key_at_count(&self, ks: Seq<u8>)
        requires
            self.wf(),
            self.has_key(ks),
        ensures
            0 <= Self::count_lt(self.entries(), ks) < self.entries().len(),
            eqv::<C>(self.entries()[Self::count_lt(self.entries(), ks)].0, ks),
    {
        let q = choose|j: int|
            0 <= j < self.entries().len() && eqv::<C>(self.entries()[j].0, ks);
        self.lemma_found_pos(q, ks);
    }

    /// In a run where everything below `p` orders before `k` and nothing from
    /// `p` on does, exactly `p` entries order before `k`.
    proof fn lemma_count_lt_boundary(entries: Seq<(Seq<u8>, Seq<u8>)>, k: Seq<u8>, p: int)
        requires
            0 <= p <= entries.len(),
            forall|a: int| 0 <= a < p ==> lt::<C>((#[trigger] entries[a]).0, k),
            forall|b: int| p <= b < entries.len() ==> !lt::<C>((#[trigger] entries[b]).0, k),
        ensures
            Self::count_lt(entries, k) == p,
        decreases entries.len(),
    {
        if entries.len() > 0 {
            let d = entries.drop_last();
            assert(forall|a: int| 0 <= a < d.len() ==> d[a] == entries[a]);
            if p == entries.len() {
                Self::lemma_count_lt_boundary(d, k, p - 1);
            } else {
                Self::lemma_count_lt_boundary(d, k, p);
            }
        }
    }
}

/// A mutable borrow of one node of the table.
fn node_at_mut(nodes: &mut Vec<Node>, i: usize) -> (r: &mut Node)
    requires
        i < old(nodes).len(),
    ensures
        *r == old(nodes)@[i as int],
        final(nodes)@ == old(nodes)@.update(i as int, *final(r)),
{
    &mut nodes[i]
}

impl<C: Comparator, L: LevelGenerator> SkipList<C, L> {
    /// Publish `(key, value)`. With an equivalent key already present the
    /// insert is a no-op; otherwise the pair enters at its ordered position,
    /// linked into levels `0..=h` for a freshly drawn height `h`.
    #[verifier::loop_isolation(false)]
    #[verifier::rlimit(60)]
    pub fn insert(&mut self, key: Vec<u8>, value: Vec<u8>)
        requires
            old(self).wf(),
            old(self).entries().len() + 2 < NIL,
        ensures
            final(self).wf(),
            final(self).entries() == old(self).spec_insert(key@, value@),
            final(self).max_level == old(self).max_level,
            final(self).height >= old(self).height,
            // the accounted memory never shrinks; a no-op insert leaves the
            // list untouched, a real one charges at least the payload and a
            // node header, saturating only at the machine limit
            (old(self).has_key(key@) ==> *final(self) == *old(self)),
            (!old(self).has_key(key@) ==> final(self).memory == usize::MAX || final(self).memory
                >= old(self).memory + key@.len() + value@.len() + 48),
    {
        let ghost ks = key@;
        let ghost vs = value@;
        let ghost on = self.nodes@;
        let ghost oo = self.order@;
        let ghost oe = self.entries();
        let ghost n = on.len() as int;
        let path = match self.find_position(key.as_slice()) {
            None => {
                return ;
            },
            Some(p) => p,
        };
        let h = self.height;
        // The straddle at level 0 fixes the insertion position.
        let pair0 = path[h];
        let ghost pos: int = if pair0.0 == 0 {
            0
        } else {
            (choose|j: int| 0 <= j < self.order@.len() && self.order@[j] == pair0.0) + 1
        };
        proof {
            assert(self.pair_ok(path@[self.height - 0], 0, ks));
            assert(pair0 == path@[h as int]);
            self.lemma_straddle(pair0, pos, ks);
            assert forall|j1: int, j2: int|
                0 <= j1 < oo.len() && 0 <= j2 < oo.len() && j1 != j2 implies oo[j1] != oo[j2] by {
                self.lemma_order_distinct(j1, j2);
            }
        }
        let node_level = self.level_generator.generate_level();
        let klen = key.len();
        let vlen = value.len();
        // The new node's forward links come straight from the straddles;
        // above the list's height everything is open, so they are NIL.
        let mut links: Vec<usize> = Vec::new();
        let mut k: usize = 0;
        while k <= node_level
            invariant
                k <= node_level + 1,
                node_level < usize::MAX,
                links@.len() == k,
                h == self.height,
                path@.len() == h + 1,
                forall|m: int|
                    0 <= m < k ==> #[trigger] links@[m] == (if m <= h {
                        path@[h - m].1
                    } else {
                        NIL
                    }),
            decreases node_level + 1 - k,
        {
            let nk = if k <= h {
                path[h - k].1
            } else {
                NIL
            };
            links.push(nk);
            k = k + 1;
        }
        let idx = self.nodes.len();
        let node = Node { key, value, height: node_level, next: links, head: false };
        self.nodes.push(node);
        // Splice: point each level's predecessor at the new node.
        let mut k: usize = 0;
        while k <= node_level
            invariant
                k <= node_level + 1,
                idx == n,
                1 <= n < NIL,
                self.nodes@.len() == n + 1,
                h == self.height,
                h <= self.max_level,
                node_level <= self.max_level < usize::MAX,
                path@.len() == h + 1,
                forall|m: int| 0 <= m <= h ==> old(self).pair_ok(#[trigger] path@[h - m], m, ks),
                self.nodes@[n].key@ == ks,
                self.nodes@[n].value@ == vs,
                self.nodes@[n].height == node_level,
                self.nodes@[n].head == false,
                self.nodes@[n].next@.len() == node_level + 1,
                forall|m: int|
                    0 <= m <= node_level ==> #[trigger] self.nodes@[n].next@[m] == (if m <= h {
                        path@[h - m].1
                    } else {
                        NIL
                    }),
                forall|i: int|
                    0 <= i < n ==> (#[trigger] self.nodes@[i]).key == on[i].key
                        && self.nodes@[i].value == on[i].value && self.nodes@[i].height
                        == on[i].height && self.nodes@[i].head == on[i].head
                        && self.nodes@[i].next@.len() == on[i].next@.len(),
                forall|i: int, m: int|
                    0 <= i < n && 0 <= m < on[i].next@.len()
                        ==> #[trigger] self.nodes@[i].next@[m] == (if m < k && i == (if m <= h {
                        path@[h - m].0
                    } else {
                        0
                    }) {
                        idx
                    } else {
                        on[i].next@[m]
                    }),
                self.order@ == oo,
                self.len == n - 1,
                self.max_level == old(self).max_level,
                self.level_generator == old(self).level_generator,
                self.memory == old(self).memory,
                self.height == old(self).height,
            decreases node_level + 1 - k,
        {
            let prev_k = if k <= h {
                path[h - k].0
            } else {
                0
            };
            let ghost pn = self.nodes@;
            proof {
                if k <= h {
                    assert(old(self).pair_ok(path@[h - k], k as int, ks));
                    assert((prev_k as int) < n);
                }
                assert(pn[prev_k as int].height == on[prev_k as int].height);
                assert(pn[prev_k as int].next@.len() == on[prev_k as int].next@.len());
                assert(on[prev_k as int].wf());
                assert(k <= pn[prev_k as int].height);
            }
            let nd = node_at_mut(&mut self.nodes, prev_k);
            nd.set_next(k, idx);
            proof {
                assert(self.nodes@[prev_k as int].next@ == pn[prev_k as int].next@.update(
                    k as int,
                    idx,
                ));
                assert(forall|i: int|
                    0 <= i < n + 1 && i != prev_k ==> self.nodes@[i] == pn[i]);
                assert forall|i: int, m: int|
                    0 <= i < n && 0 <= m < on[i].next@.len()
                        implies #[trigger] self.nodes@[i].next@[m] == (if m < k + 1 && i == (if m
                    <= h {
                    path@[h - m].0
                } else {
                    0
                }) {
                    idx
                } else {
                    on[i].next@[m]
                }) by {
                    if i == prev_k && m == k as int {
                    } else if i == prev_k {
                        assert(self.nodes@[i].next@[m] == pn[i].next@[m]);
                    } else {
                        assert(self.nodes@[i] == pn[i]);
                    }
                }
            }
            k = k + 1;
        }
        self.len = self.len + 1;
        if node_level > self.height {
            self.height = node_level;
        }
        // Account what a packed node layout consumes: payload bytes, a
        // fixed header, and one word per forward link.
        let level_bytes: usize = if node_level < 4096 {
            8 * (node_level + 1)
        } else {
            8 * 4096
        };
        let footprint = sat_add(sat_add(klen, vlen), sat_add(40, level_bytes));
        self.memory = sat_add(self.memory, footprint);

        proof {
            self.order@ = oo.take(pos) + seq![idx as usize] + oo.skip(pos);
        }
        proof {
            let no = self.order@;
            let nn = self.nodes@;
            let n1 = nn.len() as int;
            let cnt = Self::count_lt(oe, ks);
            assert(cnt == pos);
            assert(no.len() == n);
            // where each new position comes from
            assert forall|j: int| 0 <= j < n implies (#[trigger] no[j]) == (if j < pos {
                oo[j]
            } else if j == pos {
                idx as usize
            } else {
                oo[j - 1]
            }) by {}
            // keys and values carried over node by node
            assert forall|i: int| 0 <= i < n implies self.key_at(i) == old(self).key_at(i)
                && self.val_at(i) == old(self).val_at(i) by {}
            // membership: every payload node is on the new order
            assert forall|i: usize| 1 <= i < n1 implies no.contains(i) by {
                if i as int == idx as int {
                    assert(no[pos] == i);
                } else {
                    assert(oo.contains(i));
                    let j = choose|j: int| 0 <= j < oo.len() && oo[j] == i;
                    if j < pos {
                        assert(no[j] == i);
                    } else {
                        assert(no[j + 1] == i);
                    }
                }
            }
            // sortedness around the spliced entry
            assert forall|a: int, b: int| 0 <= a < b < n implies lt::<C>(
                self.key_at(#[trigger] no[a] as int),
                self.key_at(#[trigger] no[b] as int),
            ) by {
                if a == pos {
                    assert(lt::<C>(ks, oe[b - 1].0));
                } else if b == pos {
                    assert(lt::<C>(oe[a].0, ks));
                } else {
                    let a0 = if a < pos { a } else { a - 1 };
                    let b0 = if b < pos { b } else { b - 1 };
                    assert(lt::<C>(
                        old(self).key_at(oo[a0] as int),
                        old(self).key_at(oo[b0] as int),
                    ));
                }
            }
            // the level-0 chain now walks the new order
            assert(self.chain0_ok()) by {
                let p0 = if 0 <= h { path@[h as int].0 } else { 0 };
                assert forall|j: int| 0 <= j < n1 - 1 implies (
                #[trigger] self.nodes@[no[j] as int].next@[0]) == (if j == n1 - 2 {
                    NIL
                } else {
                    no[j + 1]
                }) by {
                    if j < pos - 1 {
                        assert(oo[j] != oo[pos - 1]);
                        assert(old(self).nodes@[oo[j] as int].next@[0] == oo[j + 1]);
                    } else if j == pos - 1 {
                        assert(no[j] == oo[pos - 1] && oo[pos - 1] == p0);
                    } else if j == pos {
                        assert(no[j] == idx as usize);
                    } else {
                        if pos >= 1 {
                            assert(oo[j - 1] != oo[pos - 1]);
                        }
                        assert(old(self).nodes@[oo[j - 1] as int].next@[0] == (if j - 1 == n - 2 {
                            NIL
                        } else {
                            oo[j]
                        }));
                    }
                }
                if pos == 0 {
                    assert(self.nodes@[0].next@[0] == idx as usize);
                } else {
                    assert(self.nodes@[0].next@[0] == oo[0]);
                }
            }
            // every forward link still lands ahead on a taller-or-equal node
            assert forall|i: int, m: int|
                0 <= i < n1 && 1 <= m <= self.nodes@[i].height implies #[trigger] self.link_ok(
                i,
                m,
            ) by {
                if i == idx as int {
                    if m <= h {
                        assert(old(self).pair_ok(path@[h - m], m, ks));
                    }
                } else {
                    let pm = if m <= h {
                        path@[h - m].0
                    } else {
                        0
                    };
                    if m <= node_level as int && i == pm {
                    } else {
                        assert(self.nodes@[i].next@[m] == on[i].next@[m]);
                        assert(old(self).link_ok(i, m));
                    }
                }
            }
            // links above the new height are still open
            assert forall|m: int|
                self.height < m <= self.max_level implies self.nodes@[0].next@[m] == NIL by {
                assert(self.nodes@[0].next@[m] == on[0].next@[m]);
            }
            assert(self.wf());
            // the contents are the old entries with the pair spliced in
            assert(self.entries() =~= oe.take(pos) + seq![(ks, vs)] + oe.skip(pos));
            assert(self.entries() == old(self).spec_insert(ks, vs));
        }
    }

    /// An ordered iterator over the contents, from the smallest key.
    pub fn iter<'a>(&'a self) -> (r: crate::iter::SkipListIterator<'a, C, L>)
        requires
            self.wf(),
        ensures
            r.wf(),
            r.list == self,
            r.yielded@ == 0,
    {
        crate::iter::SkipListIterator::new(self)
    }

    /// A cursor positioned on the head, ready to seek.
    pub fn visitor<'a>(&'a self) -> (r: crate::iter::SkipListVisitor<'a, C, L>)
        requires
            self.wf(),
        ensures
            r.wf(),
            r.internal_visitor.list == self,
            r.internal_visitor.valid,
            r.internal_visitor.current == 0,
    {
        crate::iter::SkipListVisitor::new(
            crate::iter::SkipListInternalVisitor::create(self, self.height),
        )
    }
}

} // verus!
