//! Skip-list nodes. A node owns its key and value bytes and a forward link
//! per level up to its height; links are indices into the list's node table,
//! `NIL` marking the end of a level's chain. The sentinel head node carries
//! no payload.

use vstd::prelude::*;

verus! {

/// The null link: no successor at this level.
pub const NIL: usize = usize::MAX;

pub struct Node {
    pub key: Vec<u8>,
    pub value: Vec<u8>,
    pub height: usize,
    pub next: Vec<usize>,
    pub head: bool,
}

/// `n` links, all `NIL`.
fn nil_links(n: usize) -> (r: Vec<usize>)
    ensures
        r@.len() == n,
        forall|i: int| 0 <= i < n ==> r@[i] == NIL,
{
    let mut links: Vec<usize> = Vec::new();
    let mut i: usize = 0;
    while i < n
        invariant
            i <= n,
            links@.len() == i,
            forall|k: int| 0 <= k < i ==> links@[k] == NIL,
        decreases n - i,
    {
        links.push(NIL);
        i = i + 1;
    }
    links
}

impl Node {
    /// A node participates in levels `0..=height`.
    pub open spec fn wf(self) -> bool {
        self.next@.len() == self.height + 1
    }

    /// A fresh payload node of the given height, not yet linked anywhere.
    pub fn new(key: Vec<u8>, value: Vec<u8>, height: usize) -> (r: Node)
        requires
            height < usize::MAX,
        ensures
            r.wf(),
            r.key == key,
            r.value == value,
            r.height == height,
            !r.head,
            forall|k: int| 0 <= k <= height ==> r.next@[k] == NIL,
    {
        Node { key, value, height, next: nil_links(height + 1), head: false }
    }

    /// The sentinel head: no payload, full height, ordered before every key.
    pub fn head(height: usize) -> (r: Node)
        requires
            height < usize::MAX,
        ensures
            r.wf(),
            r.key@.len() == 0,
            r.value@.len() == 0,
            r.height == height,
            r.head,
            forall|k: int| 0 <= k <= height ==> r.next@[k] == NIL,
    {
        Node { key: Vec::new(), value: Vec::new(), height, next: nil_links(height + 1), head: true }
    }

    /// The successor at `level`, `NIL` above this node's height.
    pub fn next(&self, level: usize) -> (r: usize)
        requires
            self.wf(),
        ensures
            r == (if level <= self.height {
                self.next@[level as int]
            } else {
                NIL
            }),
    {
        if level <= self.height {
            self.next[level]
        } else {
            NIL
        }
    }

    /// Point the link at `level` to `node`.
    pub fn set_next(&mut self, level: usize, node: usize)
        requires
            old(self).wf(),
            level <= old(self).height,
        ensures
            final(self).key == old(self).key,
            final(self).value == old(self).value,
            final(self).height == old(self).height,
            final(self).head == old(self).head,
            final(self).next@ == old(self).next@.update(level as int, node),
            final(self).wf(),
    {
        self.next.set(level, node);
    }

    pub fn is_head(&self) -> (r: bool)
        ensures
            r == self.head,
    {
        self.head
    }

    /// The payload key; the sentinel has none.
    pub fn key(&self) -> (r: Option<&Vec<u8>>)
        ensures
            match r {
                Some(k) => !self.head && k@ == self.key@,
                None => self.head,
            },
    {
        if self.head {
            None
        } else {
            Some(&self.key)
        }
    }

    /// The payload value; the sentinel has none.
    pub fn value(&self) -> (r: Option<&Vec<u8>>)
        ensures
            match r {
                Some(v) => !self.head && v@ == self.value@,
                None => self.head,
            },
    {
        if self.head {
            None
        } else {
            Some(&self.value)
        }
    }

    pub fn height(&self) -> (r: usize)
        ensures
            r == self.height,
    {
        self.height
    }
}

} // verus!
