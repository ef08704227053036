//! The nodes of a list in memory.
//!
//! Nodes live in numbered slots. The address of slot `s` is `2 * (s + 1)`:
//! even, so that the low bit of a pointer to it is free for the mark, and
//! never null. A chain is the head pointer, the slots, the slots that are
//! free for reuse, and the order in which the linked slots are reached from
//! the head. Each operation here is one atomic step of a list algorithm.

use vstd::prelude::*;
use crate::tagged::TaggedPtr;
use crate::model::{
    Entry, sorted, cut, pairs, lemma_view_cut, lemma_view_insert, lemma_pairs_step,
};

verus! {

/// The number of slots that a chain can address.
pub const MAX_SLOTS: usize = usize::MAX / 2 - 1;

/// A node: an immutable key, the value while the node is live, and the
/// pointer to the successor, whose mark says that this node is logically
/// deleted.
pub struct Node<V> {
    pub key: i32,
    pub value: Option<V>,
    pub next: TaggedPtr,
}

/// A place that holds a pointer to a node: the head of the list, or the
/// `next` field of the node at the given address.
#[derive(Clone, Copy, Debug, PartialEq, Eq, Structural)]
pub enum Link {
    Head,
    Next(usize),
}

/// Where a traversal stands: the link it came through, and the pointer that
/// it last read from that link.
#[derive(Clone, Copy, Debug)]
pub struct Cursor {
    pub prev: Link,
    pub curr: TaggedPtr,
}

/// The address of a slot.
pub open spec fn addr_of(slot: int) -> usize {
    (2 * (slot + 1)) as usize
}

/// The memory of one list: head, slots, free slots, and the order in which
/// the linked slots are reached.
pub struct Chain<V> {
    head: TaggedPtr,
    nodes: Vec<Node<V>>,
    free: Vec<usize>,
    order: Ghost<Seq<int>>,
}

impl<V> Chain<V> {
    /// The slots of the nodes reachable from the head, in the order in which
    /// they are reached.
    pub closed spec fn slots(&self) -> Seq<int> {
        self.order@
    }

    /// The reachable nodes, in order.
    pub closed spec fn entries(&self) -> Seq<Entry<V>> {
        Seq::new(
            self.order@.len(),
            |i: int|
                Entry { key: self.nodes@[self.order@[i]].key, value: self.nodes@[self.order@[i]].value },
        )
    }

    /// How many slots have been allocated so far, free ones included.
    pub closed spec fn allocated(&self) -> nat {
        self.nodes@.len()
    }

    /// The slots that are free for reuse, in the order in which they were
    /// handed back; the next node to be linked in takes the last of them.
    pub closed spec fn reusable(&self) -> Seq<usize> {
        self.free@
    }

    /// The address that the link at position `p` must hold: that of the node
    /// at `p`, or null behind the last node.
    pub open spec fn target(&self, p: int) -> usize {
        if 0 <= p < self.slots().len() {
            addr_of(self.slots()[p])
        } else {
            0
        }
    }

    /// `link` is the link that leads to position `p`: the head for the first
    /// position, else the `next` field of the node before it.
    pub open spec fn is_link(&self, link: Link, p: int) -> bool {
        &&& 0 <= p <= self.slots().len()
        &&& link == if p == 0 {
            Link::Head
        } else {
            Link::Next(addr_of(self.slots()[p - 1]))
        }
    }

    /// `ptr` addresses the node at position `p`, or is null with `p` behind
    /// the last node. The mark of `ptr` is not looked at.
    pub open spec fn points(&self, ptr: TaggedPtr, p: int) -> bool {
        &&& 0 <= p <= self.slots().len()
        &&& ptr.addr() == self.target(p)
    }

    /// The mark on the link that leads to position `p`: that of the node
    /// before it, and 0 on the head.
    pub open spec fn mark_before(&self, p: int) -> usize {
        if 0 < p <= self.entries().len() && !self.entries()[p - 1].live() {
            1
        } else {
            0
        }
    }

    /// A cursor stands at position `p`: its link leads there through a live
    /// node or the head, and its pointer is the unmarked one to that node.
    pub open spec fn at(&self, cursor: Cursor, p: int) -> bool {
        &&& self.is_link(cursor.prev, p)
        &&& self.points(cursor.curr, p)
        &&& cursor.curr.mark() == 0
        &&& self.mark_before(p) == 0
    }

    spec fn linked(&self) -> bool {
        let order = self.order@;
        &&& forall|i: int| 0 <= i < order.len() ==> 0 <= #[trigger] order[i] < self.nodes@.len()
        &&& self.head.addr() == self.target(0)
        &&& self.head.mark() == 0
        &&& forall|i: int|
            0 <= i < order.len() ==> (#[trigger] self.nodes@[order[i]]).next.addr() == self.target(
                i + 1,
            )
        &&& forall|i: int|
            0 <= i < order.len() ==> ((#[trigger] self.nodes@[order[i]]).value is None
                <==> self.nodes@[order[i]].next.mark() == 1)
    }

    spec fn spare(&self) -> bool {
        let free = self.free@;
        &&& forall|k: int|
            0 <= k < free.len() ==> (#[trigger] free[k]) < self.nodes@.len()
                && !self.order@.contains(free[k] as int) && self.nodes@[free[k] as int].value is None
        &&& forall|k: int, l: int| 0 <= k < l < free.len() ==> free[k] != free[l]
    }

    /// The chain is well formed: the links lead from the head through the
    /// slots in order and end in null, keys strictly increase, a node holds a
    /// value exactly while it is unmarked, and no free slot is linked.
    pub closed spec fn wf(&self) -> bool {
        &&& self.nodes@.len() <= MAX_SLOTS
        &&& self.linked()
        &&& sorted(self.entries())
        &&& self.spare()
    }

    /// The slots in `run` are unlinked and not yet freed: each is marked and
    /// empty, and their `next` fields lead through the run to `end`.
    pub closed spec fn detached(&self, run: Seq<int>, end: TaggedPtr) -> bool {
        &&& forall|i: int|
            0 <= i < run.len() ==> {
                &&& 0 <= #[trigger] run[i] < self.nodes@.len()
                &&& !self.order@.contains(run[i])
                &&& !self.free@.contains(run[i] as usize)
                &&& self.nodes@[run[i]].value is None
                &&& self.nodes@[run[i]].next.mark() == 1
                &&& self.nodes@[run[i]].next.addr() == if i + 1 < run.len() {
                    addr_of(run[i + 1])
                } else {
                    end.addr()
                }
                &&& addr_of(run[i]) != end.addr()
            }
        &&& forall|i: int, j: int| 0 <= i < j < run.len() ==> run[i] != run[j]
    }

    /// What well-formedness says of the model.
    pub proof fn lemma_shape(&self)
        requires
            self.wf(),
        ensures
            self.entries().len() == self.slots().len(),
            sorted(self.entries()),
            self.allocated() <= MAX_SLOTS,
            forall|i: int| 0 <= i < self.slots().len() ==> 0 <= #[trigger] self.slots()[i] < MAX_SLOTS,
            forall|i: int, j: int|
                0 <= i < j < self.slots().len() ==> self.slots()[i] != self.slots()[j],
    {
        assert forall|i: int, j: int| 0 <= i < j < self.slots().len() implies self.slots()[i]
            != self.slots()[j] by {
            assert(self.entries()[i].key < self.entries()[j].key);
        }
    }

    /// A detached node is not the node at which its run ends.
    pub proof fn lemma_detached_head(&self, run: Seq<int>, end: TaggedPtr)
        requires
            self.detached(run, end),
            run.len() > 0,
        ensures
            addr_of(run[0]) != end.addr(),
    {
    }

    /// The empty chain.
    pub fn new() -> (c: Self)
        ensures
            c.wf(),
            c.entries() == Seq::<Entry<V>>::empty(),
            c.slots() == Seq::<int>::empty(),
            c.allocated() == 0,
    {
        let c = Chain {
            head: TaggedPtr::null_ptr(),
            nodes: Vec::new(),
            free: Vec::new(),
            order: Ghost(Seq::empty()),
        };
        proof {
            TaggedPtr::lemma_make(0, 0);
            assert(c.entries() =~= Seq::<Entry<V>>::empty());
        }
        c
    }

    fn slot_at(&self, ptr: TaggedPtr, Ghost(p): Ghost<int>) -> (s: usize)
        requires
            self.wf(),
            self.points(ptr, p),
            p < self.slots().len(),
        ensures
            s == self.slots()[p],
            s < self.nodes@.len(),
    {
        ptr.address() / 2 - 1
    }

    /// Reads the pointer that a link holds.
    pub fn load(&self, link: Link, Ghost(p): Ghost<int>) -> (r: TaggedPtr)
        requires
            self.wf(),
            self.is_link(link, p),
        ensures
            self.points(r, p),
            r.mark() == self.mark_before(p),
    {
        match link {
            Link::Head => self.head,
            Link::Next(a) => {
                let s: usize = a / 2 - 1;
                assert(s == self.order@[p - 1]);
                assert(self.nodes@[self.order@[p - 1]].next.addr() == self.target(p));
                assert(self.entries()[p - 1].value == self.nodes@[self.order@[p - 1]].value);
                proof {
                    self.nodes@[s as int].next.lemma_parts();
                }
                self.nodes[s].next
            },
        }
    }

    /// Reads the key of the node at position `p`.
    pub fn key_of(&self, ptr: TaggedPtr, Ghost(p): Ghost<int>) -> (k: i32)
        requires
            self.wf(),
            self.points(ptr, p),
            p < self.slots().len(),
        ensures
            k == self.entries()[p].key,
    {
        let s = self.slot_at(ptr, Ghost(p));
        self.nodes[s].key
    }

    /// Reads the `next` field of the node at position `p`.
    pub fn next_of(&self, ptr: TaggedPtr, Ghost(p): Ghost<int>) -> (r: TaggedPtr)
        requires
            self.wf(),
            self.points(ptr, p),
            p < self.slots().len(),
        ensures
            self.points(r, p + 1),
            r.mark() == self.mark_before(p + 1),
            r.mark() == 0 <==> self.entries()[p].live(),
    {
        let s = self.slot_at(ptr, Ghost(p));
        assert(self.nodes@[self.order@[p]].next.addr() == self.target(p + 1));
        assert(self.entries()[p].value == self.nodes@[self.order@[p]].value);
        proof {
            self.nodes@[s as int].next.lemma_parts();
        }
        self.nodes[s].next
    }

    /// Borrows the value of the node at position `p`, if the node is live.
    pub fn value_of(&self, ptr: TaggedPtr, Ghost(p): Ghost<int>) -> (r: Option<&V>)
        requires
            self.wf(),
            self.points(ptr, p),
            p < self.slots().len(),
        ensures
            r == match self.entries()[p].value {
                Some(v) => Some(&v),
                None => None,
            },
    {
        let s = self.slot_at(ptr, Ghost(p));
        self.nodes[s].value.as_ref()
    }

    /// What a store of `ptr` into the link that leads to position `q` does
    /// to memory.
    spec fn relinked(before: Chain<V>, after: Chain<V>, q: int, ptr: TaggedPtr) -> bool {
        &&& after.free@ == before.free@
        &&& after.nodes@.len() == before.nodes@.len()
        &&& after.head == if q == 0 {
            ptr
        } else {
            before.head
        }
        &&& forall|x: int|
            0 <= x < before.nodes@.len() ==> {
                &&& (#[trigger] after.nodes@[x]).key == before.nodes@[x].key
                &&& after.nodes@[x].value == before.nodes@[x].value
                &&& after.nodes@[x].next == if q > 0 && x == before.order@[q - 1] {
                    ptr
                } else {
                    before.nodes@[x].next
                }
            }
    }

    fn store(&mut self, link: Link, ptr: TaggedPtr, Ghost(q): Ghost<int>)
        requires
            old(self).wf(),
            old(self).is_link(link, q),
        ensures
            final(self).order == old(self).order,
            Self::relinked(*old(self), *final(self), q, ptr),
    {
        proof {
            self.lemma_shape();
        }
        match link {
            Link::Head => {
                self.head = ptr;
            },
            Link::Next(a) => {
                let s: usize = a / 2 - 1;
                assert(s == self.order@[q - 1]);
                self.nodes[s].next = ptr;
            },
        }
    }

    spec fn swung(before: Chain<V>, after: Chain<V>, new: TaggedPtr, q: int, j: int) -> bool {
        &&& before.wf()
        &&& 0 <= q <= j <= before.order@.len()
        &&& before.mark_before(q) == 0
        &&& new.addr() == before.target(j)
        &&& new.mark() == 0
        &&& forall|i: int| q <= i < j ==> !(#[trigger] before.entries()[i]).live()
        &&& Self::relinked(before, after, q, new)
        &&& after.order@ == before.order@.take(q) + before.order@.skip(j)
    }

    proof fn lemma_swing_entries(before: Chain<V>, after: Chain<V>, new: TaggedPtr, q: int, j: int)
        requires
            Self::swung(before, after, new, q, j),
        ensures
            after.entries() == cut(before.entries(), q, j),
            sorted(after.entries()),
    {
        let order0 = before.order@;
        let order1 = after.order@;
        assert forall|i: int| 0 <= i < order1.len() implies after.entries()[i] == cut(
            before.entries(),
            q,
            j,
        )[i] by {
            let i0 = if i < q { i } else { i + (j - q) };
            assert(order1[i] == order0[i0]);
            assert(0 <= order0[i0] < before.nodes@.len());
            assert(after.nodes@[order0[i0]].key == before.nodes@[order0[i0]].key);
            assert(before.entries()[i0].key == before.nodes@[order0[i0]].key);
        }
        assert(after.entries() =~= cut(before.entries(), q, j));
        lemma_view_cut(before.entries(), q, j);
    }

    proof fn lemma_swing_linked(before: Chain<V>, after: Chain<V>, new: TaggedPtr, q: int, j: int)
        requires
            Self::swung(before, after, new, q, j),
        ensures
            after.linked(),
    {
        let order0 = before.order@;
        let order1 = after.order@;
        before.lemma_shape();
        assert forall|i: int| 0 <= i < order1.len() implies {
            &&& 0 <= #[trigger] order1[i] < after.nodes@.len()
            &&& after.nodes@[order1[i]].next.addr() == after.target(i + 1)
            &&& (after.nodes@[order1[i]].value is None <==> after.nodes@[order1[i]].next.mark() == 1)
        } by {
            let i0 = if i < q { i } else { i + (j - q) };
            assert(order1[i] == order0[i0]);
            assert(0 <= order0[i0] < before.nodes@.len());
            assert(before.nodes@[order0[i0]].next.addr() == before.target(i0 + 1));
            assert(before.nodes@[order0[i0]].value is None <==> before.nodes@[order0[i0]].next.mark()
                == 1);
            assert(after.nodes@[order0[i0]].key == before.nodes@[order0[i0]].key);
            if i + 1 == q {
                assert(before.entries()[q - 1].live());
                assert(before.entries()[q - 1].value == before.nodes@[order0[q - 1]].value);
            } else if q > 0 {
                assert(order0[i0] != order0[q - 1]);
            }
            if i + 1 < order1.len() {
                let i1 = if i + 1 < q { i + 1 } else { i + 1 + (j - q) };
                assert(order1[i + 1] == order0[i1]);
            }
        }
        if order1.len() > 0 {
            assert(order1[0] == order0[if 0 < q { 0 } else { j }]);
        }
    }

    proof fn lemma_swing_spare(before: Chain<V>, after: Chain<V>, new: TaggedPtr, q: int, j: int)
        requires
            Self::swung(before, after, new, q, j),
        ensures
            after.spare(),
    {
        let order0 = before.order@;
        let order1 = after.order@;
        assert forall|k: int| 0 <= k < after.free@.len() implies (#[trigger] after.free@[k])
            < after.nodes@.len() && !order1.contains(after.free@[k] as int)
            && after.nodes@[after.free@[k] as int].value is None by {
            let f = before.free@[k];
            assert(f < before.nodes@.len() && !order0.contains(f as int));
            assert(after.nodes@[f as int].key == before.nodes@[f as int].key);
            if order1.contains(f as int) {
                let i = choose|i: int| 0 <= i < order1.len() && order1[i] == f as int;
                let i0 = if i < q { i } else { i + (j - q) };
                assert(order0[i0] == f as int);
                assert(order0.contains(f as int));
            }
        }
    }

    proof fn lemma_swing_detached(before: Chain<V>, after: Chain<V>, new: TaggedPtr, q: int, j: int)
        requires
            Self::swung(before, after, new, q, j),
        ensures
            after.detached(before.order@.subrange(q, j), new),
    {
        let order0 = before.order@;
        let order1 = after.order@;
        let run = order0.subrange(q, j);
        before.lemma_shape();
        assert forall|i: int| 0 <= i < run.len() implies {
            &&& 0 <= #[trigger] run[i] < after.nodes@.len()
            &&& !after.order@.contains(run[i])
            &&& !after.free@.contains(run[i] as usize)
            &&& after.nodes@[run[i]].value is None
            &&& after.nodes@[run[i]].next.mark() == 1
            &&& after.nodes@[run[i]].next.addr() == if i + 1 < run.len() {
                addr_of(run[i + 1])
            } else {
                new.addr()
            }
            &&& addr_of(run[i]) != new.addr()
        } by {
            let x = order0[q + i];
            assert(run[i] == x);
            assert(0 <= x < before.nodes@.len());
            assert(!before.entries()[q + i].live());
            assert(before.entries()[q + i].value == before.nodes@[x].value);
            assert(before.nodes@[x].next.addr() == before.target(q + i + 1));
            assert(before.nodes@[x].value is None <==> before.nodes@[x].next.mark() == 1);
            assert(after.nodes@[x].key == before.nodes@[x].key);
            if q > 0 {
                assert(x != order0[q - 1]);
            }
            if i + 1 < run.len() {
                assert(run[i + 1] == order0[q + i + 1]);
            }
            if j < order0.len() {
                assert(order0[j] != x);
            }
            if order1.contains(x) {
                let k = choose|k: int| 0 <= k < order1.len() && order1[k] == x;
                let k0 = if k < q { k } else { k + (j - q) };
                assert(order0[k0] == x);
            }
            if after.free@.contains(x as usize) {
                let k = choose|k: int| 0 <= k < after.free@.len() && after.free@[k] == x as usize;
                assert(!order0.contains(before.free@[k] as int));
                assert(order0.contains(x));
            }
        }
        assert forall|a: int, b: int| 0 <= a < b < run.len() implies run[a] != run[b] by {
            assert(run[a] == order0[q + a]);
            assert(run[b] == order0[q + b]);
        }
    }

    /// Compare-and-set on a link, used to unlink the logically deleted nodes
    /// at positions `q..j` in one step: the link that leads to `q` is swung
    /// from the node at `q` to the node at `j`. It succeeds when the link
    /// still holds `expected`, which it does here; on failure the pointer
    /// found in the link comes back.
    pub fn swing(
        &mut self,
        link: Link,
        expected: TaggedPtr,
        new: TaggedPtr,
        Ghost(q): Ghost<int>,
        Ghost(j): Ghost<int>,
    ) -> (r: Result<(), TaggedPtr>)
        requires
            old(self).wf(),
            old(self).is_link(link, q),
            old(self).mark_before(q) == 0,
            old(self).points(expected, q),
            expected.mark() == 0,
            q <= j,
            old(self).points(new, j),
            new.mark() == 0,
            forall|i: int| q <= i < j ==> !(#[trigger] old(self).entries()[i]).live(),
        ensures
            r is Ok,
            final(self).wf(),
            final(self).slots() == old(self).slots().take(q) + old(self).slots().skip(j),
            final(self).entries() == cut(old(self).entries(), q, j),
            final(self).detached(old(self).slots().subrange(q, j), new),
            final(self).allocated() == old(self).allocated(),
    {
        let current = self.load(link, Ghost(q));
        proof {
            current.lemma_equal(expected);
        }
        if current == expected {
            let ghost before = *self;
            self.store(link, new, Ghost(q));
            proof {
                self.order@ = before.order@.take(q) + before.order@.skip(j);
                Self::lemma_swing_entries(before, *self, new, q, j);
                Self::lemma_swing_linked(before, *self, new, q, j);
                Self::lemma_swing_spare(before, *self, new, q, j);
                Self::lemma_swing_detached(before, *self, new, q, j);
            }
            Ok(())
        } else {
            Err(current)
        }
    }

    /// Fetch-or of the mark into the `next` field of the node at position
    /// `p`: the node becomes logically deleted, if it was not. Returns the
    /// pointer that the field held before, and with it the value of the node
    /// if this call set the mark.
    pub fn mark(&mut self, ptr: TaggedPtr, Ghost(p): Ghost<int>) -> (r: (TaggedPtr, Option<V>))
        requires
            old(self).wf(),
            old(self).points(ptr, p),
            p < old(self).slots().len(),
        ensures
            final(self).wf(),
            final(self).slots() == old(self).slots(),
            final(self).entries() == old(self).entries().update(p, old(self).entries()[p].dead()),
            final(self).allocated() == old(self).allocated(),
            old(self).points(r.0, p + 1),
            r.0.mark() == 0 <==> old(self).entries()[p].live(),
            r.1 == old(self).entries()[p].value,
    {
        let s = self.slot_at(ptr, Ghost(p));
        let ghost before = *self;
        let ghost order = self.order@;
        proof {
            self.lemma_shape();
            self.nodes@[s as int].next.lemma_parts();
            assert(self.nodes@[order[p]].next.addr() == self.target(p + 1));
            assert(self.entries()[p].value == self.nodes@[order[p]].value);
        }
        let word = self.nodes[s].next;
        self.nodes[s].next = word.with_tag(1);
        let value = self.nodes[s].value.take();
        proof {
            assert forall|i: int| 0 <= i < order.len() && i != p implies self.nodes@[order[i]]
                == before.nodes@[order[i]] by {}
            assert(self.entries() =~= before.entries().update(p, before.entries()[p].dead())) by {
                assert forall|i: int| 0 <= i < order.len() implies self.entries()[i]
                    == before.entries().update(p, before.entries()[p].dead())[i] by {
                    assert(before.entries()[i].key == before.nodes@[order[i]].key);
                }
            }
            assert(sorted(self.entries())) by {
                assert forall|i: int, j: int| 0 <= i < j < order.len() implies self.entries()[i].key
                    < self.entries()[j].key by {
                    assert(before.entries()[i].key < before.entries()[j].key);
                }
            }
            assert(self.linked()) by {
                assert forall|i: int| 0 <= i < order.len() implies (
                #[trigger] self.nodes@[order[i]]).next.addr() == self.target(i + 1) by {
                    assert(before.nodes@[order[i]].next.addr() == before.target(i + 1));
                }
                assert forall|i: int| 0 <= i < order.len() implies ((
                #[trigger] self.nodes@[order[i]]).value is None <==> self.nodes@[order[i]].next.mark()
                    == 1) by {
                    assert(before.nodes@[order[i]].value is None
                        <==> before.nodes@[order[i]].next.mark() == 1);
                }
            }
            assert(self.spare()) by {
                assert forall|k: int| 0 <= k < self.free@.len() implies self.nodes@[self.free@[k] as int].value is None by {
                    assert(!order.contains(before.free@[k] as int));
                }
            }
        }
        (word, value)
    }

    /// Reads the `next` field of the first of the detached nodes in `run`.
    pub fn next_detached(
        &self,
        ptr: TaggedPtr,
        Ghost(run): Ghost<Seq<int>>,
        Ghost(end): Ghost<TaggedPtr>,
    ) -> (r: TaggedPtr)
        requires
            self.wf(),
            self.detached(run, end),
            run.len() > 0,
            ptr.addr() == addr_of(run[0]),
        ensures
            r.mark() == 1,
            r.addr() == if run.len() > 1 {
                addr_of(run[1])
            } else {
                end.addr()
            },
    {
        let s: usize = ptr.address() / 2 - 1;
        assert(s == run[0]);
        self.nodes[s].next
    }

    /// Hands the first of the detached nodes in `run` back for reuse: its
    /// slot joins the free slots, and the rest of the run stays detached.
    pub fn retire(&mut self, ptr: TaggedPtr, Ghost(run): Ghost<Seq<int>>, Ghost(end): Ghost<TaggedPtr>)
        requires
            old(self).wf(),
            old(self).detached(run, end),
            run.len() > 0,
            ptr.addr() == addr_of(run[0]),
        ensures
            final(self).wf(),
            final(self).slots() == old(self).slots(),
            final(self).entries() == old(self).entries(),
            final(self).allocated() == old(self).allocated(),
            final(self).reusable() == old(self).reusable().push(run[0] as usize),
            final(self).detached(run.skip(1), end),
    {
        let s: usize = ptr.address() / 2 - 1;
        assert(s == run[0]);
        let ghost before = *self;
        self.free.push(s);
        proof {
            assert(self.entries() =~= before.entries());
            assert(self.spare()) by {
                assert forall|k: int| 0 <= k < self.free@.len() implies (#[trigger] self.free@[k])
                    < self.nodes@.len() && !self.order@.contains(self.free@[k] as int)
                    && self.nodes@[self.free@[k] as int].value is None by {
                    if k < before.free@.len() {
                        assert(self.free@[k] == before.free@[k]);
                    }
                }
                assert forall|k: int, l: int| 0 <= k < l < self.free@.len() implies self.free@[k]
                    != self.free@[l] by {
                    if l == before.free@.len() {
                        assert(before.free@[k] == self.free@[k]);
                        assert(before.free@.contains(before.free@[k]));
                    }
                }
            }
            let rest = run.skip(1);
            assert(self.detached(rest, end)) by {
                assert forall|i: int| 0 <= i < rest.len() implies !self.free@.contains(
                    #[trigger] rest[i] as usize,
                ) by {
                    assert(rest[i] == run[i + 1]);
                    if self.free@.contains(rest[i] as usize) {
                        let k = choose|k: int|
                            0 <= k < self.free@.len() && self.free@[k] == rest[i] as usize;
                        if k < before.free@.len() {
                            assert(before.free@[k] == rest[i] as usize);
                            assert(before.free@.contains(rest[i] as usize));
                        }
                    }
                }
                assert forall|i: int| 0 <= i < rest.len() implies {
                    &&& 0 <= #[trigger] rest[i] < self.nodes@.len()
                    &&& !self.order@.contains(rest[i])
                    &&& self.nodes@[rest[i]].value is None
                    &&& self.nodes@[rest[i]].next.mark() == 1
                    &&& self.nodes@[rest[i]].next.addr() == if i + 1 < rest.len() {
                        addr_of(rest[i + 1])
                    } else {
                        end.addr()
                    }
                    &&& addr_of(rest[i]) != end.addr()
                } by {
                    assert(rest[i] == run[i + 1]);
                }
            }
        }
    }

    spec fn linked_in(before: Chain<V>, after: Chain<V>, node: Node<V>, p: int, s: int) -> bool {
        &&& before.wf()
        &&& 0 <= p <= before.order@.len()
        &&& before.mark_before(p) == 0
        &&& node.next.addr() == before.target(p)
        &&& node.next.mark() == 0
        &&& node.value is Some
        &&& p > 0 ==> before.entries()[p - 1].key < node.key
        &&& p < before.entries().len() ==> node.key < before.entries()[p].key
        &&& 0 <= s < after.nodes@.len() <= MAX_SLOTS
        &&& before.nodes@.len() <= after.nodes@.len()
        &&& !before.order@.contains(s)
        &&& after.order@ == before.order@.insert(p, s)
        &&& after.nodes@[s] == node
        &&& after.head == if p == 0 {
            TaggedPtr::make(addr_of(s), 0)
        } else {
            before.head
        }
        &&& forall|x: int|
            0 <= x < before.nodes@.len() && x != s ==> {
                &&& (#[trigger] after.nodes@[x]).key == before.nodes@[x].key
                &&& after.nodes@[x].value == before.nodes@[x].value
                &&& after.nodes@[x].next == if p > 0 && x == before.order@[p - 1] {
                    TaggedPtr::make(addr_of(s), 0)
                } else {
                    before.nodes@[x].next
                }
            }
        &&& after.free@.len() <= before.free@.len()
        &&& forall|k: int|
            0 <= k < after.free@.len() ==> #[trigger] after.free@[k] == before.free@[k]
                && before.free@[k] != s
    }

    proof fn lemma_install_entries(before: Chain<V>, after: Chain<V>, node: Node<V>, p: int, s: int)
        requires
            Self::linked_in(before, after, node, p, s),
        ensures
            after.entries() == before.entries().insert(
                p,
                Entry { key: node.key, value: node.value },
            ),
            sorted(after.entries()),
    {
        let order0 = before.order@;
        let order1 = after.order@;
        let entry = Entry { key: node.key, value: node.value };
        assert forall|i: int| 0 <= i < order1.len() implies after.entries()[i]
            == before.entries().insert(p, entry)[i] by {
            if i != p {
                let i0 = if i < p { i } else { i - 1 };
                assert(order1[i] == order0[i0]);
                assert(0 <= order0[i0] < before.nodes@.len());
                assert(order0.contains(order0[i0]));
                assert(after.nodes@[order0[i0]].key == before.nodes@[order0[i0]].key);
                assert(before.entries()[i0].key == before.nodes@[order0[i0]].key);
            } else {
                assert(order1[p] == s);
            }
        }
        assert(after.entries() =~= before.entries().insert(p, entry));
        lemma_view_insert(before.entries(), p, entry);
    }

    proof fn lemma_install_linked(before: Chain<V>, after: Chain<V>, node: Node<V>, p: int, s: int)
        requires
            Self::linked_in(before, after, node, p, s),
        ensures
            after.linked(),
    {
        let order0 = before.order@;
        let order1 = after.order@;
        before.lemma_shape();
        TaggedPtr::lemma_make(addr_of(s), 0);
        assert(order1[p] == s);
        assert forall|i: int| 0 <= i < order1.len() implies {
            &&& 0 <= #[trigger] order1[i] < after.nodes@.len()
            &&& after.nodes@[order1[i]].next.addr() == after.target(i + 1)
            &&& (after.nodes@[order1[i]].value is None <==> after.nodes@[order1[i]].next.mark() == 1)
        } by {
            if i + 1 < order1.len() && i + 1 != p {
                let i1 = if i + 1 < p { i + 1 } else { i };
                assert(order1[i + 1] == order0[i1]);
            }
            if i != p {
                let i0 = if i < p { i } else { i - 1 };
                assert(order1[i] == order0[i0]);
                assert(0 <= order0[i0] < before.nodes@.len());
                assert(order0.contains(order0[i0]));
                assert(before.nodes@[order0[i0]].next.addr() == before.target(i0 + 1));
                assert(before.nodes@[order0[i0]].value is None
                    <==> before.nodes@[order0[i0]].next.mark() == 1);
                assert(after.nodes@[order0[i0]].key == before.nodes@[order0[i0]].key);
                if i + 1 == p {
                    assert(before.entries()[p - 1].live());
                    assert(before.entries()[p - 1].value == before.nodes@[order0[p - 1]].value);
                } else if p > 0 {
                    assert(order0[i0] != order0[p - 1]);
                }
            }
        }
        if p > 0 {
            assert(order1[0] == order0[0]);
        }
    }

    proof fn lemma_install_spare(before: Chain<V>, after: Chain<V>, node: Node<V>, p: int, s: int)
        requires
            Self::linked_in(before, after, node, p, s),
        ensures
            after.spare(),
    {
        let order0 = before.order@;
        let order1 = after.order@;
        assert forall|k: int| 0 <= k < after.free@.len() implies (#[trigger] after.free@[k])
            < after.nodes@.len() && !order1.contains(after.free@[k] as int)
            && after.nodes@[after.free@[k] as int].value is None by {
            let f = before.free@[k];
            assert(after.free@[k] == f);
            assert(f < before.nodes@.len() && !order0.contains(f as int));
            assert(after.nodes@[f as int].key == before.nodes@[f as int].key);
            if order1.contains(f as int) {
                let i = choose|i: int| 0 <= i < order1.len() && order1[i] == f as int;
                let i0 = if i < p { i } else { i - 1 };
                assert(order1[p] == s);
                assert(order0[i0] == f as int);
                assert(order0.contains(f as int));
            }
        }
        assert forall|k: int, l: int| 0 <= k < l < after.free@.len() implies after.free@[k]
            != after.free@[l] by {
            assert(after.free@[k] == before.free@[k]);
            assert(after.free@[l] == before.free@[l]);
        }
    }

    /// Gives `node` a slot: a free one if there is one, else a new one.
    fn place(&mut self, node: Node<V>) -> (s: usize)
        requires
            old(self).wf(),
            old(self).allocated() < MAX_SLOTS,
        ensures
            final(self).order == old(self).order,
            final(self).head == old(self).head,
            s < final(self).nodes@.len() <= MAX_SLOTS,
            old(self).nodes@.len() <= final(self).nodes@.len() <= old(self).nodes@.len() + 1,
            !old(self).order@.contains(s as int),
            final(self).nodes@[s as int] == node,
            forall|x: int|
                0 <= x < old(self).nodes@.len() && x != s ==> #[trigger] final(self).nodes@[x] == old(
                    self,
                ).nodes@[x],
            final(self).free@.len() <= old(self).free@.len(),
            forall|k: int|
                0 <= k < final(self).free@.len() ==> #[trigger] final(self).free@[k] == old(
                    self,
                ).free@[k] && old(self).free@[k] != s,
    {
        let ghost before = *self;
        match self.free.pop() {
            Some(s) => {
                assert(before.free@[before.free@.len() - 1] == s);
                self.nodes[s] = node;
                s
            },
            None => {
                self.nodes.push(node);
                let s: usize = self.nodes.len() - 1;
                assert(!before.order@.contains(s as int)) by {
                    if before.order@.contains(s as int) {
                        let i = choose|i: int|
                            0 <= i < before.order@.len() && before.order@[i] == s as int;
                        assert(0 <= before.order@[i] < before.nodes@.len());
                    }
                }
                s
            },
        }
    }

    /// Compare-and-set on a link, used to link a new node in at position
    /// `p`: the node is given a slot and the link that leads to `p` is swung
    /// from `expected` to it. It succeeds when the link still holds
    /// `expected`, which it does here; on failure the node comes back.
    pub fn install(
        &mut self,
        link: Link,
        expected: TaggedPtr,
        node: Node<V>,
        Ghost(p): Ghost<int>,
    ) -> (r: Result<(), Node<V>>)
        requires
            old(self).wf(),
            old(self).is_link(link, p),
            old(self).mark_before(p) == 0,
            old(self).points(expected, p),
            expected.mark() == 0,
            node.next == expected,
            node.value is Some,
            p > 0 ==> old(self).entries()[p - 1].key < node.key,
            p < old(self).entries().len() ==> node.key < old(self).entries()[p].key,
            old(self).allocated() < MAX_SLOTS,
        ensures
            r is Ok,
            final(self).wf(),
            final(self).entries() == old(self).entries().insert(
                p,
                Entry { key: node.key, value: node.value },
            ),
            final(self).slots().len() == old(self).slots().len() + 1,
            old(self).allocated() <= final(self).allocated() <= old(self).allocated() + 1,
    {
        let current = self.load(link, Ghost(p));
        proof {
            current.lemma_equal(expected);
        }
        if current == expected {
            let ghost before = *self;
            let s = self.place(node);
            let ptr = TaggedPtr::new(2 * (s + 1), 0);
            match link {
                Link::Head => {
                    self.head = ptr;
                },
                Link::Next(a) => {
                    proof {
                        before.lemma_shape();
                        assert(before.order@.contains(before.order@[p - 1]));
                    }
                    let t: usize = a / 2 - 1;
                    self.nodes[t].next = ptr;
                },
            }
            proof {
                self.order@ = before.order@.insert(p, s as int);
                assert(Self::linked_in(before, *self, node, p, s as int));
                Self::lemma_install_entries(before, *self, node, p, s as int);
                Self::lemma_install_linked(before, *self, node, p, s as int);
                Self::lemma_install_spare(before, *self, node, p, s as int);
            }
            Ok(())
        } else {
            Err(node)
        }
    }

    /// Detaches the first node and frees it, as the teardown of a list that
    /// nobody else can reach does. Returns its key, and its value if the
    /// node was live; a logically deleted node has no value left to give.
    pub fn pop_front(&mut self) -> (r: (i32, Option<V>))
        requires
            old(self).wf(),
            old(self).slots().len() > 0,
        ensures
            final(self).wf(),
            final(self).slots() == old(self).slots().skip(1),
            final(self).entries() == old(self).entries().skip(1),
            final(self).allocated() == old(self).allocated(),
            r.0 == old(self).entries()[0].key,
            r.1 == old(self).entries()[0].value,
    {
        let s = self.slot_at(self.head, Ghost(0));
        let ghost before = *self;
        let ghost order0 = self.order@;
        proof {
            self.lemma_shape();
            assert(self.nodes@[order0[0]].next.addr() == self.target(1));
            assert(self.entries()[0].value == self.nodes@[order0[0]].value);
        }
        let key = self.nodes[s].key;
        let next = self.nodes[s].next;
        let value = self.nodes[s].value.take();
        self.head = next.with_tag(0);
        self.free.push(s);
        proof {
            let order1 = order0.skip(1);
            self.order@ = order1;
            assert forall|i: int| 0 <= i < order1.len() implies order1[i] == order0[i + 1]
                && self.nodes@[order1[i]] == before.nodes@[order0[i + 1]] by {}
            assert(self.entries() =~= before.entries().skip(1)) by {
                assert forall|i: int| 0 <= i < order1.len() implies self.entries()[i]
                    == before.entries().skip(1)[i] by {
                    assert(before.entries()[i + 1].key == before.nodes@[order0[i + 1]].key);
                }
            }
            assert(sorted(self.entries())) by {
                assert forall|i: int, j: int| 0 <= i < j < order1.len() implies self.entries()[i].key
                    < self.entries()[j].key by {
                    assert(before.entries()[i + 1].key < before.entries()[j + 1].key);
                }
            }
            assert(self.linked()) by {
                assert forall|i: int| 0 <= i < order1.len() implies (
                #[trigger] self.nodes@[order1[i]]).next.addr() == self.target(i + 1) by {
                    assert(before.nodes@[order0[i + 1]].next.addr() == before.target(i + 2));
                }
                assert forall|i: int| 0 <= i < order1.len() implies ((
                #[trigger] self.nodes@[order1[i]]).value is None <==> self.nodes@[order1[i]].next.mark()
                    == 1) by {
                    assert(before.nodes@[order0[i + 1]].value is None
                        <==> before.nodes@[order0[i + 1]].next.mark() == 1);
                }
            }
            assert(self.spare()) by {
                assert forall|k: int| 0 <= k < self.free@.len() implies (#[trigger] self.free@[k])
                    < self.nodes@.len() && !order1.contains(self.free@[k] as int)
                    && self.nodes@[self.free@[k] as int].value is None by {
                    if order1.contains(self.free@[k] as int) {
                        let i = choose|i: int|
                            0 <= i < order1.len() && order1[i] == self.free@[k] as int;
                        assert(order0[i + 1] == self.free@[k] as int);
                        assert(order0.contains(order0[i + 1]));
                    }
                    if k < before.free@.len() {
                        assert(self.free@[k] == before.free@[k]);
                        assert(!order0.contains(before.free@[k] as int));
                        assert(order0.contains(order0[0]));
                    }
                }
                assert forall|k: int, l: int| 0 <= k < l < self.free@.len() implies self.free@[k]
                    != self.free@[l] by {
                    assert(before.free@[k] == self.free@[k]);
                    if l == before.free@.len() {
                        assert(!order0.contains(before.free@[k] as int));
                        assert(order0.contains(order0[0]));
                    }
                }
            }
        }
        (key, value)
    }

    /// The reachable nodes in order, each with its key and whether it is
    /// live.
    pub fn nodes(&self) -> (out: Vec<(i32, bool)>)
        requires
            self.wf(),
        ensures
            out@.len() == self.entries().len(),
            forall|i: int|
                0 <= i < out@.len() ==> #[trigger] out@[i] == (
                    self.entries()[i].key,
                    self.entries()[i].live(),
                ),
    {
        let ghost es = self.entries();
        let mut out: Vec<(i32, bool)> = Vec::new();
        let mut curr = self.load(Link::Head, Ghost(0));
        let ghost mut t: int = 0;
        loop
            invariant
                self.wf(),
                es == self.entries(),
                self.points(curr, t),
                out@.len() == t,
                forall|i: int| 0 <= i < t ==> #[trigger] out@[i] == (es[i].key, es[i].live()),
            decreases es.len() - t,
        {
            proof {
                self.lemma_shape();
            }
            if curr.is_null() {
                return out;
            }
            let node_key = self.key_of(curr, Ghost(t));
            let next = self.next_of(curr, Ghost(t));
            out.push((node_key, next.tag() == 0));
            curr = next;
            proof {
                t = t + 1;
            }
        }
    }

    /// Tears the list down, as its owner does when nobody else can reach
    /// it: walks the nodes from the head, hands out the key and value of
    /// each live node, leaves alone the value of each marked node, which
    /// its remover has, and frees every node.
    pub fn drain(&mut self) -> (out: Vec<(i32, V)>)
        requires
            old(self).wf(),
        ensures
            final(self).wf(),
            final(self).allocated() == old(self).allocated(),
            final(self).entries() == Seq::<Entry<V>>::empty(),
            out@ == pairs(old(self).entries()),
    {
        let ghost es = self.entries();
        let mut out: Vec<(i32, V)> = Vec::new();
        let mut curr = self.load(Link::Head, Ghost(0));
        let ghost mut t: int = 0;
        proof {
            self.lemma_shape();
            assert(es.skip(0) =~= es);
            assert(es.take(0) =~= Seq::<Entry<V>>::empty());
        }
        while !curr.is_null()
            invariant
                self.wf(),
                self.allocated() == old(self).allocated(),
                es == old(self).entries(),
                0 <= t <= es.len(),
                self.entries() == es.skip(t),
                self.points(curr, 0),
                curr.null() ==> t == es.len(),
                out@ == pairs(es.take(t)),
            decreases es.len() - t,
        {
            proof {
                self.lemma_shape();
                lemma_pairs_step(es, t);
                assert(es.skip(t)[0] == es[t]);
                assert(es.skip(t).skip(1) =~= es.skip(t + 1));
            }
            let next = self.next_of(curr, Ghost(0));
            let (key, value) = self.pop_front();
            if next.tag() == 0 {
                if let Some(v) = value {
                    out.push((key, v));
                }
            }
            curr = next.with_tag(0);
            proof {
                t = t + 1;
                self.lemma_shape();
            }
        }
        proof {
            assert(es.take(t) =~= es);
            assert(self.entries() =~= Seq::<Entry<V>>::empty());
        }
        out
    }
}

} // verus!
