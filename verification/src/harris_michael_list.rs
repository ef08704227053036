//! The list with the traversal that unlinks marked nodes one at a time, in
//! its careful form: the traversal reads each link twice, and a remover
//! whose unlinking fails traverses once more so that the node it marked does
//! not stay linked.

use vstd::prelude::*;
use crate::tagged::TaggedPtr;
use crate::chain::{Chain, Cursor, Link, Node, MAX_SLOTS};
use crate::model::{
    Entry, sorted, all_live, lookup, after_insert, view_of, cut, pairs, live_only, michael_swept,
    michael_rank, lemma_michael_quiet, lemma_all_live_insert, lemma_all_live_remove,
    lemma_stop_live, lemma_live_only_step, lemma_view_cut, lemma_view_lookup, lemma_view_mark,
    lemma_view_insert, lemma_view_empty,
};
use crate::step::{key_order, michael_step, MichaelStep};

verus! {

/// An ordered map from `i32` keys to values, kept as a sorted singly linked
/// list whose nodes are deleted in two steps: first marked, then unlinked.
pub struct List<V> {
    core: Chain<V>,
}

impl<V> View for List<V> {
    type V = Map<i32, V>;

    /// The map that the list stands for: its live nodes.
    open spec fn view(&self) -> Map<i32, V> {
        view_of(self.entries())
    }
}

impl<V> List<V> {
    /// The list is well formed; see [`Chain::wf`].
    pub closed spec fn wf(&self) -> bool {
        self.core.wf()
    }

    /// The nodes reachable from the head, in order, logically deleted ones
    /// included.
    pub closed spec fn entries(&self) -> Seq<Entry<V>> {
        self.core.entries()
    }

    /// How many node slots the list has allocated so far.
    pub closed spec fn allocated(&self) -> nat {
        self.core.allocated()
    }

    /// The cursor stands at position `p` of the reachable nodes.
    pub closed spec fn at(&self, cursor: Cursor, p: int) -> bool {
        self.core.at(cursor, p)
    }

    /// The cursor stands at the place of `key`: at position `p`, with every
    /// node before it below `key` and the node at `p`, if there is one, live
    /// and at or above `key`.
    pub open spec fn stands(&self, cursor: Cursor, p: int, key: i32) -> bool {
        &&& self.at(cursor, p)
        &&& 0 <= p <= self.entries().len()
        &&& forall|i: int| 0 <= i < p ==> (#[trigger] self.entries()[i]).key < key
        &&& p < self.entries().len() ==> self.entries()[p].key >= key && self.entries()[p].live()
    }

    /// Whether the node at position `p` has key `key`.
    pub open spec fn hit(&self, p: int, key: i32) -> bool {
        0 <= p < self.entries().len() && self.entries()[p].key == key
    }

    /// The empty list.
    pub fn new() -> (list: Self)
        ensures
            list.wf(),
            list.entries() == Seq::<Entry<V>>::empty(),
            list@ == Map::<i32, V>::empty(),
            list.allocated() == 0,
    {
        proof {
            lemma_view_empty::<V>();
        }
        List { core: Chain::new() }
    }

    /// One attempt of the traversal.
    ///
    /// Walks from the head to the first live node at or above `key`. At
    /// each node it first reads the link it came through again and gives the
    /// attempt up if the link no longer leads to the node. Each marked node
    /// met on the way is unlinked from its predecessor by a compare-and-set
    /// and retired; a failed compare-and-set gives the attempt up too. With
    /// a single caller no attempt is given up.
    pub fn find_inner(&mut self, key: i32) -> (r: Result<(bool, Cursor), ()>)
        requires
            old(self).wf(),
        ensures
            final(self).wf(),
            final(self).allocated() == old(self).allocated(),
            r is Ok,
            final(self).entries() == michael_swept(old(self).entries(), key),
            final(self)@ == old(self)@,
            final(self).stands(r.unwrap().1, michael_rank(old(self).entries(), key), key),
            r.unwrap().0 == final(self).hit(michael_rank(old(self).entries(), key), key),
    {
        let ghost es0 = self.core.entries();
        let head = self.core.load(Link::Head, Ghost(0));
        let mut cursor = Cursor { prev: Link::Head, curr: head };
        let ghost mut p: int = 0;
        let ghost mut t: int = 0;
        proof {
            self.core.lemma_shape();
            assert(es0.take(0) =~= Seq::<Entry<V>>::empty());
            assert(live_only(es0.take(0)) + es0.skip(0) =~= es0);
        }
        loop
            invariant
                self.core.wf(),
                self.core.allocated() == old(self).core.allocated(),
                es0 == old(self).core.entries(),
                0 <= t <= es0.len(),
                self.core.entries() == live_only(es0.take(t)) + es0.skip(t),
                p == live_only(es0.take(t)).len(),
                self.core.at(cursor, p),
                forall|i: int| 0 <= i < t ==> !((#[trigger] es0[i]).live() && es0[i].key >= key),
                forall|i: int| 0 <= i < p ==> (#[trigger] self.core.entries()[i]).key < key,
                view_of(self.core.entries()) == view_of(es0),
            decreases self.core.entries().len() - p,
        {
            proof {
                self.core.lemma_shape();
            }
            if cursor.curr.is_null() {
                proof {
                    lemma_stop_live(es0, key, t);
                }
                return Ok((false, cursor));
            }
            let seen = self.core.load(cursor.prev, Ghost(p));
            proof {
                seen.lemma_equal(cursor.curr);
            }
            if !(seen == cursor.curr) {
                return Err(());
            }
            let next = self.core.next_of(cursor.curr, Ghost(p));
            let node_key = self.core.key_of(cursor.curr, Ghost(p));
            let ghost es = self.core.entries();
            proof {
                assert(es[p] == es0[t]);
                lemma_live_only_step(es0, t);
            }
            match michael_step(key_order(node_key, key), next.tag() == 1) {
                MichaelStep::Advance => {
                    cursor.prev = Link::Next(cursor.curr.address());
                    cursor.curr = next;
                    proof {
                        assert(es =~= live_only(es0.take(t + 1)) + es0.skip(t + 1));
                        p = p + 1;
                        t = t + 1;
                    }
                },
                MichaelStep::Stop { found } => {
                    proof {
                        lemma_stop_live(es0, key, t);
                    }
                    return Ok((found, cursor));
                },
                MichaelStep::Unlink => {
                    let unmarked = next.with_tag(0);
                    let ghost run = self.core.slots().subrange(p, p + 1);
                    match self.core.swing(
                        cursor.prev,
                        cursor.curr,
                        unmarked,
                        Ghost(p),
                        Ghost(p + 1),
                    ) {
                        Err(_) => {
                            return Err(());
                        },
                        Ok(_) => {
                            self.core.retire(cursor.curr, Ghost(run), Ghost(unmarked));
                        },
                    }
                    cursor.curr = unmarked;
                    proof {
                        lemma_view_cut(es, p, p + 1);
                        assert(self.core.entries() =~= live_only(es0.take(t + 1)) + es0.skip(
                            t + 1,
                        ));
                        t = t + 1;
                    }
                },
            }
        }
    }

    /// The traversal: attempts are repeated until one is not given up.
    pub fn find(&mut self, key: i32) -> (r: (bool, Cursor))
        requires
            old(self).wf(),
        ensures
            final(self).wf(),
            final(self).allocated() == old(self).allocated(),
            final(self).entries() == michael_swept(old(self).entries(), key),
            final(self)@ == old(self)@,
            final(self).stands(r.1, michael_rank(old(self).entries(), key), key),
            r.0 == final(self).hit(michael_rank(old(self).entries(), key), key),
    {
        loop
            invariant
                *self == *old(self),
                self.wf(),
            decreases 0int,
        {
            if let Ok(r) = self.find_inner(key) {
                return r;
            }
        }
    }

    /// The value under `key`, if a live node has `key`.
    pub fn get(&mut self, key: i32) -> (r: Option<&V>)
        requires
            old(self).wf(),
        ensures
            all_live(old(self).entries()) ==> all_live(final(self).entries()),
            final(self).wf(),
            final(self).allocated() == old(self).allocated(),
            final(self).entries() == michael_swept(old(self).entries(), key),
            final(self)@ == old(self)@,
            r.is_some() == old(self)@.contains_key(key),
            r.is_some() ==> *r.unwrap() == old(self)@[key],
    {
        let ghost p = michael_rank(self.entries(), key);
        proof {
            if all_live(self.entries()) {
                lemma_michael_quiet(self.entries(), key);
            }
        }
        let (found, cursor) = self.find(key);
        proof {
            self.core.lemma_shape();
            lemma_view_lookup(self.entries(), key, p);
        }
        if found {
            self.core.value_of(cursor.curr, Ghost(p))
        } else {
            None
        }
    }

    /// Inserts `key` with `value` unless a live node has `key` already.
    /// Returns whether it inserted; if not, `value` is dropped and the value
    /// in the list stays.
    pub fn insert(&mut self, key: i32, value: V) -> (r: bool)
        requires
            old(self).wf(),
            old(self).allocated() < MAX_SLOTS,
        ensures
            all_live(old(self).entries()) ==> all_live(final(self).entries()),
            final(self).wf(),
            old(self).allocated() <= final(self).allocated() <= old(self).allocated() + 1,
            r == !old(self)@.contains_key(key),
            final(self)@ == after_insert(old(self)@, key, value),
            final(self).entries() == if r {
                michael_swept(old(self).entries(), key).insert(
                    michael_rank(old(self).entries(), key),
                    Entry { key, value: Some(value) },
                )
            } else {
                michael_swept(old(self).entries(), key)
            },
    {
        let ghost p = michael_rank(self.entries(), key);
        let mut node = Node { key, value: Some(value), next: TaggedPtr::null_ptr() };
        loop
            invariant
                *self == *old(self),
                self.wf(),
                self.allocated() < MAX_SLOTS,
                node.key == key,
                node.value == Some(value),
                p == michael_rank(self.entries(), key),
            decreases 0int,
        {
            proof {
                if all_live(self.entries()) {
                    lemma_michael_quiet(self.entries(), key);
                    lemma_all_live_insert(self.entries(), michael_rank(self.entries(), key), Entry { key, value: Some(value) });
                }
            }
            let (found, cursor) = self.find(node.key);
            proof {
                self.core.lemma_shape();
                lemma_view_lookup(self.entries(), key, p);
            }
            if found {
                return false;
            }
            node.next = cursor.curr;
            proof {
                lemma_view_insert(self.entries(), p, Entry { key, value: Some(value) });
            }
            match self.core.install(cursor.prev, cursor.curr, node, Ghost(p)) {
                Ok(_) => {
                    return true;
                },
                Err(rejected) => {
                    node = rejected;
                },
            }
        }
    }

    /// Removes `key`: marks its live node, which hands the value over, then
    /// unlinks the node; should the unlinking fail, one more traversal
    /// unlinks it. Returns the value, or `None` if no live node has `key`.
    pub fn remove(&mut self, key: i32) -> (r: Option<V>)
        requires
            old(self).wf(),
        ensures
            all_live(old(self).entries()) ==> all_live(final(self).entries()),
            final(self).wf(),
            final(self).allocated() == old(self).allocated(),
            r == lookup(old(self)@, key),
            final(self)@ == old(self)@.remove(key),
            final(self).entries() == if r is Some {
                michael_swept(old(self).entries(), key).remove(
                    michael_rank(old(self).entries(), key),
                )
            } else {
                michael_swept(old(self).entries(), key)
            },
    {
        let ghost p = michael_rank(self.entries(), key);
        loop
            invariant
                *self == *old(self),
                self.wf(),
                p == michael_rank(self.entries(), key),
            decreases 0int,
        {
            proof {
                if all_live(self.entries()) {
                    lemma_michael_quiet(self.entries(), key);
                    if michael_rank(self.entries(), key) < self.entries().len() {
                        lemma_all_live_remove(self.entries(), michael_rank(self.entries(), key));
                    }
                }
            }
            let (found, cursor) = self.find(key);
            let ghost es = self.entries();
            proof {
                self.core.lemma_shape();
                lemma_view_lookup(es, key, p);
            }
            if !found {
                assert(old(self)@.remove(key) =~= old(self)@);
                return None;
            }
            let (next, value) = self.core.mark(cursor.curr, Ghost(p));
            if next.tag() == 1 {
                continue;
            }
            let ghost marked = self.entries();
            let ghost run = self.core.slots().subrange(p, p + 1);
            proof {
                lemma_view_mark(es, p);
                lemma_view_cut(marked, p, p + 1);
                assert(cut(marked, p, p + 1) =~= es.remove(p));
            }
            match self.core.swing(cursor.prev, cursor.curr, next, Ghost(p), Ghost(p + 1)) {
                Ok(_) => {
                    self.core.retire(cursor.curr, Ghost(run), Ghost(next));
                },
                Err(_) => {
                    self.find(key);
                },
            }
            return value;
        }
    }

    /// The reachable nodes in order, each with its key and whether it is
    /// live.
    pub fn nodes(&self) -> (out: Vec<(i32, bool)>)
        requires
            self.wf(),
        ensures
            out@.len() == self.entries().len(),
            forall|i: int|
                0 <= i < out@.len() ==> #[trigger] out@[i] == (
                    self.entries()[i].key,
                    self.entries()[i].live(),
                ),
    {
        self.core.nodes()
    }

    /// Tears the list down, as its owner does when nobody else can reach
    /// it: walks the nodes from the head, hands out the key and value of
    /// each live node, leaves alone the value of each marked node, which
    /// its remover has, and frees every node.
    pub fn drain(&mut self) -> (out: Vec<(i32, V)>)
        requires
            old(self).wf(),
        ensures
            final(self).wf(),
            final(self).allocated() == old(self).allocated(),
            final(self).entries() == Seq::<Entry<V>>::empty(),
            final(self)@ == Map::<i32, V>::empty(),
            out@ == pairs(old(self).entries()),
    {
        proof {
            lemma_view_empty::<V>();
        }
        self.core.drain()
    }

    /// Keys strictly increase along the reachable nodes of a well-formed
    /// list, so no two nodes, and no two live nodes, share a key.
    pub proof fn lemma_sorted(&self)
        requires
            self.wf(),
        ensures
            sorted(self.entries()),
            forall|i: int, j: int|
                0 <= i < self.entries().len() && 0 <= j < self.entries().len() && i != j
                    ==> self.entries()[i].key != self.entries()[j].key,
    {
        self.core.lemma_shape();
        let es = self.entries();
        assert forall|i: int, j: int| 0 <= i < es.len() && 0 <= j < es.len() && i != j implies es[i].key
            != es[j].key by {
            if i < j {
                assert(es[i].key < es[j].key);
            } else {
                assert(es[j].key < es[i].key);
            }
        }
    }
}

} // verus!
