//! The list with its three traversals: the one that unlinks a run of marked
//! nodes at once, the one that unlinks them one at a time, and the one that
//! only reads.

use vstd::prelude::*;
use crate::tagged::TaggedPtr;
use crate::chain::{addr_of, Chain, Cursor, Link, Node, MAX_SLOTS};
use crate::model::{
    Entry, sorted, all_live, lookup, after_insert, view_of, cut, pairs, live_only, lower_bound,
    michael_swept, michael_rank, harris_blocked, harris_open, harris_rank, harris_spliced,
    key_found, lemma_harris_quiet, lemma_michael_quiet, lemma_all_live_insert,
    lemma_all_live_remove, lemma_stop_live, lemma_lower_bound, lemma_lower_bound_range,
    lemma_run_start, lemma_live_only_step, lemma_view_cut, lemma_view_lookup, lemma_view_mark,
    lemma_view_insert, lemma_view_empty,
};
use crate::step::{
    key_order, harris_step, michael_step, read_step, HarrisStep, MichaelStep, ReadStep,
};

verus! {

/// An ordered map from `i32` keys to values, kept as a sorted singly linked
/// list whose nodes are deleted in two steps: first marked, then unlinked.
pub struct List<V> {
    core: Chain<V>,
}

impl<V> View for List<V> {
    type V = Map<i32, V>;

    /// The map that the list stands for: its live nodes.
    open spec fn view(&self) -> Map<i32, V> {
        view_of(self.entries())
    }
}

impl<V> List<V> {
    /// The list is well formed; see [`Chain::wf`].
    pub closed spec fn wf(&self) -> bool {
        self.core.wf()
    }

    /// The nodes reachable from the head, in order, logically deleted ones
    /// included.
    pub closed spec fn entries(&self) -> Seq<Entry<V>> {
        self.core.entries()
    }

    /// How many node slots the list has allocated so far.
    pub closed spec fn allocated(&self) -> nat {
        self.core.allocated()
    }

    /// The cursor stands at position `p` of the reachable nodes.
    pub closed spec fn at(&self, cursor: Cursor, p: int) -> bool {
        self.core.at(cursor, p)
    }

    /// The cursor stands at the place of `key`: at position `p`, with every
    /// node before it below `key` and the node at `p`, if there is one, live
    /// and at or above `key`.
    pub open spec fn stands(&self, cursor: Cursor, p: int, key: i32) -> bool {
        &&& self.at(cursor, p)
        &&& 0 <= p <= self.entries().len()
        &&& forall|i: int| 0 <= i < p ==> (#[trigger] self.entries()[i]).key < key
        &&& p < self.entries().len() ==> self.entries()[p].key >= key && self.entries()[p].live()
    }

    /// The cursor has run off the end of the list: its pointer is null, and
    /// its link is the one that leads to position `q`.
    pub closed spec fn trails(&self, cursor: Cursor, q: int) -> bool {
        &&& self.core.is_link(cursor.prev, q)
        &&& self.core.mark_before(q) == 0
        &&& cursor.curr.null()
        &&& cursor.curr.mark() == 0
    }

    /// Whether the node at position `p` has key `key`.
    pub open spec fn hit(&self, p: int, key: i32) -> bool {
        0 <= p < self.entries().len() && self.entries()[p].key == key
    }

    /// The empty list.
    pub fn new() -> (list: Self)
        ensures
            list.wf(),
            list.entries() == Seq::<Entry<V>>::empty(),
            list@ == Map::<i32, V>::empty(),
            list.allocated() == 0,
    {
        proof {
            lemma_view_empty::<V>();
        }
        List { core: Chain::new() }
    }

    /// One attempt of the traversal that unlinks a run of marked nodes at
    /// once.
    ///
    /// Walks from the head to the first node at or above `key`, keeping the
    /// link behind the last live node passed. If that first node is marked
    /// the attempt is given up. If the walk runs off the end it reports the
    /// key absent as it stands. Else the marked nodes between the kept link
    /// and the node are unlinked by one compare-and-set and then retired one
    /// by one; a failed compare-and-set gives the attempt up, and with a
    /// single caller none fails.
    pub fn harris_find_inner(&mut self, key: i32) -> (r: Result<(bool, Cursor), ()>)
        requires
            old(self).wf(),
        ensures
            final(self).wf(),
            final(self).allocated() == old(self).allocated(),
            final(self)@ == old(self)@,
            r is Err <==> harris_blocked(old(self).entries(), key),
            r is Err ==> final(self).entries() == old(self).entries(),
            r is Ok ==> {
                &&& final(self).entries() == harris_spliced(old(self).entries(), key)
                &&& r.unwrap().0 == key_found(old(self).entries(), key)
                &&& r.unwrap().0 == final(self).hit(harris_rank(old(self).entries(), key), key)
                &&& if lower_bound(old(self).entries(), key) < old(self).entries().len() {
                    final(self).stands(r.unwrap().1, harris_rank(old(self).entries(), key), key)
                } else {
                    final(self).trails(r.unwrap().1, harris_rank(old(self).entries(), key))
                }
            },
    {
        let ghost es = self.core.entries();
        let head = self.core.load(Link::Head, Ghost(0));
        let mut cursor = Cursor { prev: Link::Head, curr: head };
        let mut prev_next = cursor.curr;
        let ghost mut q: int = 0;
        let ghost mut t: int = 0;
        let mut found = false;
        proof {
            self.core.lemma_shape();
        }
        loop
            invariant_except_break
                *self == *old(self),
                self.core.wf(),
                es == self.core.entries(),
                0 <= q <= t <= es.len(),
                self.core.is_link(cursor.prev, q),
                self.core.mark_before(q) == 0,
                self.core.points(prev_next, q),
                prev_next.mark() == 0,
                self.core.points(cursor.curr, t),
                cursor.curr.mark() == 0,
                forall|i: int| 0 <= i < t ==> (#[trigger] es[i]).key < key,
                forall|i: int| q <= i < t ==> !(#[trigger] es[i]).live(),
            ensures
                *self == *old(self),
                self.core.wf(),
                es == self.core.entries(),
                0 <= q <= t < es.len(),
                self.core.is_link(cursor.prev, q),
                self.core.mark_before(q) == 0,
                self.core.points(prev_next, q),
                prev_next.mark() == 0,
                self.core.points(cursor.curr, t),
                cursor.curr.mark() == 0,
                forall|i: int| 0 <= i < t ==> (#[trigger] es[i]).key < key,
                forall|i: int| q <= i < t ==> !(#[trigger] es[i]).live(),
                es[t].key >= key,
                es[t].live(),
                found == (es[t].key == key),
            decreases es.len() - t,
        {
            proof {
                self.core.lemma_shape();
            }
            if cursor.curr.is_null() {
                proof {
                    lemma_lower_bound(es, key, t);
                    lemma_run_start(es, t, q);
                }
                return Ok((false, cursor));
            }
            let next = self.core.next_of(cursor.curr, Ghost(t));
            let node_key = self.core.key_of(cursor.curr, Ghost(t));
            match harris_step(key_order(node_key, key), next.tag() == 1) {
                HarrisStep::Pass { anchor } => {
                    if anchor {
                        cursor.prev = Link::Next(cursor.curr.address());
                        prev_next = next;
                        proof {
                            q = t + 1;
                        }
                    }
                    cursor.curr = next.with_tag(0);
                    proof {
                        t = t + 1;
                    }
                },
                HarrisStep::Stop { found: hit } => {
                    found = hit;
                    break ;
                },
                HarrisStep::Restart => {
                    proof {
                        lemma_lower_bound(es, key, t);
                    }
                    return Err(());
                },
            }
        }
        proof {
            self.core.lemma_shape();
            lemma_lower_bound(es, key, t);
            lemma_run_start(es, t, q);
            lemma_view_cut(es, q, t);
        }
        if prev_next == cursor.curr {
            proof {
                assert(q == t);
                assert(cut(es, q, t) =~= es);
            }
            return Ok((found, cursor));
        }
        let ghost mut run = self.core.slots().subrange(q, t);
        if self.core.swing(cursor.prev, prev_next, cursor.curr, Ghost(q), Ghost(t)).is_err() {
            return Err(());
        }
        let mut node = prev_next;
        proof {
            assert(cut(es, q, t)[q] == es[t]);
        }
        loop
            invariant
                self.core.wf(),
                self.core.allocated() == old(self).core.allocated(),
                es == old(self).core.entries(),
                0 <= q <= t < es.len(),
                lower_bound(es, key) == t,
                harris_rank(es, key) == q,
                es[t].live(),
                found == (es[t].key == key),
                view_of(cut(es, q, t)) == view_of(es),
                forall|i: int| 0 <= i < q ==> (#[trigger] cut(es, q, t)[i]).key < key,
                cut(es, q, t)[q] == es[t],
                es[t].key >= key,
                self.core.entries() == cut(es, q, t),
                self.core.at(cursor, q),
                self.core.detached(run, cursor.curr),
                node.addr() == if run.len() > 0 {
                    addr_of(run[0])
                } else {
                    cursor.curr.addr()
                },
            decreases run.len(),
        {
            proof {
                if run.len() > 0 {
                    self.core.lemma_detached_head(run, cursor.curr);
                } else {
                    node.lemma_cleared(cursor.curr);
                }
            }
            if node.with_tag(0) == cursor.curr {
                return Ok((found, cursor));
            }
            let next = self.core.next_detached(node, Ghost(run), Ghost(cursor.curr));
            self.core.retire(node, Ghost(run), Ghost(cursor.curr));
            node = next;
            proof {
                run = run.skip(1);
            }
        }
    }

    /// The traversal that unlinks a run of marked nodes at once: attempts
    /// are repeated until one is not given up. A lone caller must not call
    /// it while it is held up, since nobody else would unlink the node that
    /// holds it up.
    pub fn harris_find(&mut self, key: i32) -> (r: (bool, Cursor))
        requires
            old(self).wf(),
            !harris_blocked(old(self).entries(), key),
        ensures
            final(self).wf(),
            final(self).allocated() == old(self).allocated(),
            final(self)@ == old(self)@,
            final(self).entries() == harris_spliced(old(self).entries(), key),
            r.0 == key_found(old(self).entries(), key),
            r.0 == final(self).hit(harris_rank(old(self).entries(), key), key),
            if lower_bound(old(self).entries(), key) < old(self).entries().len() {
                final(self).stands(r.1, harris_rank(old(self).entries(), key), key)
            } else {
                final(self).trails(r.1, harris_rank(old(self).entries(), key))
            },
    {
        loop
            invariant
                *self == *old(self),
                self.wf(),
                !harris_blocked(self.entries(), key),
            decreases 0int,
        {
            if let Ok(r) = self.harris_find_inner(key) {
                return r;
            }
        }
    }

    /// Looks `key` up with the traversal that unlinks a run of marked nodes
    /// at once.
    pub fn harris_get(&mut self, key: i32) -> (r: Option<&V>)
        requires
            old(self).wf(),
            !harris_blocked(old(self).entries(), key),
        ensures
            all_live(old(self).entries()) ==> all_live(final(self).entries()),
            final(self).wf(),
            final(self).allocated() == old(self).allocated(),
            final(self).entries() == harris_spliced(old(self).entries(), key),
            final(self)@ == old(self)@,
            r.is_some() == old(self)@.contains_key(key),
            r.is_some() ==> *r.unwrap() == old(self)@[key],
    {
        let ghost es = self.entries();
        let ghost q = harris_rank(es, key);
        proof {
            self.core.lemma_shape();
        }
        proof {
            if all_live(self.entries()) {
                lemma_harris_quiet(self.entries(), key);
            }
        }
        let (found, cursor) = self.harris_find(key);
        proof {
            self.core.lemma_shape();
            lemma_lower_bound_range(es, key);
            if lower_bound(es, key) < es.len() {
                lemma_view_lookup(self.entries(), key, q);
            } else {
                lemma_view_lookup(es, key, es.len() as int);
            }
        }
        if found {
            self.core.value_of(cursor.curr, Ghost(q))
        } else {
            None
        }
    }

    /// Inserts `key` with `value` unless a live node has `key` already.
    /// Returns whether it inserted; if not, `value` is dropped and the value
    /// in the list stays.
    pub fn harris_insert(&mut self, key: i32, value: V) -> (r: bool)
        requires
            old(self).wf(),
            old(self).allocated() < MAX_SLOTS,
            harris_open(old(self).entries(), key),
        ensures
            all_live(old(self).entries()) ==> all_live(final(self).entries()),
            final(self).wf(),
            old(self).allocated() <= final(self).allocated() <= old(self).allocated() + 1,
            r == !old(self)@.contains_key(key),
            final(self)@ == after_insert(old(self)@, key, value),
            final(self).entries() == if r {
                harris_spliced(old(self).entries(), key).insert(
                    harris_rank(old(self).entries(), key),
                    Entry { key, value: Some(value) },
                )
            } else {
                harris_spliced(old(self).entries(), key)
            },
    {
        let ghost es = self.entries();
        let ghost p = harris_rank(es, key);
        let mut node = Node { key, value: Some(value), next: TaggedPtr::null_ptr() };
        loop
            invariant
                *self == *old(self),
                self.wf(),
                es == self.entries(),
                self.allocated() < MAX_SLOTS,
                harris_open(es, key),
                node.key == key,
                node.value == Some(value),
                p == harris_rank(es, key),
            decreases 0int,
        {
            proof {
                self.core.lemma_shape();
            }
            proof {
                if all_live(self.entries()) {
                    lemma_harris_quiet(self.entries(), key);
                    lemma_all_live_insert(self.entries(), harris_rank(self.entries(), key), Entry { key, value: Some(value) });
                }
            }
            let (found, cursor) = self.harris_find(node.key);
            proof {
                self.core.lemma_shape();
                lemma_lower_bound_range(es, key);
                lemma_view_lookup(self.entries(), key, p);
            }
            if found {
                return false;
            }
            node.next = cursor.curr;
            proof {
                lemma_view_insert(self.entries(), p, Entry { key, value: Some(value) });
            }
            match self.core.install(cursor.prev, cursor.curr, node, Ghost(p)) {
                Ok(_) => {
                    return true;
                },
                Err(rejected) => {
                    node = rejected;
                },
            }
        }
    }

    /// Removes `key`: marks its live node, which hands the value over, then
    /// unlinks the node. Returns the value, or `None` if no live node has
    /// `key`.
    pub fn harris_remove(&mut self, key: i32) -> (r: Option<V>)
        requires
            old(self).wf(),
            !harris_blocked(old(self).entries(), key),
        ensures
            all_live(old(self).entries()) ==> all_live(final(self).entries()),
            final(self).wf(),
            final(self).allocated() == old(self).allocated(),
            r == lookup(old(self)@, key),
            final(self)@ == old(self)@.remove(key),
            final(self).entries() == if r is Some {
                harris_spliced(old(self).entries(), key).remove(
                    harris_rank(old(self).entries(), key),
                )
            } else {
                harris_spliced(old(self).entries(), key)
            },
    {
        let ghost es0 = self.entries();
        let ghost p = harris_rank(es0, key);
        loop
            invariant
                *self == *old(self),
                self.wf(),
                es0 == self.entries(),
                !harris_blocked(es0, key),
                p == harris_rank(es0, key),
            decreases 0int,
        {
            proof {
                self.core.lemma_shape();
            }
            proof {
                if all_live(self.entries()) {
                    lemma_harris_quiet(self.entries(), key);
                    if harris_rank(self.entries(), key) < self.entries().len() {
                        lemma_all_live_remove(self.entries(), harris_rank(self.entries(), key));
                    }
                }
            }
            let (found, cursor) = self.harris_find(key);
            let ghost es = self.entries();
            proof {
                self.core.lemma_shape();
                lemma_lower_bound_range(es0, key);
                if lower_bound(es0, key) < es0.len() {
                    lemma_view_lookup(es, key, p);
                } else {
                    lemma_view_lookup(es0, key, es0.len() as int);
                }
            }
            if !found {
                assert(old(self)@.remove(key) =~= old(self)@);
                return None;
            }
            let (next, value) = self.core.mark(cursor.curr, Ghost(p));
            if next.tag() == 1 {
                continue;
            }
            let ghost marked = self.entries();
            let ghost run = self.core.slots().subrange(p, p + 1);
            proof {
                lemma_view_mark(es, p);
                lemma_view_cut(marked, p, p + 1);
                assert(cut(marked, p, p + 1) =~= es.remove(p));
            }
            if self.core.swing(cursor.prev, cursor.curr, next, Ghost(p), Ghost(p + 1)).is_ok() {
                self.core.retire(cursor.curr, Ghost(run), Ghost(next));
            }
            return value;
        }
    }

    /// One attempt of the traversal that unlinks marked nodes one at a time.
    ///
    /// Walks from the head to the first live node at or above `key`. Each
    /// marked node met on the way is unlinked from its predecessor by a
    /// compare-and-set and retired. A failed compare-and-set gives the
    /// attempt up; with a single caller none fails.
    pub fn harris_michael_find_inner(&mut self, key: i32) -> (r: Result<(bool, Cursor), ()>)
        requires
            old(self).wf(),
        ensures
            final(self).wf(),
            final(self).allocated() == old(self).allocated(),
            r is Ok,
            final(self).entries() == michael_swept(old(self).entries(), key),
            final(self)@ == old(self)@,
            final(self).stands(r.unwrap().1, michael_rank(old(self).entries(), key), key),
            r.unwrap().0 == final(self).hit(michael_rank(old(self).entries(), key), key),
    {
        let ghost es0 = self.core.entries();
        let head = self.core.load(Link::Head, Ghost(0));
        let mut cursor = Cursor { prev: Link::Head, curr: head };
        let ghost mut p: int = 0;
        let ghost mut t: int = 0;
        proof {
            self.core.lemma_shape();
            assert(es0.take(0) =~= Seq::<Entry<V>>::empty());
            assert(live_only(es0.take(0)) + es0.skip(0) =~= es0);
        }
        loop
            invariant
                self.core.wf(),
                self.core.allocated() == old(self).core.allocated(),
                es0 == old(self).core.entries(),
                0 <= t <= es0.len(),
                self.core.entries() == live_only(es0.take(t)) + es0.skip(t),
                p == live_only(es0.take(t)).len(),
                self.core.at(cursor, p),
                forall|i: int| 0 <= i < t ==> !((#[trigger] es0[i]).live() && es0[i].key >= key),
                forall|i: int| 0 <= i < p ==> (#[trigger] self.core.entries()[i]).key < key,
                view_of(self.core.entries()) == view_of(es0),
            decreases self.core.entries().len() - p,
        {
            proof {
                self.core.lemma_shape();
            }
            if cursor.curr.is_null() {
                proof {
                    lemma_stop_live(es0, key, t);
                }
                return Ok((false, cursor));
            }
            let next = self.core.next_of(cursor.curr, Ghost(p));
            let node_key = self.core.key_of(cursor.curr, Ghost(p));
            let ghost es = self.core.entries();
            proof {
                assert(es[p] == es0[t]);
                lemma_live_only_step(es0, t);
            }
            match michael_step(key_order(node_key, key), next.tag() == 1) {
                MichaelStep::Advance => {
                    cursor.prev = Link::Next(cursor.curr.address());
                    cursor.curr = next;
                    proof {
                        assert(es =~= live_only(es0.take(t + 1)) + es0.skip(t + 1));
                        p = p + 1;
                        t = t + 1;
                    }
                },
                MichaelStep::Stop { found } => {
                    proof {
                        lemma_stop_live(es0, key, t);
                    }
                    return Ok((found, cursor));
                },
                MichaelStep::Unlink => {
                    let unmarked = next.with_tag(0);
                    let ghost run = self.core.slots().subrange(p, p + 1);
                    match self.core.swing(
                        cursor.prev,
                        cursor.curr,
                        unmarked,
                        Ghost(p),
                        Ghost(p + 1),
                    ) {
                        Err(_) => {
                            return Err(());
                        },
                        Ok(_) => {
                            self.core.retire(cursor.curr, Ghost(run), Ghost(unmarked));
                        },
                    }
                    cursor.curr = unmarked;
                    proof {
                        lemma_view_cut(es, p, p + 1);
                        assert(self.core.entries() =~= live_only(es0.take(t + 1)) + es0.skip(
                            t + 1,
                        ));
                        t = t + 1;
                    }
                },
            }
        }
    }

    /// The traversal that unlinks marked nodes one at a time: attempts are
    /// repeated until one is not given up.
    pub fn harris_michael_find(&mut self, key: i32) -> (r: (bool, Cursor))
        requires
            old(self).wf(),
        ensures
            final(self).wf(),
            final(self).allocated() == old(self).allocated(),
            final(self).entries() == michael_swept(old(self).entries(), key),
            final(self)@ == old(self)@,
            final(self).stands(r.1, michael_rank(old(self).entries(), key), key),
            r.0 == final(self).hit(michael_rank(old(self).entries(), key), key),
    {
        loop
            invariant
                *self == *old(self),
                self.wf(),
            decreases 0int,
        {
            if let Ok(r) = self.harris_michael_find_inner(key) {
                return r;
            }
        }
    }

    /// Looks `key` up with the traversal that unlinks marked nodes one at a
    /// time.
    pub fn harris_michael_get(&mut self, key: i32) -> (r: Option<&V>)
        requires
            old(self).wf(),
        ensures
            all_live(old(self).entries()) ==> all_live(final(self).entries()),
            final(self).wf(),
            final(self).allocated() == old(self).allocated(),
            final(self).entries() == michael_swept(old(self).entries(), key),
            final(self)@ == old(self)@,
            r.is_some() == old(self)@.contains_key(key),
            r.is_some() ==> *r.unwrap() == old(self)@[key],
    {
        let ghost p = michael_rank(self.entries(), key);
        proof {
            if all_live(self.entries()) {
                lemma_michael_quiet(self.entries(), key);
            }
        }
        let (found, cursor) = self.harris_michael_find(key);
        proof {
            self.core.lemma_shape();
            lemma_view_lookup(self.entries(), key, p);
        }
        if found {
            self.core.value_of(cursor.curr, Ghost(p))
        } else {
            None
        }
    }

    /// Inserts `key` with `value` unless a live node has `key` already.
    /// Returns whether it inserted; if not, `value` is dropped and the value
    /// in the list stays.
    pub fn harris_michael_insert(&mut self, key: i32, value: V) -> (r: bool)
        requires
            old(self).wf(),
            old(self).allocated() < MAX_SLOTS,
        ensures
            all_live(old(self).entries()) ==> all_live(final(self).entries()),
            final(self).wf(),
            old(self).allocated() <= final(self).allocated() <= old(self).allocated() + 1,
            r == !old(self)@.contains_key(key),
            final(self)@ == after_insert(old(self)@, key, value),
            final(self).entries() == if r {
                michael_swept(old(self).entries(), key).insert(
                    michael_rank(old(self).entries(), key),
                    Entry { key, value: Some(value) },
                )
            } else {
                michael_swept(old(self).entries(), key)
            },
    {
        let ghost p = michael_rank(self.entries(), key);
        let mut node = Node { key, value: Some(value), next: TaggedPtr::null_ptr() };
        loop
            invariant
                *self == *old(self),
                self.wf(),
                self.allocated() < MAX_SLOTS,
                node.key == key,
                node.value == Some(value),
                p == michael_rank(self.entries(), key),
            decreases 0int,
        {
            proof {
                if all_live(self.entries()) {
                    lemma_michael_quiet(self.entries(), key);
                    lemma_all_live_insert(self.entries(), michael_rank(self.entries(), key), Entry { key, value: Some(value) });
                }
            }
            let (found, cursor) = self.harris_michael_find(node.key);
            proof {
                self.core.lemma_shape();
                lemma_view_lookup(self.entries(), key, p);
            }
            if found {
                return false;
            }
            node.next = cursor.curr;
            proof {
                lemma_view_insert(self.entries(), p, Entry { key, value: Some(value) });
            }
            match self.core.install(cursor.prev, cursor.curr, node, Ghost(p)) {
                Ok(_) => {
                    return true;
                },
                Err(rejected) => {
                    node = rejected;
                },
            }
        }
    }

    /// Removes `key`: marks its live node, which hands the value over, then
    /// unlinks the node. Returns the value, or `None` if no live node has
    /// `key`.
    pub fn harris_michael_remove(&mut self, key: i32) -> (r: Option<V>)
        requires
            old(self).wf(),
        ensures
            all_live(old(self).entries()) ==> all_live(final(self).entries()),
            final(self).wf(),
            final(self).allocated() == old(self).allocated(),
            r == lookup(old(self)@, key),
            final(self)@ == old(self)@.remove(key),
            final(self).entries() == if r is Some {
                michael_swept(old(self).entries(), key).remove(
                    michael_rank(old(self).entries(), key),
                )
            } else {
                michael_swept(old(self).entries(), key)
            },
    {
        let ghost p = michael_rank(self.entries(), key);
        loop
            invariant
                *self == *old(self),
                self.wf(),
                p == michael_rank(self.entries(), key),
            decreases 0int,
        {
            proof {
                if all_live(self.entries()) {
                    lemma_michael_quiet(self.entries(), key);
                    if michael_rank(self.entries(), key) < self.entries().len() {
                        lemma_all_live_remove(self.entries(), michael_rank(self.entries(), key));
                    }
                }
            }
            let (found, cursor) = self.harris_michael_find(key);
            let ghost es = self.entries();
            proof {
                self.core.lemma_shape();
                lemma_view_lookup(es, key, p);
            }
            if !found {
                assert(old(self)@.remove(key) =~= old(self)@);
                return None;
            }
            let (next, value) = self.core.mark(cursor.curr, Ghost(p));
            if next.tag() == 1 {
                continue;
            }
            let ghost marked = self.entries();
            let ghost run = self.core.slots().subrange(p, p + 1);
            proof {
                lemma_view_mark(es, p);
                lemma_view_cut(marked, p, p + 1);
                assert(cut(marked, p, p + 1) =~= es.remove(p));
            }
            if self.core.swing(cursor.prev, cursor.curr, next, Ghost(p), Ghost(p + 1)).is_ok() {
                self.core.retire(cursor.curr, Ghost(run), Ghost(next));
            }
            return value;
        }
    }

    /// Looks `key` up with the traversal that only reads: it walks through
    /// marked nodes without unlinking them, and at the first node at or
    /// above `key` answers by that node's key and mark.
    pub fn harris_herlihy_shavit_get(&self, key: i32) -> (r: Option<&V>)
        requires
            self.wf(),
        ensures
            r.is_some() == self@.contains_key(key),
            r.is_some() ==> *r.unwrap() == self@[key],
    {
        let ghost es = self.core.entries();
        let mut curr = self.core.load(Link::Head, Ghost(0));
        let ghost mut t: int = 0;
        loop
            invariant
                self.core.wf(),
                es == self.core.entries(),
                self.core.points(curr, t),
                forall|i: int| 0 <= i < t ==> (#[trigger] es[i]).key < key,
            decreases es.len() - t,
        {
            proof {
                self.core.lemma_shape();
            }
            if curr.is_null() {
                proof {
                    lemma_view_lookup(es, key, t);
                }
                return None;
            }
            let node_key = self.core.key_of(curr, Ghost(t));
            let next = self.core.next_of(curr, Ghost(t));
            match read_step(key_order(node_key, key), next.tag() == 1) {
                ReadStep::Advance => {
                    curr = next;
                    proof {
                        t = t + 1;
                    }
                },
                ReadStep::Return { present } => {
                    proof {
                        lemma_view_lookup(es, key, t);
                    }
                    if present {
                        return self.core.value_of(curr, Ghost(t));
                    } else {
                        return None;
                    }
                },
            }
        }
    }

    /// Deletes `key` logically and stops there: the live node with `key` is
    /// marked and hands its value over, but stays linked, as it does while
    /// its remover has not come to unlink it yet.
    pub fn mark(&mut self, key: i32) -> (r: Option<V>)
        requires
            old(self).wf(),
        ensures
            final(self).wf(),
            final(self).allocated() == old(self).allocated(),
            r == lookup(old(self)@, key),
            final(self)@ == old(self)@.remove(key),
            final(self).entries() == if r is Some {
                old(self).entries().update(
                    lower_bound(old(self).entries(), key),
                    old(self).entries()[lower_bound(old(self).entries(), key)].dead(),
                )
            } else {
                old(self).entries()
            },
    {
        let ghost es = self.core.entries();
        let mut curr = self.core.load(Link::Head, Ghost(0));
        let ghost mut t: int = 0;
        loop
            invariant
                *self == *old(self),
                self.core.wf(),
                es == self.core.entries(),
                self.core.points(curr, t),
                forall|i: int| 0 <= i < t ==> (#[trigger] es[i]).key < key,
            decreases es.len() - t,
        {
            proof {
                self.core.lemma_shape();
                assert(old(self)@.remove(key) =~= old(self)@ || old(self)@.contains_key(key));
            }
            if curr.is_null() {
                proof {
                    lemma_view_lookup(es, key, t);
                }
                return None;
            }
            let node_key = self.core.key_of(curr, Ghost(t));
            let next = self.core.next_of(curr, Ghost(t));
            match read_step(key_order(node_key, key), next.tag() == 1) {
                ReadStep::Advance => {
                    curr = next;
                    proof {
                        t = t + 1;
                    }
                },
                ReadStep::Return { present } => {
                    proof {
                        lemma_view_lookup(es, key, t);
                        lemma_lower_bound(es, key, t);
                    }
                    if present {
                        proof {
                            lemma_view_mark(es, t);
                        }
                        let (_, value) = self.core.mark(curr, Ghost(t));
                        return value;
                    } else {
                        return None;
                    }
                },
            }
        }
    }

    /// The reachable nodes in order, each with its key and whether it is
    /// live.
    pub fn nodes(&self) -> (out: Vec<(i32, bool)>)
        requires
            self.wf(),
        ensures
            out@.len() == self.entries().len(),
            forall|i: int|
                0 <= i < out@.len() ==> #[trigger] out@[i] == (
                    self.entries()[i].key,
                    self.entries()[i].live(),
                ),
    {
        self.core.nodes()
    }

    /// Tears the list down, as its owner does when nobody else can reach
    /// it: walks the nodes from the head, hands out the key and value of
    /// each live node, leaves alone the value of each marked node, which
    /// its remover has, and frees every node.
    pub fn drain(&mut self) -> (out: Vec<(i32, V)>)
        requires
            old(self).wf(),
        ensures
            final(self).wf(),
            final(self).allocated() == old(self).allocated(),
            final(self).entries() == Seq::<Entry<V>>::empty(),
            final(self)@ == Map::<i32, V>::empty(),
            out@ == pairs(old(self).entries()),
    {
        proof {
            lemma_view_empty::<V>();
        }
        self.core.drain()
    }

    /// Keys strictly increase along the reachable nodes of a well-formed
    /// list, so no two nodes, and no two live nodes, share a key.
    pub proof fn lemma_sorted(&self)
        requires
            self.wf(),
        ensures
            sorted(self.entries()),
            forall|i: int, j: int|
                0 <= i < self.entries().len() && 0 <= j < self.entries().len() && i != j
                    ==> self.entries()[i].key != self.entries()[j].key,
    {
        self.core.lemma_shape();
        let es = self.entries();
        assert forall|i: int, j: int| 0 <= i < es.len() && 0 <= j < es.len() && i != j implies es[i].key
            != es[j].key by {
            if i < j {
                assert(es[i].key < es[j].key);
            } else {
                assert(es[j].key < es[i].key);
            }
        }
    }
}

/// The map whose three operations all use the traversal that unlinks a run
/// of marked nodes at once.
pub struct HList<V> {
    pub inner: List<V>,
}

impl<V> HList<V> {
    /// The empty map.
    pub fn new() -> (map: Self)
        ensures
            map.inner.wf(),
            map.inner.entries() == Seq::<Entry<V>>::empty(),
            map.inner@ == Map::<i32, V>::empty(),
            map.inner.allocated() == 0,
    {
        HList { inner: List::new() }
    }

    /// The value under `key`, if a live node has `key`.
    pub fn get(&mut self, key: i32) -> (r: Option<&V>)
        requires
            old(self).inner.wf(),
            !harris_blocked(old(self).inner.entries(), key),
        ensures
            all_live(old(self).inner.entries()) ==> all_live(final(self).inner.entries()),
            final(self).inner.wf(),
            final(self).inner.allocated() == old(self).inner.allocated(),
            final(self).inner.entries() == harris_spliced(old(self).inner.entries(), key),
            final(self).inner@ == old(self).inner@,
            r.is_some() == old(self).inner@.contains_key(key),
            r.is_some() ==> *r.unwrap() == old(self).inner@[key],
    {
        self.inner.harris_get(key)
    }

    /// Inserts `key` with `value` unless `key` is present. Returns whether
    /// it inserted.
    pub fn insert(&mut self, key: i32, value: V) -> (r: bool)
        requires
            old(self).inner.wf(),
            old(self).inner.allocated() < MAX_SLOTS,
            harris_open(old(self).inner.entries(), key),
        ensures
            all_live(old(self).inner.entries()) ==> all_live(final(self).inner.entries()),
            final(self).inner.wf(),
            old(self).inner.allocated() <= final(self).inner.allocated() <= old(
                self,
            ).inner.allocated() + 1,
            r == !old(self).inner@.contains_key(key),
            final(self).inner@ == after_insert(old(self).inner@, key, value),
            final(self).inner.entries() == if r {
                harris_spliced(old(self).inner.entries(), key).insert(
                    harris_rank(old(self).inner.entries(), key),
                    Entry { key, value: Some(value) },
                )
            } else {
                harris_spliced(old(self).inner.entries(), key)
            },
    {
        self.inner.harris_insert(key, value)
    }

    /// Removes `key` and returns its value, if `key` is present.
    pub fn remove(&mut self, key: i32) -> (r: Option<V>)
        requires
            old(self).inner.wf(),
            !harris_blocked(old(self).inner.entries(), key),
        ensures
            all_live(old(self).inner.entries()) ==> all_live(final(self).inner.entries()),
            final(self).inner.wf(),
            final(self).inner.allocated() == old(self).inner.allocated(),
            r == lookup(old(self).inner@, key),
            final(self).inner@ == old(self).inner@.remove(key),
            final(self).inner.entries() == if r is Some {
                harris_spliced(old(self).inner.entries(), key).remove(
                    harris_rank(old(self).inner.entries(), key),
                )
            } else {
                harris_spliced(old(self).inner.entries(), key)
            },
    {
        self.inner.harris_remove(key)
    }
}

/// The map whose three operations all use the traversal that unlinks
/// marked nodes one at a time.
pub struct HMList<V> {
    pub inner: List<V>,
}

impl<V> HMList<V> {
    /// The empty map.
    pub fn new() -> (map: Self)
        ensures
            map.inner.wf(),
            map.inner.entries() == Seq::<Entry<V>>::empty(),
            map.inner@ == Map::<i32, V>::empty(),
            map.inner.allocated() == 0,
    {
        HMList { inner: List::new() }
    }

    /// The value under `key`, if a live node has `key`.
    pub fn get(&mut self, key: i32) -> (r: Option<&V>)
        requires
            old(self).inner.wf(),
        ensures
            all_live(old(self).inner.entries()) ==> all_live(final(self).inner.entries()),
            final(self).inner.wf(),
            final(self).inner.allocated() == old(self).inner.allocated(),
            final(self).inner.entries() == michael_swept(old(self).inner.entries(), key),
            final(self).inner@ == old(self).inner@,
            r.is_some() == old(self).inner@.contains_key(key),
            r.is_some() ==> *r.unwrap() == old(self).inner@[key],
    {
        self.inner.harris_michael_get(key)
    }

    /// Inserts `key` with `value` unless `key` is present. Returns whether
    /// it inserted.
    pub fn insert(&mut self, key: i32, value: V) -> (r: bool)
        requires
            old(self).inner.wf(),
            old(self).inner.allocated() < MAX_SLOTS,
        ensures
            all_live(old(self).inner.entries()) ==> all_live(final(self).inner.entries()),
            final(self).inner.wf(),
            old(self).inner.allocated() <= final(self).inner.allocated() <= old(
                self,
            ).inner.allocated() + 1,
            r == !old(self).inner@.contains_key(key),
            final(self).inner@ == after_insert(old(self).inner@, key, value),
            final(self).inner.entries() == if r {
                michael_swept(old(self).inner.entries(), key).insert(
                    michael_rank(old(self).inner.entries(), key),
                    Entry { key, value: Some(value) },
                )
            } else {
                michael_swept(old(self).inner.entries(), key)
            },
    {
        self.inner.harris_michael_insert(key, value)
    }

    /// Removes `key` and returns its value, if `key` is present.
    pub fn remove(&mut self, key: i32) -> (r: Option<V>)
        requires
            old(self).inner.wf(),
        ensures
            all_live(old(self).inner.entries()) ==> all_live(final(self).inner.entries()),
            final(self).inner.wf(),
            final(self).inner.allocated() == old(self).inner.allocated(),
            r == lookup(old(self).inner@, key),
            final(self).inner@ == old(self).inner@.remove(key),
            final(self).inner.entries() == if r is Some {
                michael_swept(old(self).inner.entries(), key).remove(
                    michael_rank(old(self).inner.entries(), key),
                )
            } else {
                michael_swept(old(self).inner.entries(), key)
            },
    {
        self.inner.harris_michael_remove(key)
    }
}

/// The map that looks keys up with the traversal that only reads, and
/// inserts and removes with the one that unlinks marked nodes one at a time:
/// a traversal that only reads finds no link through which to change the list.
pub struct HHSList<V> {
    pub inner: List<V>,
}

impl<V> HHSList<V> {
    /// The empty map.
    pub fn new() -> (map: Self)
        ensures
            map.inner.wf(),
            map.inner.entries() == Seq::<Entry<V>>::empty(),
            map.inner@ == Map::<i32, V>::empty(),
            map.inner.allocated() == 0,
    {
        HHSList { inner: List::new() }
    }

    /// The value under `key`, if a live node has `key`.
    pub fn get(&self, key: i32) -> (r: Option<&V>)
        requires
            self.inner.wf(),
        ensures
            r.is_some() == self.inner@.contains_key(key),
            r.is_some() ==> *r.unwrap() == self.inner@[key],
    {
        self.inner.harris_herlihy_shavit_get(key)
    }

    /// Inserts `key` with `value` unless `key` is present. Returns whether
    /// it inserted.
    pub fn insert(&mut self, key: i32, value: V) -> (r: bool)
        requires
            old(self).inner.wf(),
            old(self).inner.allocated() < MAX_SLOTS,
        ensures
            all_live(old(self).inner.entries()) ==> all_live(final(self).inner.entries()),
            final(self).inner.wf(),
            old(self).inner.allocated() <= final(self).inner.allocated() <= old(
                self,
            ).inner.allocated() + 1,
            r == !old(self).inner@.contains_key(key),
            final(self).inner@ == after_insert(old(self).inner@, key, value),
            final(self).inner.entries() == if r {
                michael_swept(old(self).inner.entries(), key).insert(
                    michael_rank(old(self).inner.entries(), key),
                    Entry { key, value: Some(value) },
                )
            } else {
                michael_swept(old(self).inner.entries(), key)
            },
    {
        self.inner.harris_michael_insert(key, value)
    }

    /// Removes `key` and returns its value, if `key` is present.
    pub fn remove(&mut self, key: i32) -> (r: Option<V>)
        requires
            old(self).inner.wf(),
        ensures
            all_live(old(self).inner.entries()) ==> all_live(final(self).inner.entries()),
            final(self).inner.wf(),
            final(self).inner.allocated() == old(self).inner.allocated(),
            r == lookup(old(self).inner@, key),
            final(self).inner@ == old(self).inner@.remove(key),
            final(self).inner.entries() == if r is Some {
                michael_swept(old(self).inner.entries(), key).remove(
                    michael_rank(old(self).inner.entries(), key),
                )
            } else {
                michael_swept(old(self).inner.entries(), key)
            },
    {
        self.inner.harris_michael_remove(key)
    }
}

} // verus!
