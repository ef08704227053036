//! The mathematical model of a list: the sequence of its reachable nodes and
//! the map that this sequence stands for.

use vstd::prelude::*;

verus! {

/// One reachable node as the model sees it: its key, and its value as long as
/// the node is live. A logically deleted node has given its value away.
pub struct Entry<V> {
    pub key: i32,
    pub value: Option<V>,
}

impl<V> Entry<V> {
    /// A node is live while it is unmarked, that is, while it holds its value.
    pub open spec fn live(self) -> bool {
        self.value is Some
    }

    /// The same node after logical deletion.
    pub open spec fn dead(self) -> Entry<V> {
        Entry { key: self.key, value: None }
    }
}

/// Keys strictly increase along the sequence.
pub open spec fn sorted<V>(es: Seq<Entry<V>>) -> bool {
    forall|i: int, j: int| 0 <= i < j < es.len() ==> es[i].key < es[j].key
}

/// No node of the sequence is logically deleted.
pub open spec fn all_live<V>(es: Seq<Entry<V>>) -> bool {
    forall|i: int| 0 <= i < es.len() ==> (#[trigger] es[i]).live()
}

/// Position `i` holds a live node with key `k`.
pub open spec fn live_at<V>(es: Seq<Entry<V>>, k: i32, i: int) -> bool {
    0 <= i < es.len() && es[i].key == k && es[i].live()
}

/// Some live node has key `k`.
pub open spec fn has_live<V>(es: Seq<Entry<V>>, k: i32) -> bool {
    exists|i: int| live_at(es, k, i)
}

/// The position of a live node with key `k`.
pub open spec fn live_index<V>(es: Seq<Entry<V>>, k: i32) -> int {
    choose|i: int| live_at(es, k, i)
}

/// The map that a sequence of nodes stands for: the keys of its live nodes,
/// each with the value that its node holds.
pub open spec fn view_of<V>(es: Seq<Entry<V>>) -> Map<i32, V> {
    Map::new(|k: i32| has_live(es, k), |k: i32| es[live_index(es, k)].value.unwrap())
}

/// The sequence without the nodes at positions `a..b`.
pub open spec fn cut<V>(es: Seq<Entry<V>>, a: int, b: int) -> Seq<Entry<V>> {
    es.take(a) + es.skip(b)
}

/// In a sorted sequence a live node is the only live node of its key.
pub proof fn lemma_live_unique<V>(es: Seq<Entry<V>>, k: i32, i: int)
    requires
        sorted(es),
        live_at(es, k, i),
    ensures
        has_live(es, k),
        live_index(es, k) == i,
        view_of(es).contains_key(k),
        view_of(es)[k] == es[i].value.unwrap(),
{
    let j = live_index(es, k);
    assert(live_at(es, k, j));
    if j < i {
        assert(es[j].key < es[i].key);
    } else if i < j {
        assert(es[i].key < es[j].key);
    }
}

/// Looking a key up at its place in a sorted sequence: with every node before
/// `j` below `k` and the node at `j`, if there is one, at or above `k`, the
/// map holds `k` exactly when that node is live and has key `k`.
pub proof fn lemma_view_lookup<V>(es: Seq<Entry<V>>, k: i32, j: int)
    requires
        sorted(es),
        0 <= j <= es.len(),
        forall|i: int| 0 <= i < j ==> (#[trigger] es[i]).key < k,
        j < es.len() ==> es[j].key >= k,
    ensures
        view_of(es).contains_key(k) <==> (j < es.len() && es[j].key == k && es[j].live()),
        view_of(es).contains_key(k) ==> view_of(es)[k] == es[j].value.unwrap(),
{
    if has_live(es, k) {
        let i = live_index(es, k);
        assert(live_at(es, k, i));
        if i < j {
            assert(es[i].key < k);
        } else if j < i {
            assert(es[j].key < es[i].key);
        }
        assert(i == j);
    }
    if j < es.len() && es[j].key == k && es[j].live() {
        lemma_live_unique(es, k, j);
    }
}

/// Unlinking logically deleted nodes keeps the order and the map.
pub proof fn lemma_view_cut<V>(es: Seq<Entry<V>>, a: int, b: int)
    requires
        sorted(es),
        0 <= a <= b <= es.len(),
        forall|i: int| a <= i < b ==> !(#[trigger] es[i]).live(),
    ensures
        sorted(cut(es, a, b)),
        view_of(cut(es, a, b)) == view_of(es),
{
    let es2 = cut(es, a, b);
    assert forall|i: int, j: int| 0 <= i < j < es2.len() implies es2[i].key < es2[j].key by {
        let i1 = if i < a { i } else { i + (b - a) };
        let j1 = if j < a { j } else { j + (b - a) };
        assert(es2[i] == es[i1]);
        assert(es2[j] == es[j1]);
    }
    assert forall|k: i32| #[trigger] has_live(es2, k) == has_live(es, k) && (has_live(es, k)
        ==> es2[live_index(es2, k)].value == es[live_index(es, k)].value) by {
        if has_live(es2, k) {
            let i2 = live_index(es2, k);
            assert(live_at(es2, k, i2));
            let i1 = if i2 < a { i2 } else { i2 + (b - a) };
            assert(es2[i2] == es[i1]);
            lemma_live_unique(es, k, i1);
        }
        if has_live(es, k) {
            let i1 = live_index(es, k);
            assert(live_at(es, k, i1));
            let i2 = if i1 < a { i1 } else { i1 - (b - a) };
            assert(es2[i2] == es[i1]);
            lemma_live_unique(es2, k, i2);
        }
    }
    assert(view_of(es2) =~= view_of(es));
}

/// Linking a live node in at its place in the order adds its key and value
/// to the map.
pub proof fn lemma_view_insert<V>(es: Seq<Entry<V>>, p: int, e: Entry<V>)
    requires
        sorted(es),
        0 <= p <= es.len(),
        e.live(),
        p > 0 ==> es[p - 1].key < e.key,
        p < es.len() ==> e.key < es[p].key,
    ensures
        sorted(es.insert(p, e)),
        view_of(es.insert(p, e)) == view_of(es).insert(e.key, e.value.unwrap()),
{
    let es2 = es.insert(p, e);
    assert forall|i: int, j: int| 0 <= i < j < es2.len() implies es2[i].key < es2[j].key by {
        if i < p && j > p {
            assert(es[i].key <= es[p - 1].key);
            if j - 1 > p {
                assert(es[p].key < es[j - 1].key);
            }
        } else if i < p && j == p {
            assert(es[i].key <= es[p - 1].key);
        } else if i == p {
            if j - 1 > p {
                assert(es[p].key < es[j - 1].key);
            }
        }
    }
    let m = view_of(es).insert(e.key, e.value.unwrap());
    assert(es2[p] == e);
    lemma_live_unique(es2, e.key, p);
    assert forall|k: i32| k != e.key implies #[trigger] has_live(es2, k) == has_live(es, k) && (
    has_live(es, k) ==> es2[live_index(es2, k)].value == es[live_index(es, k)].value) by {
        if has_live(es2, k) {
            let i2 = live_index(es2, k);
            assert(live_at(es2, k, i2));
            let i1 = if i2 < p { i2 } else { i2 - 1 };
            assert(es2[i2] == es[i1]);
            lemma_live_unique(es, k, i1);
        }
        if has_live(es, k) {
            let i1 = live_index(es, k);
            assert(live_at(es, k, i1));
            let i2 = if i1 < p { i1 } else { i1 + 1 };
            assert(es2[i2] == es[i1]);
            lemma_live_unique(es2, k, i2);
        }
    }
    assert(view_of(es2) =~= m);
}

/// Marking a live node takes its key out of the map.
pub proof fn lemma_view_mark<V>(es: Seq<Entry<V>>, p: int)
    requires
        sorted(es),
        0 <= p < es.len(),
        es[p].live(),
    ensures
        sorted(es.update(p, es[p].dead())),
        view_of(es.update(p, es[p].dead())) == view_of(es).remove(es[p].key),
{
    let es2 = es.update(p, es[p].dead());
    let key = es[p].key;
    assert forall|i: int, j: int| 0 <= i < j < es2.len() implies es2[i].key < es2[j].key by {
        assert(es2[i].key == es[i].key);
        assert(es2[j].key == es[j].key);
    }
    if has_live(es2, key) {
        let i2 = live_index(es2, key);
        assert(live_at(es2, key, i2));
        if i2 < p {
            assert(es2[i2].key < es2[p].key);
        } else if p < i2 {
            assert(es2[p].key < es2[i2].key);
        }
        assert(false);
    }
    assert forall|k: i32| k != key implies #[trigger] has_live(es2, k) == has_live(es, k) && (
    has_live(es, k) ==> es2[live_index(es2, k)].value == es[live_index(es, k)].value) by {
        if has_live(es2, k) {
            let i2 = live_index(es2, k);
            assert(live_at(es2, k, i2));
            assert(es2[i2] == es[i2]);
            lemma_live_unique(es, k, i2);
        }
        if has_live(es, k) {
            let i1 = live_index(es, k);
            assert(live_at(es, k, i1));
            assert(es2[i1] == es[i1]);
            lemma_live_unique(es2, k, i1);
        }
    }
    assert(view_of(es2) =~= view_of(es).remove(key));
}

/// The empty sequence stands for the empty map.
pub proof fn lemma_view_empty<V>()
    ensures
        view_of(Seq::<Entry<V>>::empty()) == Map::<i32, V>::empty(),
        sorted(Seq::<Entry<V>>::empty()),
{
    let es = Seq::<Entry<V>>::empty();
    assert forall|k: i32| !has_live(es, k) by {
        if has_live(es, k) {
            assert(live_at(es, k, live_index(es, k)));
        }
    }
    assert(view_of(es) =~= Map::<i32, V>::empty());
}

/// The live nodes of a sequence, in order.
pub open spec fn live_only<V>(es: Seq<Entry<V>>) -> Seq<Entry<V>>
    decreases es.len(),
{
    if es.len() == 0 {
        es
    } else if es.last().live() {
        live_only(es.drop_last()).push(es.last())
    } else {
        live_only(es.drop_last())
    }
}

/// The position of the first live node whose key is at or above `k`, or
/// the length of the sequence if there is none.
pub open spec fn stop_live<V>(es: Seq<Entry<V>>, k: i32) -> int
    decreases es.len(),
{
    if es.len() == 0 || (es[0].live() && es[0].key >= k) {
        0
    } else {
        1 + stop_live(es.skip(1), k)
    }
}

/// The position of the first node whose key is at or above `k`, live or
/// not, or the length of the sequence if there is none.
pub open spec fn lower_bound<V>(es: Seq<Entry<V>>, k: i32) -> int
    decreases es.len(),
{
    if es.len() == 0 || es[0].key >= k {
        0
    } else {
        1 + lower_bound(es.skip(1), k)
    }
}

/// The position at which the run of logically deleted nodes that ends just
/// before `j` begins; `j` itself if the node before `j` is live.
pub open spec fn run_start<V>(es: Seq<Entry<V>>, j: int) -> int
    decreases j,
{
    if j <= 0 || j > es.len() || es[j - 1].live() {
        j
    } else {
        run_start(es, j - 1)
    }
}

/// `stop_live` is the position that a walk from the front finds.
pub proof fn lemma_stop_live<V>(es: Seq<Entry<V>>, k: i32, t: int)
    requires
        0 <= t <= es.len(),
        forall|i: int| 0 <= i < t ==> !((#[trigger] es[i]).live() && es[i].key >= k),
        t < es.len() ==> es[t].live() && es[t].key >= k,
    ensures
        stop_live(es, k) == t,
    decreases t,
{
    if t > 0 {
        let rest = es.skip(1);
        assert forall|i: int| 0 <= i < t - 1 implies !((#[trigger] rest[i]).live() && rest[i].key
            >= k) by {
            assert(rest[i] == es[i + 1]);
        }
        if t < es.len() {
            assert(rest[t - 1] == es[t]);
        }
        lemma_stop_live(rest, k, t - 1);
    }
}

/// `lower_bound` is the position that a walk from the front finds.
pub proof fn lemma_lower_bound<V>(es: Seq<Entry<V>>, k: i32, t: int)
    requires
        0 <= t <= es.len(),
        forall|i: int| 0 <= i < t ==> (#[trigger] es[i]).key < k,
        t < es.len() ==> es[t].key >= k,
    ensures
        lower_bound(es, k) == t,
    decreases t,
{
    if t > 0 {
        let rest = es.skip(1);
        assert forall|i: int| 0 <= i < t - 1 implies (#[trigger] rest[i]).key < k by {
            assert(rest[i] == es[i + 1]);
        }
        if t < es.len() {
            assert(rest[t - 1] == es[t]);
        }
        lemma_lower_bound(rest, k, t - 1);
    }
}

/// `run_start` is the position behind the last live node before `j`.
pub proof fn lemma_run_start<V>(es: Seq<Entry<V>>, j: int, q: int)
    requires
        0 <= q <= j <= es.len(),
        forall|i: int| q <= i < j ==> !(#[trigger] es[i]).live(),
        q > 0 ==> es[q - 1].live(),
    ensures
        run_start(es, j) == q,
    decreases j - q,
{
    if q < j {
        assert(!es[j - 1].live());
        lemma_run_start(es, j - 1, q);
    }
}

/// Extending a prefix by one node extends its live nodes by that node, if
/// it is live.
pub proof fn lemma_live_only_step<V>(es: Seq<Entry<V>>, t: int)
    requires
        0 <= t < es.len(),
    ensures
        live_only(es.take(t + 1)) == if es[t].live() {
            live_only(es.take(t)).push(es[t])
        } else {
            live_only(es.take(t))
        },
{
    assert(es.take(t + 1).drop_last() =~= es.take(t));
    assert(es.take(t + 1).last() == es[t]);
}

/// A sequence without logically deleted nodes is its own live part.
pub proof fn lemma_live_only_all<V>(es: Seq<Entry<V>>)
    requires
        all_live(es),
    ensures
        live_only(es) == es,
    decreases es.len(),
{
    if es.len() > 0 {
        assert forall|i: int| 0 <= i < es.drop_last().len() implies (
        #[trigger] es.drop_last()[i]).live() by {
            assert(es.drop_last()[i] == es[i]);
        }
        lemma_live_only_all(es.drop_last());
        assert(es.drop_last().push(es.last()) =~= es);
    }
}

/// What the one-at-a-time traversal leaves of a sequence when it looks for
/// `k`: every logically deleted node before the first live node at or above
/// `k` is unlinked; the rest stays.
pub open spec fn michael_swept<V>(es: Seq<Entry<V>>, k: i32) -> Seq<Entry<V>> {
    live_only(es.take(stop_live(es, k))) + es.skip(stop_live(es, k))
}

/// The position at which the one-at-a-time traversal for `k` ends, counted
/// in what it leaves of the sequence.
pub open spec fn michael_rank<V>(es: Seq<Entry<V>>, k: i32) -> int {
    live_only(es.take(stop_live(es, k))).len() as int
}

/// The batch traversal for `k` is held up: the first node at or above `k`
/// is logically deleted and still linked, so an attempt is given up until
/// that node has been unlinked.
pub open spec fn harris_blocked<V>(es: Seq<Entry<V>>, k: i32) -> bool {
    lower_bound(es, k) < es.len() && !es[lower_bound(es, k)].live()
}

/// The position at which the batch traversal for `k` leaves its cursor: the
/// start of the run of logically deleted nodes that ends where the keys
/// reach `k`.
pub open spec fn harris_rank<V>(es: Seq<Entry<V>>, k: i32) -> int {
    run_start(es, lower_bound(es, k))
}

/// What the batch traversal leaves of a sequence when it looks for `k`: the
/// run of logically deleted nodes just before the first node at or above
/// `k` is unlinked. Where no node is at or above `k` nothing is unlinked.
pub open spec fn harris_spliced<V>(es: Seq<Entry<V>>, k: i32) -> Seq<Entry<V>> {
    if lower_bound(es, k) < es.len() {
        cut(es, harris_rank(es, k), lower_bound(es, k))
    } else {
        es
    }
}

/// Whether the first node at or above `k` has key `k`.
pub open spec fn key_found<V>(es: Seq<Entry<V>>, k: i32) -> bool {
    lower_bound(es, k) < es.len() && es[lower_bound(es, k)].key == k
}

/// A new key `k` can be linked in through the cursor of the batch
/// traversal: the traversal is not held up, and if every key is below `k`
/// the last node is live.
pub open spec fn harris_open<V>(es: Seq<Entry<V>>, k: i32) -> bool {
    &&& !harris_blocked(es, k)
    &&& lower_bound(es, k) == es.len() ==> harris_rank(es, k) == es.len()
}

/// Without logically deleted nodes the batch traversal is never held up and
/// unlinks nothing.
pub proof fn lemma_harris_quiet<V>(es: Seq<Entry<V>>, k: i32)
    requires
        all_live(es),
    ensures
        harris_open(es, k),
        !harris_blocked(es, k),
        harris_spliced(es, k) == es,
        0 <= lower_bound(es, k) <= es.len(),
        harris_rank(es, k) == lower_bound(es, k),
{
    lemma_lower_bound_range(es, k);
    let j = lower_bound(es, k);
    lemma_run_start(es, j, j);
    assert(cut(es, j, j) =~= es);
}

/// `lower_bound` is a position of the sequence, with smaller keys before it
/// and no smaller key at it.
pub proof fn lemma_lower_bound_range<V>(es: Seq<Entry<V>>, k: i32)
    ensures
        0 <= lower_bound(es, k) <= es.len(),
        forall|i: int| 0 <= i < lower_bound(es, k) ==> (#[trigger] es[i]).key < k,
        lower_bound(es, k) < es.len() ==> es[lower_bound(es, k)].key >= k,
    decreases es.len(),
{
    if !(es.len() == 0 || es[0].key >= k) {
        let rest = es.skip(1);
        lemma_lower_bound_range(rest, k);
        assert forall|i: int| 0 <= i < lower_bound(es, k) implies (#[trigger] es[i]).key < k by {
            if i > 0 {
                assert(rest[i - 1] == es[i]);
            }
        }
        if lower_bound(es, k) < es.len() {
            assert(rest[lower_bound(rest, k)] == es[lower_bound(es, k)]);
        }
    }
}

/// The keys and values of the live nodes of a sequence, in order.
pub open spec fn pairs<V>(es: Seq<Entry<V>>) -> Seq<(i32, V)>
    decreases es.len(),
{
    if es.len() == 0 {
        Seq::empty()
    } else if es.last().live() {
        pairs(es.drop_last()).push((es.last().key, es.last().value.unwrap()))
    } else {
        pairs(es.drop_last())
    }
}

/// Extending a prefix by one node extends its pairs by that node's, if the
/// node is live.
pub proof fn lemma_pairs_step<V>(es: Seq<Entry<V>>, t: int)
    requires
        0 <= t < es.len(),
    ensures
        pairs(es.take(t + 1)) == if es[t].live() {
            pairs(es.take(t)).push((es[t].key, es[t].value.unwrap()))
        } else {
            pairs(es.take(t))
        },
{
    assert(es.take(t + 1).drop_last() =~= es.take(t));
    assert(es.take(t + 1).last() == es[t]);
}

/// What a lookup of `k` in the map `m` answers.
pub open spec fn lookup<V>(m: Map<i32, V>, k: i32) -> Option<V> {
    if m.contains_key(k) {
        Some(m[k])
    } else {
        None
    }
}

/// The map after an insert of `k` with `v`: a key that is present keeps its
/// value.
pub open spec fn after_insert<V>(m: Map<i32, V>, k: i32, v: V) -> Map<i32, V> {
    if m.contains_key(k) {
        m
    } else {
        m.insert(k, v)
    }
}

/// `stop_live` is a position of the sequence; no live node before it is at
/// or above `k`, and the node at it is.
pub proof fn lemma_stop_live_range<V>(es: Seq<Entry<V>>, k: i32)
    ensures
        0 <= stop_live(es, k) <= es.len(),
        forall|i: int|
            0 <= i < stop_live(es, k) ==> !((#[trigger] es[i]).live() && es[i].key >= k),
        stop_live(es, k) < es.len() ==> es[stop_live(es, k)].live() && es[stop_live(es, k)].key
            >= k,
    decreases es.len(),
{
    if !(es.len() == 0 || (es[0].live() && es[0].key >= k)) {
        let rest = es.skip(1);
        lemma_stop_live_range(rest, k);
        assert forall|i: int| 0 <= i < stop_live(es, k) implies !((#[trigger] es[i]).live()
            && es[i].key >= k) by {
            if i > 0 {
                assert(rest[i - 1] == es[i]);
            }
        }
        if stop_live(es, k) < es.len() {
            assert(rest[stop_live(rest, k)] == es[stop_live(es, k)]);
        }
    }
}

/// Without logically deleted nodes the one-at-a-time traversal unlinks
/// nothing.
pub proof fn lemma_michael_quiet<V>(es: Seq<Entry<V>>, k: i32)
    requires
        all_live(es),
    ensures
        michael_swept(es, k) == es,
        0 <= michael_rank(es, k) <= es.len(),
        michael_rank(es, k) == stop_live(es, k),
{
    lemma_stop_live_range(es, k);
    let j = stop_live(es, k);
    assert forall|i: int| 0 <= i < es.take(j).len() implies (#[trigger] es.take(j)[i]).live() by {
        assert(es.take(j)[i] == es[i]);
    }
    lemma_live_only_all(es.take(j));
    assert(es.take(j) + es.skip(j) =~= es);
}

/// Linking a live node in leaves no logically deleted node where there was
/// none.
pub proof fn lemma_all_live_insert<V>(es: Seq<Entry<V>>, p: int, e: Entry<V>)
    requires
        all_live(es),
        e.live(),
        0 <= p <= es.len(),
    ensures
        all_live(es.insert(p, e)),
{
    assert forall|i: int| 0 <= i < es.insert(p, e).len() implies (#[trigger] es.insert(
        p,
        e,
    )[i]).live() by {
        if i < p {
            assert(es.insert(p, e)[i] == es[i]);
        } else if i > p {
            assert(es.insert(p, e)[i] == es[i - 1]);
        }
    }
}

/// Unlinking a node leaves no logically deleted node where there was none.
pub proof fn lemma_all_live_remove<V>(es: Seq<Entry<V>>, p: int)
    requires
        all_live(es),
        0 <= p < es.len(),
    ensures
        all_live(es.remove(p)),
{
    assert forall|i: int| 0 <= i < es.remove(p).len() implies (#[trigger] es.remove(p)[i]).live() by {
        if i < p {
            assert(es.remove(p)[i] == es[i]);
        } else {
            assert(es.remove(p)[i] == es[i + 1]);
        }
    }
}

} // verus!
