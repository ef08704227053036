//! Laws of the map that a list stands for, stated over the functions in
//! which the operations' contracts are written.

use vstd::prelude::*;
use crate::model::{
    Entry, sorted, view_of, pairs, lookup, after_insert, cut, lemma_view_cut, lemma_view_insert,
    lemma_view_empty,
};

verus! {

/// One operation on a map.
pub enum Op<V> {
    Get(i32),
    Insert(i32, V),
    Remove(i32),
}

/// The map after one operation.
pub open spec fn apply<V>(m: Map<i32, V>, op: Op<V>) -> Map<i32, V> {
    match op {
        Op::Get(_) => m,
        Op::Insert(k, v) => after_insert(m, k, v),
        Op::Remove(k) => m.remove(k),
    }
}

/// The map after a sequence of operations, the first applied first.
pub open spec fn run<V>(m: Map<i32, V>, ops: Seq<Op<V>>) -> Map<i32, V>
    decreases ops.len(),
{
    if ops.len() == 0 {
        m
    } else {
        apply(run(m, ops.drop_last()), ops.last())
    }
}

/// The map after inserting the pairs in order.
pub open spec fn insert_all<V>(m: Map<i32, V>, ins: Seq<(i32, V)>) -> Map<i32, V>
    decreases ins.len(),
{
    if ins.len() == 0 {
        m
    } else {
        after_insert(insert_all(m, ins.drop_last()), ins.last().0, ins.last().1)
    }
}

/// The map after removing the keys in order.
pub open spec fn remove_all<V>(m: Map<i32, V>, keys: Seq<i32>) -> Map<i32, V>
    decreases keys.len(),
{
    if keys.len() == 0 {
        m
    } else {
        remove_all(m, keys.drop_last()).remove(keys.last())
    }
}

/// A lookup after an insert that took effect, with any operations between
/// them but no removal of the key, answers the inserted value.
pub proof fn lemma_insert_then_get<V>(m: Map<i32, V>, k: i32, v: V, ops: Seq<Op<V>>)
    requires
        !m.contains_key(k),
        forall|i: int| 0 <= i < ops.len() ==> #[trigger] ops[i] != Op::<V>::Remove(k),
    ensures
        lookup(run(after_insert(m, k, v), ops), k) == Some(v),
    decreases ops.len(),
{
    if ops.len() > 0 {
        let init = ops.drop_last();
        assert forall|i: int| 0 <= i < init.len() implies #[trigger] init[i] != Op::<V>::Remove(
            k,
        ) by {
            assert(init[i] == ops[i]);
        }
        lemma_insert_then_get(m, k, v, init);
        assert(ops.last() == ops[ops.len() - 1]);
    }
}

/// A lookup after a removal, with any operations between them but no insert
/// of the key, answers that the key is absent.
pub proof fn lemma_remove_then_get<V>(m: Map<i32, V>, k: i32, ops: Seq<Op<V>>)
    requires
        forall|i: int|
            0 <= i < ops.len() ==> (#[trigger] ops[i] matches Op::Insert(x, _) ==> x != k),
    ensures
        lookup(run(m.remove(k), ops), k) is None,
    decreases ops.len(),
{
    if ops.len() > 0 {
        let init = ops.drop_last();
        assert forall|i: int| 0 <= i < init.len() implies (#[trigger] init[i] matches Op::Insert(
            x,
            _,
        ) ==> x != k) by {
            assert(init[i] == ops[i]);
        }
        lemma_remove_then_get(m, k, init);
        assert(ops.last() == ops[ops.len() - 1]);
    }
}

/// An insert of a key that is present changes nothing: after any insert of
/// `k`, a second insert of `k` finds it present and leaves the map, and so
/// the value under `k`, as it is.
pub proof fn lemma_insert_twice<V>(m: Map<i32, V>, k: i32, v: V, w: V)
    ensures
        after_insert(m, k, v).contains_key(k),
        after_insert(after_insert(m, k, v), k, w) == after_insert(m, k, v),
        lookup(after_insert(after_insert(m, k, v), k, w), k) == lookup(after_insert(m, k, v), k),
{
}

/// What the map holds after inserting pairs with distinct keys that were
/// all absent: the old keys and the new ones, each new key with its value.
pub proof fn lemma_insert_all<V>(m: Map<i32, V>, ins: Seq<(i32, V)>)
    requires
        forall|a: int| 0 <= a < ins.len() ==> !m.contains_key((#[trigger] ins[a]).0),
        forall|a: int, b: int| 0 <= a < b < ins.len() ==> ins[a].0 != ins[b].0,
    ensures
        forall|a: int|
            0 <= a < ins.len() ==> lookup(insert_all(m, ins), (#[trigger] ins[a]).0) == Some(
                ins[a].1,
            ),
        forall|x: i32|
            #[trigger] insert_all(m, ins).contains_key(x) ==> m.contains_key(x) || exists|a: int|
                0 <= a < ins.len() && ins[a].0 == x,
    decreases ins.len(),
{
    if ins.len() > 0 {
        let init = ins.drop_last();
        let n = ins.len() - 1;
        assert forall|a: int| 0 <= a < init.len() implies !m.contains_key((#[trigger] init[a]).0) by {
            assert(init[a] == ins[a]);
        }
        assert forall|a: int, b: int| 0 <= a < b < init.len() implies init[a].0 != init[b].0 by {
            assert(init[a] == ins[a]);
            assert(init[b] == ins[b]);
        }
        lemma_insert_all(m, init);
        let before = insert_all(m, init);
        assert(!before.contains_key(ins[n].0)) by {
            if before.contains_key(ins[n].0) {
                assert(!m.contains_key(ins[n].0));
                let a = choose|a: int| 0 <= a < init.len() && init[a].0 == ins[n].0;
                assert(init[a] == ins[a]);
            }
        }
        assert forall|a: int| 0 <= a < ins.len() implies lookup(
            insert_all(m, ins),
            (#[trigger] ins[a]).0,
        ) == Some(ins[a].1) by {
            if a < n {
                assert(init[a] == ins[a]);
                assert(lookup(before, init[a].0) == Some(init[a].1));
            }
        }
        assert forall|x: i32| #[trigger] insert_all(m, ins).contains_key(x) implies m.contains_key(x)
            || exists|a: int| 0 <= a < ins.len() && ins[a].0 == x by {
            if x == ins[n].0 {
            } else if !m.contains_key(x) {
                assert(before.contains_key(x));
                let a = choose|a: int| 0 <= a < init.len() && init[a].0 == x;
                assert(init[a] == ins[a]);
            }
        }
    }
}

/// Removing other keys does not change what a lookup of `x` answers.
pub proof fn lemma_remove_others<V>(m: Map<i32, V>, keys: Seq<i32>, x: i32)
    requires
        forall|i: int| 0 <= i < keys.len() ==> #[trigger] keys[i] != x,
    ensures
        lookup(remove_all(m, keys), x) == lookup(m, x),
    decreases keys.len(),
{
    if keys.len() > 0 {
        let init = keys.drop_last();
        assert forall|i: int| 0 <= i < init.len() implies #[trigger] init[i] != x by {
            assert(init[i] == keys[i]);
        }
        lemma_remove_others(m, init, x);
        assert(keys.last() == keys[keys.len() - 1]);
    }
}

/// Inserts of distinct keys that were all absent, followed by removals of
/// some of them in any order, each key at most once: every removal answers
/// the value that was inserted under its key. Here `i` is the removal and
/// `a` the insert of the same key.
pub proof fn lemma_round_trip<V>(m: Map<i32, V>, ins: Seq<(i32, V)>, rem: Seq<i32>, i: int, a: int)
    requires
        forall|a: int| 0 <= a < ins.len() ==> !m.contains_key((#[trigger] ins[a]).0),
        forall|a: int, b: int| 0 <= a < b < ins.len() ==> ins[a].0 != ins[b].0,
        forall|i: int, j: int| 0 <= i < j < rem.len() ==> rem[i] != rem[j],
        0 <= i < rem.len(),
        0 <= a < ins.len(),
        rem[i] == ins[a].0,
    ensures
        lookup(remove_all(insert_all(m, ins), rem.take(i)), rem[i]) == Some(ins[a].1),
{
    lemma_insert_all(m, ins);
    let earlier = rem.take(i);
    assert forall|j: int| 0 <= j < earlier.len() implies #[trigger] earlier[j] != rem[i] by {
        assert(earlier[j] == rem[j]);
    }
    lemma_remove_others(insert_all(m, ins), earlier, rem[i]);
}

/// What a teardown hands out is what the map holds, each key once and in
/// increasing order: the value of a node that was removed, or logically
/// deleted, before is not handed out again.
pub proof fn lemma_pairs<V>(es: Seq<Entry<V>>)
    requires
        sorted(es),
    ensures
        forall|a: int, b: int| 0 <= a < b < pairs(es).len() ==> pairs(es)[a].0 < pairs(es)[b].0,
        forall|a: int|
            0 <= a < pairs(es).len() ==> lookup(view_of(es), (#[trigger] pairs(es)[a]).0) == Some(
                pairs(es)[a].1,
            ),
        forall|k: i32|
            #[trigger] view_of(es).contains_key(k) ==> exists|a: int|
                0 <= a < pairs(es).len() && pairs(es)[a].0 == k,
        forall|a: int|
            0 <= a < pairs(es).len() ==> exists|i: int|
                0 <= i < es.len() && es[i].key == (#[trigger] pairs(es)[a]).0,
    decreases es.len(),
{
    if es.len() == 0 {
        lemma_view_empty::<V>();
        assert(es =~= Seq::<Entry<V>>::empty());
    } else {
        let n = es.len() - 1;
        let init = es.drop_last();
        let last = es.last();
        assert forall|i: int, j: int| 0 <= i < j < init.len() implies init[i].key < init[j].key by {
            assert(init[i] == es[i]);
            assert(init[j] == es[j]);
        }
        lemma_pairs(init);
        let ps = pairs(init);
        assert forall|a: int| 0 <= a < ps.len() implies (#[trigger] ps[a]).0 < last.key by {
            let i = choose|i: int| 0 <= i < init.len() && init[i].key == ps[a].0;
            assert(init[i] == es[i]);
            assert(es[i].key < es[n].key);
        }
        if last.live() {
            lemma_view_insert(init, n, last);
            assert(init.insert(n, last) =~= es);
            let qs = pairs(es);
            assert(qs == ps.push((last.key, last.value.unwrap())));
            assert forall|a: int| 0 <= a < qs.len() implies lookup(
                view_of(es),
                (#[trigger] qs[a]).0,
            ) == Some(qs[a].1) by {
                if a < ps.len() {
                    assert(qs[a] == ps[a]);
                    assert(lookup(view_of(init), ps[a].0) == Some(ps[a].1));
                }
            }
            assert forall|k: i32| #[trigger] view_of(es).contains_key(k) implies exists|a: int|
                0 <= a < qs.len() && qs[a].0 == k by {
                if k == last.key {
                    assert(qs[ps.len() as int].0 == k);
                } else {
                    assert(view_of(init).contains_key(k));
                    let a = choose|a: int| 0 <= a < ps.len() && ps[a].0 == k;
                    assert(qs[a] == ps[a]);
                }
            }
            assert forall|a: int| 0 <= a < qs.len() implies exists|i: int|
                0 <= i < es.len() && es[i].key == (#[trigger] qs[a]).0 by {
                if a < ps.len() {
                    assert(qs[a] == ps[a]);
                    let i = choose|i: int| 0 <= i < init.len() && init[i].key == ps[a].0;
                    assert(init[i] == es[i]);
                } else {
                    assert(es[n].key == qs[a].0);
                }
            }
            assert forall|a: int, b: int| 0 <= a < b < qs.len() implies qs[a].0 < qs[b].0 by {
                assert(qs[a] == ps[a]);
                if b < ps.len() {
                    assert(qs[b] == ps[b]);
                }
            }
        } else {
            lemma_view_cut(es, n as int, es.len() as int);
            assert(cut(es, n as int, es.len() as int) =~= init);
            assert(pairs(es) == ps);
            assert forall|a: int| 0 <= a < ps.len() implies exists|i: int|
                0 <= i < es.len() && es[i].key == (#[trigger] ps[a]).0 by {
                let i = choose|i: int| 0 <= i < init.len() && init[i].key == ps[a].0;
                assert(init[i] == es[i]);
            }
        }
    }
}

} // verus!
