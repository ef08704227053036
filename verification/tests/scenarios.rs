use harris_list::chain::Cursor;
use harris_list::harris_michael_list;
use harris_list::list::{HHSList, HList, HMList, List};
use std::cell::Cell;
use std::rc::Rc;

fn word(s: &str) -> String {
    s.to_string()
}

/// A value that counts how often it is destroyed.
struct Counted {
    drops: Rc<Cell<u32>>,
}

impl Drop for Counted {
    fn drop(&mut self) {
        self.drops.set(self.drops.get() + 1);
    }
}

fn counted() -> (Counted, Rc<Cell<u32>>) {
    let drops = Rc::new(Cell::new(0));
    (Counted { drops: drops.clone() }, drops)
}

// ---- one key, from the empty list ----

#[test]
fn single_key_h_list() {
    let mut map: HList<String> = HList::new();
    assert_eq!(map.get(5), None);
    assert_eq!(map.remove(5), None);
    assert!(map.insert(5, word("a")));
    assert_eq!(map.get(5), Some(&word("a")));
    assert!(!map.insert(5, word("b")));
    assert_eq!(map.get(5), Some(&word("a")));
    assert_eq!(map.remove(5), Some(word("a")));
    assert_eq!(map.get(5), None);
}

#[test]
fn single_key_hm_list() {
    let mut map: HMList<String> = HMList::new();
    assert_eq!(map.get(5), None);
    assert_eq!(map.remove(5), None);
    assert!(map.insert(5, word("a")));
    assert_eq!(map.get(5), Some(&word("a")));
    assert!(!map.insert(5, word("b")));
    assert_eq!(map.get(5), Some(&word("a")));
    assert_eq!(map.remove(5), Some(word("a")));
    assert_eq!(map.get(5), None);
}

#[test]
fn single_key_hhs_list() {
    let mut map: HHSList<String> = HHSList::new();
    assert_eq!(map.get(5), None);
    assert_eq!(map.remove(5), None);
    assert!(map.insert(5, word("a")));
    assert_eq!(map.get(5), Some(&word("a")));
    assert!(!map.insert(5, word("b")));
    assert_eq!(map.get(5), Some(&word("a")));
    assert_eq!(map.remove(5), Some(word("a")));
    assert_eq!(map.get(5), None);
}

#[test]
fn single_key_list() {
    let mut list: harris_michael_list::List<String> = harris_michael_list::List::new();
    assert_eq!(list.get(5), None);
    assert_eq!(list.remove(5), None);
    assert!(list.insert(5, word("a")));
    assert_eq!(list.get(5), Some(&word("a")));
    assert!(!list.insert(5, word("b")));
    assert_eq!(list.get(5), Some(&word("a")));
    assert_eq!(list.remove(5), Some(word("a")));
    assert_eq!(list.get(5), None);
}

// ---- inserts out of order, then removal of the middle ----

#[test]
fn ordered_insert_and_remove_middle_h_list() {
    let mut map: HList<String> = HList::new();
    assert!(map.insert(3, word("c")));
    assert!(map.insert(1, word("a")));
    assert!(map.insert(2, word("b")));
    assert_eq!(map.inner.nodes(), vec![(1, true), (2, true), (3, true)]);
    assert_eq!(map.get(2), Some(&word("b")));
    assert_eq!(map.remove(2), Some(word("b")));
    assert_eq!(map.get(2), None);
    assert_eq!(map.inner.nodes(), vec![(1, true), (3, true)]);
}

#[test]
fn ordered_insert_and_remove_middle_hm_list() {
    let mut map: HMList<String> = HMList::new();
    assert!(map.insert(3, word("c")));
    assert!(map.insert(1, word("a")));
    assert!(map.insert(2, word("b")));
    assert_eq!(map.inner.nodes(), vec![(1, true), (2, true), (3, true)]);
    assert_eq!(map.get(2), Some(&word("b")));
    assert_eq!(map.remove(2), Some(word("b")));
    assert_eq!(map.get(2), None);
    assert_eq!(map.inner.nodes(), vec![(1, true), (3, true)]);
}

#[test]
fn ordered_insert_and_remove_middle_hhs_list() {
    let mut map: HHSList<String> = HHSList::new();
    assert!(map.insert(3, word("c")));
    assert!(map.insert(1, word("a")));
    assert!(map.insert(2, word("b")));
    assert_eq!(map.inner.nodes(), vec![(1, true), (2, true), (3, true)]);
    assert_eq!(map.get(2), Some(&word("b")));
    assert_eq!(map.remove(2), Some(word("b")));
    assert_eq!(map.get(2), None);
    assert_eq!(map.inner.nodes(), vec![(1, true), (3, true)]);
}

#[test]
fn ordered_insert_and_remove_middle_list() {
    let mut list: harris_michael_list::List<String> = harris_michael_list::List::new();
    assert!(list.insert(3, word("c")));
    assert!(list.insert(1, word("a")));
    assert!(list.insert(2, word("b")));
    assert_eq!(list.nodes(), vec![(1, true), (2, true), (3, true)]);
    assert_eq!(list.get(2), Some(&word("b")));
    assert_eq!(list.remove(2), Some(word("b")));
    assert_eq!(list.get(2), None);
    assert_eq!(list.nodes(), vec![(1, true), (3, true)]);
}

// ---- teardown with a marked node ----

fn three_counted(list: &mut List<Counted>) -> (Rc<Cell<u32>>, Rc<Cell<u32>>, Rc<Cell<u32>>) {
    let (a, drops_a) = counted();
    let (b, drops_b) = counted();
    let (c, drops_c) = counted();
    assert!(list.harris_michael_insert(3, c));
    assert!(list.harris_michael_insert(1, a));
    assert!(list.harris_michael_insert(2, b));
    (drops_a, drops_b, drops_c)
}

#[test]
fn teardown_skips_the_value_of_a_marked_node() {
    let mut list: List<Counted> = List::new();
    let (drops_a, drops_b, drops_c) = three_counted(&mut list);

    // A remover has marked node 2 and holds its value, but has not
    // unlinked the node.
    let held = list.mark(2);
    assert!(held.is_some());
    assert_eq!(list.nodes(), vec![(1, true), (2, false), (3, true)]);

    let handed_out = list.drain();
    let keys: Vec<i32> = handed_out.iter().map(|pair| pair.0).collect();
    assert_eq!(keys, vec![1, 3]);
    assert_eq!(list.nodes(), vec![]);
    drop(handed_out);
    assert_eq!((drops_a.get(), drops_b.get(), drops_c.get()), (1, 0, 1));

    drop(list);
    assert_eq!((drops_a.get(), drops_b.get(), drops_c.get()), (1, 0, 1));

    drop(held);
    assert_eq!((drops_a.get(), drops_b.get(), drops_c.get()), (1, 1, 1));
}

#[test]
fn teardown_of_adapters_skips_the_value_of_a_marked_node() {
    let mut h: HList<Counted> = HList::new();
    let mut hm: HMList<Counted> = HMList::new();
    let mut hhs: HHSList<Counted> = HHSList::new();
    let in_h = three_counted(&mut h.inner);
    let in_hm = three_counted(&mut hm.inner);
    let in_hhs = three_counted(&mut hhs.inner);
    let held = (h.inner.mark(2), hm.inner.mark(2), hhs.inner.mark(2));
    drop(h.inner.drain());
    drop(hm.inner.drain());
    drop(hhs.inner.drain());
    drop((h, hm, hhs));
    for drops in [&in_h, &in_hm, &in_hhs] {
        assert_eq!((drops.0.get(), drops.1.get(), drops.2.get()), (1, 0, 1));
    }
    drop(held);
    for drops in [&in_h, &in_hm, &in_hhs] {
        assert_eq!((drops.0.get(), drops.1.get(), drops.2.get()), (1, 1, 1));
    }
}

#[test]
fn dropping_a_list_destroys_each_live_value_once() {
    let mut list: List<Counted> = List::new();
    let (drops_a, drops_b, drops_c) = three_counted(&mut list);
    let removed = list.harris_michael_remove(2);
    drop(list);
    assert_eq!((drops_a.get(), drops_b.get(), drops_c.get()), (1, 0, 1));
    drop(removed);
    assert_eq!((drops_a.get(), drops_b.get(), drops_c.get()), (1, 1, 1));
}

#[test]
fn rejected_insert_drops_the_new_value_and_keeps_the_old() {
    let mut list: harris_michael_list::List<Counted> = harris_michael_list::List::new();
    let (first, drops_first) = counted();
    let (second, drops_second) = counted();
    assert!(list.insert(5, first));
    assert!(!list.insert(5, second));
    assert_eq!((drops_first.get(), drops_second.get()), (0, 1));
    let kept = list.drain();
    assert_eq!(kept.len(), 1);
    drop(kept);
    assert_eq!((drops_first.get(), drops_second.get()), (1, 1));
}

// ---- two removers of one key ----

#[test]
fn second_remover_gets_nothing_hm_list() {
    let mut map: HMList<Counted> = HMList::new();
    let (v, drops) = counted();
    assert!(map.insert(7, v));
    // The first remover wins the mark; the second arrives before the node
    // is unlinked.
    let first = map.inner.mark(7);
    let second = map.remove(7);
    assert!(first.is_some());
    assert!(second.is_none());
    assert_eq!(map.inner.nodes(), vec![]);
    drop(second);
    assert_eq!(drops.get(), 0);
    drop(first);
    assert_eq!(drops.get(), 1);
    drop(map);
    assert_eq!(drops.get(), 1);
}

#[test]
fn second_remover_gets_nothing_hhs_list() {
    let mut map: HHSList<Counted> = HHSList::new();
    let (v, drops) = counted();
    assert!(map.insert(7, v));
    let first = map.inner.mark(7);
    assert!(map.get(7).is_none());
    let second = map.remove(7);
    assert!(first.is_some());
    assert!(second.is_none());
    drop((first, second));
    drop(map);
    assert_eq!(drops.get(), 1);
}

#[test]
fn second_remover_gets_nothing_h_list() {
    let mut map: HList<Counted> = HList::new();
    let (v, drops) = counted();
    assert!(map.insert(7, v));
    let first = map.remove(7);
    let second = map.remove(7);
    assert!(first.is_some());
    assert!(second.is_none());
    drop((first, second));
    drop(map);
    assert_eq!(drops.get(), 1);
}

#[test]
fn second_mark_gets_nothing() {
    let mut list: List<String> = List::new();
    assert!(list.harris_michael_insert(7, word("v")));
    assert_eq!(list.mark(7), Some(word("v")));
    assert_eq!(list.mark(7), None);
    assert_eq!(list.mark(8), None);
    assert_eq!(list.nodes(), vec![(7, false)]);
}

// ---- what each traversal unlinks ----

fn one_to_six() -> List<String> {
    let mut list: List<String> = List::new();
    for k in [4, 1, 6, 3, 5, 2] {
        assert!(list.harris_michael_insert(k, k.to_string()));
    }
    list
}

fn null_cursor(cursor: Cursor) -> bool {
    cursor.curr.is_null()
}

#[test]
fn batch_traversal_unlinks_the_run_before_its_stop() {
    let mut list = one_to_six();
    for k in [2, 3, 4] {
        assert_eq!(list.mark(k), Some(k.to_string()));
    }
    assert_eq!(
        list.nodes(),
        vec![(1, true), (2, false), (3, false), (4, false), (5, true), (6, true)]
    );
    assert_eq!(list.harris_get(5), Some(&word("5")));
    assert_eq!(list.nodes(), vec![(1, true), (5, true), (6, true)]);
}

#[test]
fn batch_traversal_leaves_earlier_runs() {
    let mut list = one_to_six();
    assert_eq!(list.mark(1), Some(word("1")));
    assert_eq!(list.mark(4), Some(word("4")));
    assert_eq!(list.harris_get(5), Some(&word("5")));
    assert_eq!(
        list.nodes(),
        vec![(1, false), (2, true), (3, true), (5, true), (6, true)]
    );
    assert_eq!(list.harris_get(2), Some(&word("2")));
    assert_eq!(list.nodes(), vec![(2, true), (3, true), (5, true), (6, true)]);
}

#[test]
fn batch_attempt_is_given_up_at_a_marked_stop() {
    let mut list = one_to_six();
    assert_eq!(list.mark(3), Some(word("3")));
    assert!(list.harris_find_inner(3).is_err());
    assert_eq!(list.nodes().len(), 6);
    let (found, cursor) = list.harris_find_inner(4).unwrap();
    assert!(found);
    assert!(!null_cursor(cursor));
    assert_eq!(
        list.nodes(),
        vec![(1, true), (2, true), (4, true), (5, true), (6, true)]
    );
    let (found, _) = list.harris_find_inner(3).unwrap();
    assert!(!found);
}

#[test]
fn batch_traversal_reports_absence_at_the_end_as_it_stands() {
    let mut list = one_to_six();
    assert_eq!(list.mark(6), Some(word("6")));
    let (found, cursor) = list.harris_find_inner(9).unwrap();
    assert!(!found);
    assert!(null_cursor(cursor));
    assert_eq!(list.nodes().len(), 6);
    assert_eq!(list.harris_get(9), None);
    assert_eq!(list.harris_remove(9), None);
}

#[test]
fn batch_insert_and_remove_splice_too() {
    let mut list = one_to_six();
    assert_eq!(list.mark(2), Some(word("2")));
    assert_eq!(list.mark(3), Some(word("3")));
    assert!(!list.harris_insert(4, word("x")));
    assert_eq!(list.nodes(), vec![(1, true), (4, true), (5, true), (6, true)]);
    assert_eq!(list.mark(5), Some(word("5")));
    assert_eq!(list.harris_remove(6), Some(word("6")));
    assert_eq!(list.nodes(), vec![(1, true), (4, true)]);
    assert!(list.harris_insert(2, word("two")));
    assert_eq!(list.harris_get(2), Some(&word("two")));
    assert_eq!(list.nodes(), vec![(1, true), (2, true), (4, true)]);
}

#[test]
fn stepwise_traversal_unlinks_every_marked_node_on_its_way() {
    let mut list = one_to_six();
    for k in [1, 3, 4, 6] {
        assert_eq!(list.mark(k), Some(k.to_string()));
    }
    assert_eq!(list.harris_michael_get(5), Some(&word("5")));
    assert_eq!(list.nodes(), vec![(2, true), (5, true), (6, false)]);
    assert_eq!(list.harris_michael_get(7), None);
    assert_eq!(list.nodes(), vec![(2, true), (5, true)]);
}

#[test]
fn stepwise_traversal_stops_at_the_first_live_node_at_or_above_the_key() {
    let mut list = one_to_six();
    assert_eq!(list.mark(3), Some(word("3")));
    assert_eq!(list.mark(5), Some(word("5")));
    let (found, cursor) = list.harris_michael_find_inner(3).unwrap();
    assert!(!found);
    assert!(!null_cursor(cursor));
    assert_eq!(
        list.nodes(),
        vec![(1, true), (2, true), (4, true), (5, false), (6, true)]
    );
    let (found, cursor) = list.harris_michael_find(7);
    assert!(!found);
    assert!(null_cursor(cursor));
    assert_eq!(list.nodes(), vec![(1, true), (2, true), (4, true), (6, true)]);
}

#[test]
fn stepwise_insert_takes_the_place_of_a_marked_node() {
    let mut list = one_to_six();
    assert_eq!(list.mark(3), Some(word("3")));
    assert!(list.harris_michael_insert(3, word("again")));
    assert_eq!(list.harris_michael_get(3), Some(&word("again")));
    assert_eq!(list.nodes().len(), 6);
    assert_eq!(list.harris_michael_remove(3), Some(word("again")));
    assert_eq!(list.harris_michael_remove(3), None);
}

#[test]
fn reading_traversal_walks_through_marked_nodes() {
    let mut list = one_to_six();
    assert_eq!(list.mark(2), Some(word("2")));
    assert_eq!(list.mark(3), Some(word("3")));
    assert_eq!(list.harris_herlihy_shavit_get(4), Some(&word("4")));
    assert_eq!(list.harris_herlihy_shavit_get(3), None);
    assert_eq!(list.harris_herlihy_shavit_get(2), None);
    assert_eq!(list.harris_herlihy_shavit_get(1), Some(&word("1")));
    assert_eq!(list.harris_herlihy_shavit_get(0), None);
    assert_eq!(list.harris_herlihy_shavit_get(7), None);
    assert_eq!(
        list.nodes(),
        vec![(1, true), (2, false), (3, false), (4, true), (5, true), (6, true)]
    );
}

#[test]
fn careful_list_finds_like_the_stepwise_traversal() {
    let mut list: harris_michael_list::List<String> = harris_michael_list::List::new();
    for k in [20, 10, 30] {
        assert!(list.insert(k, k.to_string()));
    }
    let (found, cursor) = list.find_inner(20).unwrap();
    assert!(found);
    assert!(!null_cursor(cursor));
    let (found, cursor) = list.find(25);
    assert!(!found);
    assert!(!null_cursor(cursor));
    let (found, cursor) = list.find(31);
    assert!(!found);
    assert!(null_cursor(cursor));
    assert_eq!(list.drain(), vec![(10, word("10")), (20, word("20")), (30, word("30"))]);
    assert_eq!(list.get(10), None);
}

// ---- order, uniqueness, and slots used again ----

#[test]
fn keys_stay_strictly_increasing() {
    let mut list: List<String> = List::new();
    let keys = [50, -3, 17, 0, i32::MAX, i32::MIN, 17, 8, -3, 99];
    for k in keys {
        list.harris_insert(k, k.to_string());
    }
    let nodes = list.nodes();
    assert_eq!(
        nodes,
        vec![
            (i32::MIN, true),
            (-3, true),
            (0, true),
            (8, true),
            (17, true),
            (50, true),
            (99, true),
            (i32::MAX, true)
        ]
    );
    for pair in nodes.windows(2) {
        assert!(pair[0].0 < pair[1].0);
    }
}

#[test]
fn no_marked_node_stays_after_plain_operations() {
    let mut h: HList<String> = HList::new();
    let mut hm: HMList<String> = HMList::new();
    for k in 0..40 {
        assert!(h.insert((k * 7) % 40, k.to_string()));
        assert!(hm.insert((k * 7) % 40, k.to_string()));
    }
    for k in 0..40 {
        if k % 3 == 0 {
            assert!(h.remove(k).is_some());
            assert!(hm.remove(k).is_some());
        }
    }
    assert!(h.inner.nodes().iter().all(|node| node.1));
    assert!(hm.inner.nodes().iter().all(|node| node.1));
    assert_eq!(h.inner.nodes(), hm.inner.nodes());
    assert_eq!(h.inner.nodes().len(), 26);
}

#[test]
fn freed_nodes_are_used_again() {
    let mut list: harris_michael_list::List<i32> = harris_michael_list::List::new();
    for round in 0..50 {
        for k in 0..20 {
            assert!(list.insert(k, k + round));
        }
        for k in 0..20 {
            assert_eq!(list.remove(k), Some(k + round));
        }
    }
    assert_eq!(list.nodes(), vec![]);
    assert!(list.insert(1, 1));
    assert_eq!(list.get(1), Some(&1));
}
