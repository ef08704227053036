use harris_list::harris_michael_list::List;
use harris_list::list::{HHSList, HList, HMList};
use rand::seq::SliceRandom;

/// The keys of partition `t`, in a random order.
fn shuffled_keys(t: i32) -> Vec<i32> {
    let mut rng = rand::thread_rng();
    let mut keys: Vec<i32> = (0..1000).map(|k| k * 10 + t).collect();
    keys.shuffle(&mut rng);
    keys
}

/// The partitions `from..to`, each shuffled, taken in turns: one key of
/// each partition after the other, as workers running side by side would.
fn in_turns(from: i32, to: i32) -> Vec<i32> {
    let parts: Vec<Vec<i32>> = (from..to).map(shuffled_keys).collect();
    let mut order = Vec::new();
    for step in 0..1000 {
        for part in &parts {
            order.push(part[step]);
        }
    }
    order
}

#[test]
fn smoke_h_list() {
    let mut map: HList<String> = HList::new();
    for i in in_turns(0, 10) {
        assert!(map.insert(i, i.to_string()));
    }
    for i in in_turns(0, 5) {
        assert_eq!(i.to_string(), map.remove(i).unwrap());
    }
    for i in in_turns(5, 10) {
        assert_eq!(i.to_string(), *map.get(i).unwrap());
    }
}

#[test]
fn smoke_hm_list() {
    let mut map: HMList<String> = HMList::new();
    for i in in_turns(0, 10) {
        assert!(map.insert(i, i.to_string()));
    }
    for i in in_turns(0, 5) {
        assert_eq!(i.to_string(), map.remove(i).unwrap());
    }
    for i in in_turns(5, 10) {
        assert_eq!(i.to_string(), *map.get(i).unwrap());
    }
}

#[test]
fn smoke_hhs_list() {
    let mut map: HHSList<String> = HHSList::new();
    for i in in_turns(0, 10) {
        assert!(map.insert(i, i.to_string()));
    }
    for i in in_turns(0, 5) {
        assert_eq!(i.to_string(), map.remove(i).unwrap());
    }
    for i in in_turns(5, 10) {
        assert_eq!(i.to_string(), *map.get(i).unwrap());
    }
}

#[test]
fn smoke_list() {
    let mut list: List<String> = List::new();

    // insert
    for t in 0..10 {
        for i in shuffled_keys(t) {
            assert!(list.insert(i, i.to_string()));
        }
    }

    // remove
    for t in 0..5 {
        for i in shuffled_keys(t) {
            assert_eq!(i.to_string(), list.remove(i).unwrap());
        }
    }

    // get
    for t in 5..10 {
        for i in shuffled_keys(t) {
            assert_eq!(i.to_string(), *list.get(i).unwrap());
        }
    }
}

#[test]
fn smoke_leaves_the_upper_partitions_in_order() {
    let mut list: List<String> = List::new();
    for i in in_turns(0, 10) {
        assert!(list.insert(i, i.to_string()));
    }
    for i in in_turns(0, 5) {
        assert_eq!(Some(i.to_string()), list.remove(i));
    }
    let nodes = list.nodes();
    assert_eq!(nodes.len(), 5000);
    let mut expected = Vec::new();
    for k in 0..1000 {
        for t in 5..10 {
            expected.push((k * 10 + t, true));
        }
    }
    assert_eq!(nodes, expected);
    for i in in_turns(0, 5) {
        assert_eq!(None, list.get(i));
    }
}
