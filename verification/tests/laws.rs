use harris_list::harris_michael_list::List;
use harris_list::list::{HHSList, HList, HMList};
use harris_list::step::{
    harris_step, key_order, michael_step, read_step, HarrisStep, KeyOrder, MichaelStep, ReadStep,
};
use harris_list::tagged::TaggedPtr;

#[test]
fn get_answers_the_last_insert_until_a_remove() {
    let mut list: List<&str> = List::new();
    assert!(list.insert(4, "four"));
    assert!(list.insert(9, "nine"));
    assert_eq!(list.remove(9), Some("nine"));
    assert!(!list.insert(4, "other"));
    assert_eq!(list.get(7), None);
    assert_eq!(list.get(4), Some(&"four"));
}

#[test]
fn get_answers_absent_after_a_remove_until_an_insert() {
    let mut list: List<&str> = List::new();
    assert!(list.insert(4, "four"));
    assert_eq!(list.remove(4), Some("four"));
    assert!(list.insert(5, "five"));
    assert_eq!(list.remove(3), None);
    assert_eq!(list.get(4), None);
    assert!(list.insert(4, "again"));
    assert_eq!(list.get(4), Some(&"again"));
}

#[test]
fn second_insert_does_not_replace() {
    let mut h: HList<u8> = HList::new();
    let mut hm: HMList<u8> = HMList::new();
    let mut hhs: HHSList<u8> = HHSList::new();
    assert!(h.insert(1, 10) && hm.insert(1, 10) && hhs.insert(1, 10));
    assert!(!h.insert(1, 20));
    assert!(!hm.insert(1, 20));
    assert!(!hhs.insert(1, 20));
    assert_eq!(h.get(1), Some(&10));
    assert_eq!(hm.get(1), Some(&10));
    assert_eq!(hhs.get(1), Some(&10));
    assert_eq!(h.inner.nodes(), vec![(1, true)]);
}

#[test]
fn removes_in_any_order_return_the_matching_values() {
    let inserts = [(12, "l"), (3, "c"), (40, "x"), (7, "g"), (25, "q")];
    let orders: [[i32; 5]; 4] =
        [[12, 3, 40, 7, 25], [25, 7, 40, 3, 12], [3, 7, 12, 25, 40], [40, 25, 12, 7, 3]];
    for order in orders {
        let mut h: HList<&str> = HList::new();
        let mut hm: HMList<&str> = HMList::new();
        let mut hhs: HHSList<&str> = HHSList::new();
        for (k, v) in inserts {
            assert!(h.insert(k, v) && hm.insert(k, v) && hhs.insert(k, v));
        }
        for k in order {
            let v = inserts.iter().find(|pair| pair.0 == k).unwrap().1;
            assert_eq!(h.remove(k), Some(v));
            assert_eq!(hm.remove(k), Some(v));
            assert_eq!(hhs.remove(k), Some(v));
        }
        assert_eq!(h.inner.nodes(), vec![]);
        assert_eq!(hm.inner.nodes(), vec![]);
        assert_eq!(hhs.inner.nodes(), vec![]);
    }
}

#[test]
fn teardown_hands_out_what_the_map_holds() {
    let mut list: List<&str> = List::new();
    for (k, v) in [(5, "e"), (1, "a"), (3, "c"), (2, "b"), (4, "d")] {
        assert!(list.insert(k, v));
    }
    assert_eq!(list.remove(3), Some("c"));
    assert_eq!(list.drain(), vec![(1, "a"), (2, "b"), (4, "d"), (5, "e")]);
    assert_eq!(list.drain(), vec![]);
}

#[test]
fn tagged_pointer_keeps_address_and_mark_apart() {
    let p = TaggedPtr::new(48, 0);
    assert_eq!((p.address(), p.tag(), p.is_null()), (48, 0, false));
    let marked = p.with_tag(1);
    assert_eq!((marked.address(), marked.tag(), marked.is_null()), (48, 1, false));
    assert_ne!(p, marked);
    assert_eq!(marked.with_tag(0), p);
    assert_eq!(marked.with_tag(1), marked);
    assert_eq!(TaggedPtr::new(48, 1), marked);
    // Only the low bit of a tag counts.
    assert_eq!(p.with_tag(2), p);
    assert_eq!(p.with_tag(3), marked);
    assert_eq!(TaggedPtr::new(usize::MAX - 1, 7).address(), usize::MAX - 1);
    assert_eq!(TaggedPtr::new(usize::MAX - 1, 7).tag(), 1);
}

#[test]
fn null_pointer_is_null_whatever_its_mark() {
    let null = TaggedPtr::null_ptr();
    assert_eq!((null.address(), null.tag(), null.is_null()), (0, 0, true));
    let marked = null.with_tag(1);
    assert_eq!((marked.address(), marked.tag(), marked.is_null()), (0, 1, true));
    assert_ne!(null, marked);
    assert_eq!(TaggedPtr::new(0, 0), null);
}

#[test]
fn key_order_places_keys() {
    assert_eq!(key_order(1, 2), KeyOrder::Less);
    assert_eq!(key_order(2, 2), KeyOrder::Equal);
    assert_eq!(key_order(3, 2), KeyOrder::Greater);
    assert_eq!(key_order(i32::MIN, i32::MAX), KeyOrder::Less);
    assert_eq!(key_order(i32::MAX, i32::MIN), KeyOrder::Greater);
}

#[test]
fn batch_steps() {
    assert_eq!(harris_step(KeyOrder::Less, false), HarrisStep::Pass { anchor: true });
    assert_eq!(harris_step(KeyOrder::Less, true), HarrisStep::Pass { anchor: false });
    assert_eq!(harris_step(KeyOrder::Equal, false), HarrisStep::Stop { found: true });
    assert_eq!(harris_step(KeyOrder::Greater, false), HarrisStep::Stop { found: false });
    assert_eq!(harris_step(KeyOrder::Equal, true), HarrisStep::Restart);
    assert_eq!(harris_step(KeyOrder::Greater, true), HarrisStep::Restart);
}

#[test]
fn stepwise_steps() {
    assert_eq!(michael_step(KeyOrder::Less, false), MichaelStep::Advance);
    assert_eq!(michael_step(KeyOrder::Equal, false), MichaelStep::Stop { found: true });
    assert_eq!(michael_step(KeyOrder::Greater, false), MichaelStep::Stop { found: false });
    assert_eq!(michael_step(KeyOrder::Less, true), MichaelStep::Unlink);
    assert_eq!(michael_step(KeyOrder::Equal, true), MichaelStep::Unlink);
    assert_eq!(michael_step(KeyOrder::Greater, true), MichaelStep::Unlink);
}

#[test]
fn reading_steps() {
    assert_eq!(read_step(KeyOrder::Less, false), ReadStep::Advance);
    assert_eq!(read_step(KeyOrder::Less, true), ReadStep::Advance);
    assert_eq!(read_step(KeyOrder::Equal, false), ReadStep::Return { present: true });
    assert_eq!(read_step(KeyOrder::Equal, true), ReadStep::Return { present: false });
    assert_eq!(read_step(KeyOrder::Greater, false), ReadStep::Return { present: false });
    assert_eq!(read_step(KeyOrder::Greater, true), ReadStep::Return { present: false });
}
