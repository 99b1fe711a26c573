use vbr_rs::arena::slot_address;
use vbr_rs::{Bag, ENTRIES_PER_BAG};

#[test]
fn a_new_bag_is_empty() {
    let mut bag: Bag<u64> = Bag::new();
    assert_eq!(bag.next(), 0);
    assert_eq!(bag.pop(), None);
    assert_eq!(bag.pop(), None);
}

#[test]
fn a_bag_gives_back_what_was_pushed_last() {
    let mut bag: Bag<u64> = Bag::new();
    assert!(bag.push(8));
    assert!(bag.push(24));
    assert!(bag.push(16));
    assert_eq!(bag.pop(), Some(16));
    assert_eq!(bag.pop(), Some(24));
    assert!(bag.push(40));
    assert_eq!(bag.pop(), Some(40));
    assert_eq!(bag.pop(), Some(8));
    assert_eq!(bag.pop(), None);
}

#[test]
fn a_bag_holds_64_addresses_and_no_more() {
    assert_eq!(ENTRIES_PER_BAG, 64);
    let mut bag: Bag<u64> = Bag::new();
    for i in 0..64usize {
        assert!(bag.push(8 * (i + 1)));
    }
    assert!(!bag.push(8 * 65));
    assert!(!bag.push(8 * 66));
    assert_eq!(bag.pop(), Some(8 * 64));
    assert!(bag.push(8 * 67));
    assert!(!bag.push(8 * 68));
    assert_eq!(bag.pop(), Some(8 * 67));
    for i in (0..63usize).rev() {
        assert_eq!(bag.pop(), Some(8 * (i + 1)));
    }
    assert_eq!(bag.pop(), None);
}

#[test]
fn a_bag_with_alloc_holds_64_new_cells_in_order() {
    let mut arena: Vec<u32> = Vec::new();
    let mut first: Bag<u32> = Bag::new_with_alloc(&mut arena);
    assert_eq!(arena.len(), 64);
    assert!(arena.iter().all(|cell| *cell == 0));
    let mut second: Bag<u32> = Bag::new_with_alloc(&mut arena);
    assert_eq!(arena.len(), 128);
    assert!(!first.push(4));
    assert!(!second.push(4));
    for i in (0..64usize).rev() {
        assert_eq!(first.pop(), Some(slot_address::<u32>(i)));
        assert_eq!(second.pop(), Some(slot_address::<u32>(64 + i)));
    }
    assert_eq!(first.pop(), None);
    assert_eq!(second.pop(), None);
    assert_eq!(first.next(), 0);
}

#[test]
fn the_link_of_a_bag_is_apart_from_its_addresses() {
    let mut bag: Bag<u64> = Bag::new();
    assert!(bag.push(8));
    bag.set_next(77);
    assert_eq!(bag.next(), 77);
    assert_eq!(bag.pop(), Some(8));
    assert_eq!(bag.next(), 77);
}
