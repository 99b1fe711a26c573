use vbr_rs::arena::slot_address;
use vbr_rs::{Bag, Global, Ver, NOT_RETIRED};

#[test]
fn a_pool_of_128_slots_has_two_bags() {
    let mut pool: Global<u64> = Global::new(128);
    assert_eq!(pool.epoch(), 0);
    assert_eq!(pool.slot_count(), 128);
    assert_eq!(pool.bag_count(), 2);
    assert_eq!(pool.stamp(), 2);
    assert_eq!(pool.acquire(), 2);
    assert_eq!(pool.acquire(), 1);
    assert_eq!(pool.slot_count(), 128);
    assert_eq!(pool.bag_count(), 2);
}

#[test]
fn the_capacity_is_rounded_up_to_whole_bags() {
    let pool: Global<u64> = Global::new(0);
    assert_eq!((pool.bag_count(), pool.slot_count()), (0, 0));
    let pool: Global<u64> = Global::new(1);
    assert_eq!((pool.bag_count(), pool.slot_count()), (1, 64));
    let pool: Global<u64> = Global::new(64);
    assert_eq!((pool.bag_count(), pool.slot_count()), (1, 64));
    let pool: Global<u64> = Global::new(65);
    assert_eq!((pool.bag_count(), pool.slot_count()), (2, 128));
    let pool: Global<u64> = Global::new(129);
    assert_eq!((pool.bag_count(), pool.slot_count()), (3, 192));
}

#[test]
fn every_slot_of_a_new_pool_is_fresh() {
    let pool: Global<u64> = Global::new(128);
    for index in 0..128usize {
        let slot = pool.ver(slot_address::<Ver<u64>>(index));
        assert_eq!(slot.birth(), 0);
        assert_eq!(slot.retire(), 0);
        assert_eq!(*slot.data(), 0);
    }
    assert_eq!(NOT_RETIRED, u64::MAX);
}

#[test]
fn the_clock_steps_only_from_the_expected_epoch() {
    let mut pool: Global<u64> = Global::new(64);
    assert_eq!(pool.advance(0), Ok(1));
    assert_eq!(pool.epoch(), 1);
    assert_eq!(pool.advance(0), Err(1));
    assert_eq!(pool.epoch(), 1);
    assert_eq!(pool.advance(5), Err(1));
    assert_eq!(pool.advance(2), Err(1));
    assert_eq!(pool.epoch(), 1);
    assert_eq!(pool.advance(1), Ok(2));
    assert_eq!(pool.advance(2), Ok(3));
    assert_eq!(pool.epoch(), 3);
}

#[test]
fn the_clock_never_goes_back() {
    let mut pool: Global<u64> = Global::new(64);
    let mut last = pool.epoch();
    for step in 0..100u64 {
        let _ = pool.advance(step / 2);
        assert!(pool.epoch() >= last);
        assert!(pool.epoch() <= last + 1);
        last = pool.epoch();
    }
}

#[test]
fn an_empty_pool_grows_by_one_bag_on_acquire() {
    let mut pool: Global<u64> = Global::new(0);
    assert_eq!(pool.acquire(), 1);
    assert_eq!(pool.slot_count(), 64);
    assert_eq!(pool.bag_count(), 1);
    assert_eq!(pool.stamp(), 1);
    assert_eq!(pool.acquire(), 2);
    assert_eq!(pool.slot_count(), 128);
    assert_eq!(pool.stamp(), 2);
    assert_eq!(pool.bag_pop(1), Some(slot_address::<Ver<u64>>(63)));
    assert_eq!(pool.bag_pop(2), Some(slot_address::<Ver<u64>>(127)));
    assert_eq!(pool.bag_pop(2), Some(slot_address::<Ver<u64>>(126)));
}

#[test]
fn a_bag_handed_back_is_the_next_one_handed_out() {
    let mut pool: Global<u64> = Global::new(128);
    let first = pool.acquire();
    let second = pool.acquire();
    assert_eq!((first, second), (2, 1));
    pool.retire(first);
    assert_eq!(pool.stamp(), 3);
    pool.retire(second);
    assert_eq!(pool.stamp(), 4);
    assert_eq!(pool.acquire(), second);
    assert_eq!(pool.acquire(), first);
    assert_eq!(pool.acquire(), 3);
    assert_eq!(pool.slot_count(), 192);
}

#[test]
fn a_bag_of_the_caller_enters_the_pool_unlinked() {
    let mut pool: Global<u64> = Global::new(64);
    let mut bag: Bag<Ver<u64>> = Bag::new();
    assert!(bag.push(slot_address::<Ver<u64>>(3)));
    let handle = pool.adopt(bag);
    assert_eq!(handle, 2);
    assert_eq!(pool.bag_count(), 2);
    assert_eq!(pool.stamp(), 1);
    assert_eq!(pool.acquire(), 1);
    pool.retire(handle);
    assert_eq!(pool.acquire(), handle);
    assert_eq!(pool.bag_pop(handle), Some(slot_address::<Ver<u64>>(3)));
    assert_eq!(pool.bag_pop(handle), None);
    assert!(pool.bag_push(handle, slot_address::<Ver<u64>>(5)));
    assert_eq!(pool.bag_pop(handle), Some(slot_address::<Ver<u64>>(5)));
}
