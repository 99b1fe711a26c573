use vbr_rs::arena::slot_address;
use vbr_rs::{Global, Local, Ver, INIT_BAGS_PER_LOCAL};

fn slot(index: usize) -> usize {
    slot_address::<Ver<u64>>(index)
}

#[test]
fn a_new_cache_fetches_16_bags_and_makes_one() {
    assert_eq!(INIT_BAGS_PER_LOCAL, 16);
    let mut pool: Global<u64> = Global::new(128);
    let cache = Local::new(&mut pool);
    assert_eq!(cache.avail_len(), 16);
    assert_eq!(cache.retired_len(), 1);
    assert_eq!(pool.bag_count(), 17);
    assert_eq!(pool.slot_count(), 16 * 64);
    assert_eq!(pool.stamp(), 16);
}

#[test]
fn a_cache_takes_what_the_pool_has_before_the_pool_grows() {
    let mut pool: Global<u64> = Global::new(20 * 64);
    let cache = Local::new(&mut pool);
    assert_eq!(cache.avail_len(), 16);
    assert_eq!(pool.bag_count(), 21);
    assert_eq!(pool.slot_count(), 20 * 64);
    assert_eq!(pool.stamp(), 20);
    assert_eq!(pool.acquire(), 4);
}

#[test]
fn slots_are_popped_from_the_front_bag_first() {
    let mut pool: Global<u64> = Global::new(128);
    let mut cache = Local::new(&mut pool);
    // The front bag is the one that was on top of the stack: the second bag
    // of the pool, which holds the slots 64 to 127.
    assert_eq!(cache.pop_avail(&mut pool), slot(127));
    assert_eq!(cache.pop_avail(&mut pool), slot(126));
    for index in (64..126usize).rev() {
        assert_eq!(cache.pop_avail(&mut pool), slot(index));
    }
    assert_eq!(cache.avail_len(), 16);
    assert_eq!(cache.retired_len(), 1);
    // The front bag has run out: it goes behind the bag for the retired.
    assert_eq!(cache.pop_avail(&mut pool), slot(63));
    assert_eq!(cache.avail_len(), 15);
    assert_eq!(cache.retired_len(), 2);
}

#[test]
fn a_slot_put_back_is_the_next_one_popped() {
    let mut pool: Global<u64> = Global::new(128);
    let mut cache = Local::new(&mut pool);
    let first = cache.pop_avail(&mut pool);
    cache.return_avail(&mut pool, first);
    assert_eq!(cache.pop_avail(&mut pool), first);
    let second = cache.pop_avail(&mut pool);
    assert_ne!(first, second);
    cache.return_avail(&mut pool, second);
    cache.return_avail(&mut pool, first);
    assert_eq!(cache.pop_avail(&mut pool), first);
    assert_eq!(cache.pop_avail(&mut pool), second);
}

#[test]
fn a_cache_that_has_run_out_fetches_16_more_bags() {
    let mut pool: Global<u64> = Global::new(128);
    let mut cache = Local::new(&mut pool);
    let mut seen = std::collections::HashSet::new();
    for _ in 0..16 * 64 {
        assert!(seen.insert(cache.pop_avail(&mut pool)));
    }
    assert_eq!(pool.slot_count(), 16 * 64);
    assert_eq!(cache.avail_len(), 1);
    assert_eq!(cache.retired_len(), 16);
    let next = cache.pop_avail(&mut pool);
    assert!(seen.insert(next));
    assert_eq!(next, slot(17 * 64 - 1));
    assert_eq!(cache.avail_len(), 16);
    assert_eq!(cache.retired_len(), 17);
    assert_eq!(pool.slot_count(), 32 * 64);
    assert_eq!(pool.bag_count(), 33);
}

#[test]
fn a_full_bag_of_retired_slots_goes_back_to_the_pool() {
    let mut pool: Global<u64> = Global::new(128);
    let mut cache = Local::new(&mut pool);
    let stamp = pool.stamp();
    let bags = pool.bag_count();
    for index in 0..64usize {
        cache.push_retired(&mut pool, slot(index));
        assert_eq!(cache.retired_len(), 1);
        assert_eq!(pool.stamp(), stamp);
        assert_eq!(pool.bag_count(), bags);
    }
    cache.push_retired(&mut pool, slot(64));
    assert_eq!(cache.retired_len(), 1);
    assert_eq!(pool.stamp(), stamp + 1);
    assert_eq!(pool.bag_count(), bags + 1);
    // The full bag is on top of the available bags, as it is.
    let handed = pool.acquire();
    assert_eq!(handed, bags);
    for index in (0..64usize).rev() {
        assert_eq!(pool.bag_pop(handed), Some(slot(index)));
    }
    assert_eq!(pool.bag_pop(handed), None);
    assert_eq!(pool.bag_pop(bags + 1), Some(slot(64)));
}

#[test]
fn an_exhausted_bag_is_used_again_for_the_retired() {
    let mut pool: Global<u64> = Global::new(128);
    let mut cache = Local::new(&mut pool);
    for _ in 0..65 {
        let _ = cache.pop_avail(&mut pool);
    }
    assert_eq!(cache.retired_len(), 2);
    let bags = pool.bag_count();
    let stamp = pool.stamp();
    for index in 0..64usize {
        cache.push_retired(&mut pool, slot(index));
    }
    assert_eq!(cache.retired_len(), 2);
    // The front bag is full and goes back; the exhausted bag takes the slot.
    cache.push_retired(&mut pool, slot(64));
    assert_eq!(cache.retired_len(), 1);
    assert_eq!(pool.bag_count(), bags);
    assert_eq!(pool.stamp(), stamp + 1);
}

#[test]
fn two_caches_share_one_pool() {
    let mut pool: Global<u64> = Global::new(128);
    let mut left = Local::new(&mut pool);
    let mut right = Local::new(&mut pool);
    assert_eq!(pool.bag_count(), 2 + 14 + 1 + 16 + 1);
    let mut seen = std::collections::HashSet::new();
    for round in 0..3000usize {
        let ver = if round % 2 == 0 {
            left.pop_avail(&mut pool)
        } else {
            right.pop_avail(&mut pool)
        };
        assert!(seen.insert(ver));
    }
    assert!(pool.slot_count() >= 3000);
}

#[test]
fn a_guard_is_pinned_to_the_epoch_of_its_making() {
    let mut pool: Global<u64> = Global::new(64);
    let cache = Local::new(&mut pool);
    let early = cache.guard(&pool);
    assert_eq!(early.epoch(), 0);
    assert_eq!(pool.advance(0), Ok(1));
    let late = cache.guard(&pool);
    assert_eq!(early.epoch(), 0);
    assert_eq!(late.epoch(), 1);
}
