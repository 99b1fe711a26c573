use vbr_rs::{Global, Guard, Local, Retry, Shared, NOT_RETIRED};

/// A pool of 128 slots at epoch 1, with one cache.
fn pool_at_one() -> (Global<u64>, Local<u64>) {
    let mut pool: Global<u64> = Global::new(128);
    let cache = Local::new(&mut pool);
    assert_eq!(pool.advance(0), Ok(1));
    (pool, cache)
}

/// Allocates under `guard` until the slot at `addr` comes out.
fn allocate_until<'g>(
    guard: &'g Guard<u64>,
    cache: &mut Local<u64>,
    pool: &mut Global<u64>,
    addr: usize,
) -> Shared<'g, u64> {
    for _ in 0..10_000 {
        let handle = guard.allocate(cache, pool).unwrap();
        if handle.as_raw() == addr {
            return handle;
        }
    }
    panic!("the slot never came back");
}

/// Allocates and retires 64 slots under `guard`, so that the bag for the
/// retired runs full and the next retirement hands it back to the pool.
fn churn(guard: &Guard<u64>, cache: &mut Local<u64>, pool: &mut Global<u64>) {
    for _ in 0..64 {
        let handle = guard.allocate(cache, pool).unwrap();
        assert_eq!(guard.retire(cache, pool, handle), Ok(()));
    }
}

#[test]
fn nothing_is_allocated_at_the_epoch_at_which_the_slots_were_made() {
    let mut pool: Global<u64> = Global::new(128);
    let mut cache = Local::new(&mut pool);
    let guard = cache.guard(&pool);
    assert!(guard.allocate(&mut cache, &mut pool).is_err());
    // The failed attempt has pushed the clock on and put the slot back.
    assert_eq!(pool.epoch(), 1);
    assert!(guard.allocate(&mut cache, &mut pool).is_err());
    assert_eq!(pool.epoch(), 1);
    let guard = cache.guard(&pool);
    let first = guard.allocate(&mut cache, &mut pool).unwrap();
    assert_eq!(first.birth(), 1);
    let second = guard.allocate(&mut cache, &mut pool).unwrap();
    assert_ne!(first.as_raw(), second.as_raw());
}

#[test]
fn an_allocated_slot_is_born_at_the_epoch_of_the_guard() {
    let (mut pool, mut cache) = pool_at_one();
    assert_eq!(pool.advance(1), Ok(2));
    assert_eq!(pool.advance(2), Ok(3));
    let guard = cache.guard(&pool);
    assert_eq!(pool.advance(3), Ok(4));
    let handle = guard.allocate(&mut cache, &mut pool).unwrap();
    assert_eq!(handle.birth(), 3);
    assert!(!handle.is_null());
    let slot = handle.as_versioned(&pool).unwrap();
    assert_eq!(slot.birth(), 3);
    assert_eq!(slot.retire(), NOT_RETIRED);
    assert_eq!(handle.tag(&pool), Ok(0));
}

#[test]
fn draining_the_pool_and_retiring_all_gives_slots_of_the_new_epoch() {
    let mut pool: Global<u64> = Global::new(128);
    assert_eq!(pool.bag_count(), 2);
    let mut cache = Local::new(&mut pool);
    assert_eq!(pool.advance(0), Ok(1));
    let guard = cache.guard(&pool);
    let mut handles = Vec::new();
    for _ in 0..128 {
        handles.push(guard.allocate(&mut cache, &mut pool).unwrap());
    }
    for handle in handles.iter() {
        assert_eq!(handle.birth(), 1);
        assert_eq!(guard.retire(&mut cache, &mut pool, *handle), Ok(()));
        assert_eq!(handle.as_versioned(&pool).unwrap().retire(), 1);
    }
    assert_eq!(pool.advance(1), Ok(2));
    let guard = cache.guard(&pool);
    let fresh = guard.allocate(&mut cache, &mut pool).unwrap();
    assert_eq!(fresh.birth(), 2);
    // Each of the retired slots comes out again, born at the new epoch.
    let again = allocate_until(&guard, &mut cache, &mut pool, handles[0].as_raw());
    assert_eq!(again.birth(), 2);
    assert_eq!(again.as_versioned(&pool).unwrap().retire(), NOT_RETIRED);
}

#[test]
fn a_slot_retired_at_the_epoch_of_the_guard_is_not_taken() {
    let (mut pool, mut cache) = pool_at_one();
    let guard = cache.guard(&pool);
    let handle = guard.allocate(&mut cache, &mut pool).unwrap();
    let addr = handle.as_raw();
    assert_eq!(guard.retire(&mut cache, &mut pool, handle), Ok(()));
    churn(&guard, &mut cache, &mut pool);
    // Under the same guard the retired slots are never given out: a guard of
    // epoch 1 may still look at what was retired at epoch 1.
    let mut refused = false;
    for _ in 0..2_000 {
        match guard.allocate(&mut cache, &mut pool) {
            Ok(other) => assert_ne!(other.as_raw(), addr),
            Err(Retry) => {
                refused = true;
                break;
            },
        }
    }
    assert!(refused);
    assert_eq!(pool.epoch(), 2);
    assert_eq!(handle.as_versioned(&pool).unwrap().birth(), 1);
}

#[test]
fn retiring_twice_is_retiring_once() {
    let (mut pool, mut cache) = pool_at_one();
    let guard = cache.guard(&pool);
    let handle = guard.allocate(&mut cache, &mut pool).unwrap();
    assert_eq!(guard.retire(&mut cache, &mut pool, handle), Ok(()));
    assert_eq!(handle.as_versioned(&pool).unwrap().retire(), 1);
    assert_eq!(pool.advance(1), Ok(2));
    let stamp = pool.stamp();
    let bags = pool.bag_count();
    assert_eq!(guard.retire(&mut cache, &mut pool, handle), Ok(()));
    assert_eq!(handle.as_versioned(&pool).unwrap().retire(), 1);
    assert_eq!(pool.stamp(), stamp);
    assert_eq!(pool.bag_count(), bags);
    assert_eq!(cache.retired_len(), 1);
    // The slot was filed once: 63 more fill the bag, the next one moves on.
    for _ in 0..63 {
        let guard = cache.guard(&pool);
        let other = guard.allocate(&mut cache, &mut pool).unwrap();
        assert_eq!(guard.retire(&mut cache, &mut pool, other), Ok(()));
        assert_eq!(pool.stamp(), stamp);
    }
    let guard = cache.guard(&pool);
    let other = guard.allocate(&mut cache, &mut pool).unwrap();
    assert_eq!(guard.retire(&mut cache, &mut pool, other), Ok(()));
    assert_eq!(pool.stamp(), stamp + 1);
}

#[test]
fn a_retirement_under_a_stale_guard_takes_effect_and_asks_to_retry() {
    let (mut pool, mut cache) = pool_at_one();
    let guard = cache.guard(&pool);
    let handle = guard.allocate(&mut cache, &mut pool).unwrap();
    assert_eq!(pool.advance(1), Ok(2));
    assert_eq!(guard.retire(&mut cache, &mut pool, handle), Err(Retry));
    assert_eq!(handle.as_versioned(&pool).unwrap().retire(), 2);
    assert_eq!(guard.retire(&mut cache, &mut pool, handle), Ok(()));
    assert_eq!(handle.as_versioned(&pool).unwrap().retire(), 2);
}

#[test]
fn a_reincarnation_is_born_later_than_the_one_before() {
    let (mut pool, mut cache) = pool_at_one();
    let guard = cache.guard(&pool);
    let first = guard.allocate(&mut cache, &mut pool).unwrap();
    let addr = first.as_raw();
    assert_eq!(guard.retire(&mut cache, &mut pool, first), Ok(()));
    churn(&guard, &mut cache, &mut pool);
    assert_eq!(pool.advance(1), Ok(2));
    let guard = cache.guard(&pool);
    let second = allocate_until(&guard, &mut cache, &mut pool, addr);
    assert!(second.birth() > first.birth());
    assert_eq!(second.birth(), 2);
    let slot = second.as_versioned(&pool).unwrap();
    assert_eq!(slot.birth(), 2);
    assert_eq!(slot.retire(), NOT_RETIRED);
    assert!(first != second);
    assert!(second == second.clone());
}

#[test]
fn a_stale_handle_reads_nothing_of_the_new_incarnation() {
    let (mut pool, mut cache) = pool_at_one();
    let guard = cache.guard(&pool);
    let old = guard.allocate(&mut cache, &mut pool).unwrap();
    assert_eq!(old.write(&mut pool, 11), Ok(()));
    assert_eq!(old.deref(&pool), Ok(&11));
    assert_eq!(old.as_ref(&pool), Ok(Some(&11)));
    assert_eq!(guard.retire(&mut cache, &mut pool, old), Ok(()));
    // Retired, not yet taken again: the incarnation is still the one of `old`.
    assert_eq!(old.as_ref(&pool), Ok(Some(&11)));
    churn(&guard, &mut cache, &mut pool);
    assert_eq!(pool.advance(1), Ok(2));
    let guard = cache.guard(&pool);
    let new = allocate_until(&guard, &mut cache, &mut pool, old.as_raw());
    assert_eq!(new.write(&mut pool, 22), Ok(()));
    assert_eq!(new.as_ref(&pool), Ok(Some(&22)));
    assert_eq!(new.deref(&pool), Ok(&22));
    assert_eq!(old.as_ref(&pool), Err(Retry));
    assert_eq!(old.deref(&pool), Err(Retry));
    assert_eq!(old.tag(&pool), Err(Retry));
    assert_eq!(old.write(&mut pool, 33), Err(Retry));
    assert_eq!(new.as_ref(&pool), Ok(Some(&22)));
}

#[test]
fn a_late_retirement_through_a_stale_handle_has_no_effect() {
    let (mut pool, mut left) = pool_at_one();
    let mut right = Local::new(&mut pool);
    let guard = left.guard(&pool);
    let stale = guard.allocate(&mut left, &mut pool).unwrap();
    assert_eq!(guard.retire(&mut left, &mut pool, stale), Ok(()));
    churn(&guard, &mut left, &mut pool);
    assert_eq!(pool.advance(1), Ok(2));
    let guard = left.guard(&pool);
    let fresh = allocate_until(&guard, &mut left, &mut pool, stale.as_raw());
    assert_eq!(fresh.birth(), 2);
    // The other thread still holds the handle of the first incarnation.
    let late = right.guard(&pool);
    let stamp = pool.stamp();
    assert_eq!(late.retire(&mut right, &mut pool, stale), Ok(()));
    assert_eq!(fresh.as_versioned(&pool).unwrap().retire(), NOT_RETIRED);
    assert_eq!(fresh.as_versioned(&pool).unwrap().birth(), 2);
    assert_eq!(right.retired_len(), 1);
    assert_eq!(pool.stamp(), stamp);
    // The retirement of the incarnation that is there goes through.
    assert_eq!(guard.retire(&mut left, &mut pool, fresh), Ok(()));
    assert_eq!(fresh.as_versioned(&pool).unwrap().retire(), 2);
    assert_eq!(fresh.as_versioned(&pool).unwrap().birth(), 2);
}

#[test]
fn a_guard_fails_to_validate_once_the_epoch_has_moved() {
    let (mut pool, cache) = pool_at_one();
    let guard = cache.guard(&pool);
    assert_eq!(guard.validate_epoch(&pool), Ok(()));
    assert_eq!(guard.validate_epoch(&pool), Ok(()));
    assert_eq!(pool.advance(guard.epoch()), Ok(guard.epoch() + 1));
    assert_eq!(guard.validate_epoch(&pool), Err(Retry));
    let later = cache.guard(&pool);
    assert_eq!(later.validate_epoch(&pool), Ok(()));
    assert_eq!(guard.validate_epoch(&pool), Err(Retry));
}

#[test]
fn a_retired_slot_keeps_its_tagged_handles_apart() {
    let (mut pool, mut cache) = pool_at_one();
    let guard = cache.guard(&pool);
    let handle = guard.allocate(&mut cache, &mut pool).unwrap();
    let marked = handle.with_tag(1);
    assert_eq!(marked.tag(&pool), Ok(1));
    assert_eq!(handle.tag(&pool), Ok(0));
    assert_eq!(marked.as_raw(), handle.as_raw() + 1);
    assert!(marked != handle);
    assert!(marked.with_tag(0) == handle);
    assert_eq!(marked.write(&mut pool, 5), Ok(()));
    assert_eq!(handle.as_ref(&pool), Ok(Some(&5)));
    assert_eq!(guard.retire(&mut cache, &mut pool, marked), Ok(()));
    assert_eq!(handle.as_versioned(&pool).unwrap().retire(), 1);
}

#[test]
fn a_live_slot_is_never_handed_out_again() {
    let mut pool: Global<u64> = Global::new(128);
    let mut caches = vec![Local::new(&mut pool), Local::new(&mut pool), Local::new(&mut pool)];
    let mut live: std::collections::HashMap<usize, u64> = std::collections::HashMap::new();
    let mut anchors: Vec<vbr_rs::Entry<u64>> = Vec::new();
    let mut seed: u64 = 0x2545_f491_4f6c_dd1d;
    for round in 0..20_000u64 {
        seed ^= seed << 13;
        seed ^= seed >> 7;
        seed ^= seed << 17;
        let who = (seed % 3) as usize;
        let guard = caches[who].guard(&pool);
        if seed % 5 < 3 || anchors.is_empty() {
            match guard.allocate(&mut caches[who], &mut pool) {
                Ok(handle) => {
                    assert_eq!(handle.birth(), guard.epoch());
                    assert!(live.insert(handle.as_raw(), handle.birth()).is_none());
                    assert_eq!(handle.write(&mut pool, round), Ok(()));
                    anchors.push(vbr_rs::Entry::new(handle));
                },
                Err(Retry) => assert!(pool.epoch() > guard.epoch()),
            }
        } else {
            let anchor = anchors.swap_remove((seed >> 8) as usize % anchors.len());
            let handle = anchor.load(&guard, &pool).unwrap();
            assert_eq!(live.remove(&handle.as_raw()), Some(handle.birth()));
            assert_eq!(guard.retire(&mut caches[who], &mut pool, handle), Ok(()));
            assert_eq!(handle.as_versioned(&pool).unwrap().retire(), pool.epoch());
        }
        if round % 97 == 0 {
            let _ = pool.advance(pool.epoch());
        }
    }
    for anchor in anchors.iter() {
        let guard = caches[0].guard(&pool);
        let handle = anchor.load(&guard, &pool).unwrap();
        assert_eq!(live.get(&handle.as_raw()), Some(&handle.birth()));
        assert_eq!(handle.as_versioned(&pool).unwrap().retire(), NOT_RETIRED);
    }
}
