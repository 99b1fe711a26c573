use vbr_rs::{Bag, BagStack, Retry};

fn stack_of(bags: usize) -> BagStack<u64> {
    let mut stack: BagStack<u64> = BagStack::new();
    for i in 0..bags {
        assert_eq!(stack.adopt(Bag::new()), i + 1);
    }
    stack
}

#[test]
fn popping_an_empty_stack_gives_none() {
    let mut stack: BagStack<u64> = BagStack::new();
    assert_eq!(stack.pop(), None);
    assert_eq!(stack.stamp(), 0);
    assert_eq!(stack.bag_count(), 0);
    let mut stack = stack_of(2);
    assert_eq!(stack.pop(), None);
    assert_eq!(stack.bag_count(), 2);
}

#[test]
fn the_stack_gives_back_the_bag_pushed_last() {
    let mut stack = stack_of(3);
    stack.push(2);
    stack.push(3);
    stack.push(1);
    assert_eq!(stack.pop(), Some(1));
    assert_eq!(stack.pop(), Some(3));
    stack.push(1);
    assert_eq!(stack.pop(), Some(1));
    assert_eq!(stack.pop(), Some(2));
    assert_eq!(stack.pop(), None);
}

#[test]
fn a_push_raises_the_stamp_and_a_pop_leaves_it() {
    let mut stack = stack_of(2);
    assert_eq!(stack.stamp(), 0);
    stack.push(1);
    assert_eq!(stack.stamp(), 1);
    stack.push(2);
    assert_eq!(stack.stamp(), 2);
    assert_eq!(stack.pop(), Some(2));
    assert_eq!(stack.stamp(), 2);
    assert_eq!(stack.pop(), Some(1));
    assert_eq!(stack.stamp(), 2);
    stack.push(2);
    assert_eq!(stack.stamp(), 3);
}

#[test]
fn no_bag_is_lost_or_doubled_by_pushes_and_pops() {
    let mut stack = stack_of(8);
    let mut held: Vec<usize> = (1..=8).collect();
    let mut linked = 0usize;
    for round in 0..200usize {
        if round % 3 != 2 && !held.is_empty() {
            let bag = held.remove(round % held.len());
            stack.push(bag);
            linked += 1;
        } else if let Some(bag) = stack.pop() {
            assert!(!held.contains(&bag));
            held.push(bag);
            linked -= 1;
        }
        assert_eq!(held.len() + linked, 8);
    }
    while let Some(bag) = stack.pop() {
        assert!(!held.contains(&bag));
        held.push(bag);
    }
    held.sort();
    assert_eq!(held, vec![1, 2, 3, 4, 5, 6, 7, 8]);
}

#[test]
fn a_pop_with_a_fresh_observation_goes_through() {
    let mut stack = stack_of(2);
    stack.push(1);
    stack.push(2);
    let seen = stack.observe();
    assert_eq!(stack.try_pop(seen), Ok(Some(2)));
    let seen = stack.observe();
    assert_eq!(stack.try_pop(seen), Ok(Some(1)));
    let seen = stack.observe();
    assert_eq!(stack.try_pop(seen), Ok(None));
}

#[test]
fn a_pop_that_lost_the_race_changes_nothing() {
    let mut stack = stack_of(3);
    stack.push(3);
    stack.push(2);
    stack.push(1);
    let seen = stack.observe();
    assert_eq!(stack.pop(), Some(1));
    assert_eq!(stack.try_pop(seen), Err(Retry));
    assert_eq!(stack.stamp(), 3);
    assert_eq!(stack.pop(), Some(2));
    assert_eq!(stack.pop(), Some(3));
    assert_eq!(stack.pop(), None);
}

#[test]
fn the_same_top_bag_over_another_stack_is_told_apart() {
    // One thread reads the head while the stack is 1, 2, 3 from the top down.
    // Another pops 1 and 2 and pushes 1 back: the top is 1 again, over 3.
    let mut stack = stack_of(3);
    stack.push(3);
    stack.push(2);
    stack.push(1);
    let seen = stack.observe();
    assert_eq!(stack.pop(), Some(1));
    assert_eq!(stack.pop(), Some(2));
    stack.push(1);
    assert_eq!(stack.try_pop(seen), Err(Retry));
    assert_eq!(stack.pop(), Some(1));
    assert_eq!(stack.pop(), Some(3));
    assert_eq!(stack.pop(), None);
}

#[test]
fn a_push_goes_through_only_on_the_head_that_was_read() {
    let mut stack = stack_of(3);
    stack.push(1);
    let stale = stack.observe();
    stack.push(2);
    assert_eq!(stack.try_push(stale, 3), Err(Retry));
    assert_eq!(stack.stamp(), 2);
    let fresh = stack.observe();
    assert_eq!(stack.try_push(fresh, 3), Ok(()));
    assert_eq!(stack.stamp(), 3);
    assert_eq!(stack.pop(), Some(3));
    assert_eq!(stack.pop(), Some(2));
    assert_eq!(stack.pop(), Some(1));
    assert_eq!(stack.pop(), None);
}

#[test]
fn the_addresses_of_a_bag_are_reached_by_its_handle() {
    let mut stack = stack_of(2);
    assert!(stack.bag_push(1, 8));
    assert!(stack.bag_push(2, 16));
    assert!(stack.bag_push(1, 24));
    stack.push(1);
    assert_eq!(stack.bag_pop(2), Some(16));
    assert_eq!(stack.bag_pop(2), None);
    assert_eq!(stack.pop(), Some(1));
    assert_eq!(stack.bag_pop(1), Some(24));
    assert_eq!(stack.bag_pop(1), Some(8));
    assert_eq!(stack.bag_pop(1), None);
}

#[test]
fn a_thread_that_read_an_empty_stack_takes_nothing() {
    let mut stack = stack_of(1);
    let seen = stack.observe();
    stack.push(1);
    assert_eq!(stack.try_pop(seen), Ok(None));
    assert_eq!(stack.pop(), Some(1));
}

#[test]
fn a_push_writes_the_old_head_into_the_link_and_a_pop_clears_it() {
    let mut stack = stack_of(3);
    assert_eq!(stack.head(), 0);
    stack.push(2);
    assert_eq!(stack.bag_link(2), vbr_rs::compose_u128(0, 0));
    assert_eq!(stack.head(), vbr_rs::compose_u128(1, 2));
    stack.push(3);
    assert_eq!(stack.bag_link(3), vbr_rs::compose_u128(1, 2));
    assert_eq!(stack.head(), vbr_rs::compose_u128(2, 3));
    stack.push(1);
    assert_eq!(stack.bag_link(1), vbr_rs::compose_u128(2, 3));
    assert_eq!(stack.bag_link(3), vbr_rs::compose_u128(1, 2));
    assert_eq!(stack.pop(), Some(1));
    assert_eq!(stack.bag_link(1), 0);
    assert_eq!(stack.bag_link(3), vbr_rs::compose_u128(1, 2));
    // The pop keeps the stamp of the head and takes the handle of the link.
    assert_eq!(stack.head(), vbr_rs::compose_u128(3, 3));
    assert_eq!(stack.pop(), Some(3));
    assert_eq!(stack.bag_link(3), 0);
    assert_eq!(stack.head(), vbr_rs::compose_u128(3, 2));
    assert_eq!(stack.pop(), Some(2));
    assert_eq!(stack.bag_link(2), 0);
    assert_eq!(stack.head(), vbr_rs::compose_u128(3, 0));
}

#[test]
fn a_push_that_lost_the_race_has_written_the_link_all_the_same() {
    let mut stack = stack_of(3);
    stack.push(1);
    let stale = stack.observe();
    stack.push(2);
    assert_eq!(stack.try_push(stale, 3), Err(Retry));
    assert_eq!(stack.bag_link(3), vbr_rs::compose_u128(1, 1));
    assert_eq!(stack.bag_link(2), vbr_rs::compose_u128(1, 1));
    assert_eq!(stack.head(), vbr_rs::compose_u128(2, 2));
    let fresh = stack.observe();
    assert_eq!(stack.try_push(fresh, 3), Ok(()));
    assert_eq!(stack.bag_link(3), vbr_rs::compose_u128(2, 2));
    assert_eq!(stack.head(), vbr_rs::compose_u128(3, 3));
}
