use connpool::{Item, Pool, Pull, Stage, Waiter};
use std::hash::Hash;

fn ready<K: Eq + Hash, I>(pull: Pull<K, I>) -> Item<K, I> {
    match pull {
        Pull::Ready(item) => item,
        Pull::Wait(_) => panic!("the pull has to wait"),
    }
}

fn waits<K: Eq + Hash, I>(pull: &Pull<K, I>) -> bool {
    matches!(pull, Pull::Wait(_))
}

#[test]
fn test_pool_new() {
    let pool = Pool::<String, u32>::new(10);
    assert_eq!(pool.available_permits().unwrap(), 10);
}

#[test]
fn test_pool_pull_and_take() {
    let mut pool = Pool::<String, u32>::new(1);
    let item = ready(pool.pull("key1".to_string()));
    assert!(item.take(&mut pool).is_none());
}

#[test]
fn test_pool_pull_and_replace() {
    let mut pool = Pool::<String, u32>::new(1);
    let mut item = ready(pool.pull("key1".to_string()));
    *item.inner_mut() = Some(42);
    assert_eq!(item.inner(), &Some(42));
}

#[test]
fn test_pool_eviction_behavior() {
    let mut pool = Pool::<String, u32>::new(2);
    {
        let mut item1 = ready(pool.pull("key1".to_string()));
        item1.inner_mut().replace(1);
        item1.release(&mut pool);
    }
    {
        let mut item2 = ready(pool.pull("key2".to_string()));
        item2.inner_mut().replace(2);
        item2.release(&mut pool);
    }
    // Pull key1 again to make it recently used
    {
        let item1 = ready(pool.pull("key1".to_string()));
        item1.release(&mut pool);
    }
    // Add a third item, which should evict key2 (least recently used)
    {
        let mut item3 = ready(pool.pull("key3".to_string()));
        item3.inner_mut().replace(3);
        item3.release(&mut pool);
    }
    // Check the number of entries
    let mut num_entries = 0;
    for key in ["key1", "key2", "key3"] {
        let item = ready(pool.pull(key.to_string()));
        if item.inner().is_some() {
            num_entries += 1;
        }
        item.release(&mut pool);
    }
    assert_eq!(num_entries, 2);
}

#[test]
fn test_pool_semaphore_limit() {
    let mut pool = Pool::<String, u32>::new(1);
    let item1 = ready(pool.pull("key1".to_string()));
    let semaphore_permits = pool.available_permits().unwrap();
    assert_eq!(semaphore_permits, 0);
    item1.release(&mut pool);
    assert_eq!(pool.available_permits().unwrap(), 1);
}

#[test]
fn test_set_and_get_local_limit() {
    let mut pool = Pool::<String, u32>::new(10);
    let index = pool.set_local_limit(2);
    assert!(pool.local_available_permits(index).is_some());
    assert_eq!(pool.local_available_permits(index).unwrap(), 2);
}

#[test]
fn test_pull_with_local_limit_success() {
    let mut pool = Pool::<String, u32>::new(10);
    let index = pool.set_local_limit(2);
    let item = pool.pull_with_local_limit("key1".to_string(), Some(index));
    assert!(item.is_some());
    assert!(!waits(&item.unwrap()));
}

#[test]
fn test_pull_with_local_limit_exhausted() {
    let mut pool = Pool::<String, u32>::new(10);
    let index = pool.set_local_limit(1);
    // Acquire the only permit
    let _item1 = pool.pull_with_local_limit("key1".to_string(), Some(index));
    // Try to acquire again, should return None
    let item2 = pool.pull_with_local_limit("key2".to_string(), Some(index));
    assert!(item2.is_none());
}

#[test]
fn test_pull_with_local_limit_after_release() {
    let mut pool = Pool::<String, u32>::new(10);
    let index = pool.set_local_limit(1);
    // Acquire the only permit
    let item1 = pool.pull_with_local_limit("key1".to_string(), Some(index));
    assert!(item1.is_some());
    // Release the permit
    ready(item1.unwrap()).release(&mut pool);
    // Now we should be able to acquire again
    let item2 = pool.pull_with_local_limit("key2".to_string(), Some(index));
    assert!(item2.is_some());
    assert!(!waits(&item2.unwrap()));
}

#[test]
fn test_pull_with_invalid_local_limit_index() {
    let mut pool = Pool::<String, u32>::new(10);
    // Try to pull with an invalid index
    let item = pool.pull_with_local_limit("key1".to_string(), Some(999));
    assert!(item.is_some()); // Should succeed (no local limit applied)
    assert!(!waits(&item.unwrap()));
}

#[test]
fn a_returned_value_is_pulled_next() {
    let mut pool = Pool::<String, u32>::new(3);
    let mut item = pool.try_pull("key".to_string()).unwrap();
    assert_eq!(item.inner(), &None);
    *item.inner_mut() = Some(7);
    item.release(&mut pool);
    assert_eq!(pool.stored(), 1);

    let other = pool.try_pull("other".to_string()).unwrap();
    assert_eq!(other.inner(), &None);
    let item = pool.try_pull("key".to_string()).unwrap();
    assert_eq!(item.inner(), &Some(7));
    assert_eq!(pool.stored(), 0);
    assert_eq!(pool.available_permits(), Some(1));
}

#[test]
fn returned_values_are_pulled_in_the_order_of_their_return() {
    let mut pool = Pool::<u8, u32>::new(3);
    let mut first = pool.try_pull(1).unwrap();
    let mut second = pool.try_pull(1).unwrap();
    *first.inner_mut() = Some(10);
    *second.inner_mut() = Some(20);
    second.release(&mut pool);
    first.release(&mut pool);
    assert_eq!(pool.try_pull(1).unwrap().inner(), &Some(20));
    assert_eq!(pool.try_pull(1).unwrap().inner(), &Some(10));
    assert_eq!(pool.try_pull(1).unwrap().inner(), &None);
    assert!(pool.try_pull(1).is_none());
}

#[test]
fn a_taken_value_does_not_come_back() {
    let mut pool = Pool::<String, u32>::new(1);
    let mut item = pool.try_pull("key".to_string()).unwrap();
    *item.inner_mut() = Some(7);
    assert_eq!(item.take(&mut pool), Some(7));
    assert_eq!(pool.stored(), 0);
    assert_eq!(pool.available_permits(), Some(1));
    assert_eq!(pool.try_pull("key".to_string()).unwrap().inner(), &None);
}

#[test]
fn try_pull_is_refused_at_the_global_limit() {
    let mut pool = Pool::<u8, u32>::new(2);
    let first = pool.try_pull(1).unwrap();
    let _second = pool.try_pull(2).unwrap();
    assert!(pool.try_pull(3).is_none());
    first.release(&mut pool);
    assert!(pool.try_pull(3).is_some());
    assert!(pool.try_pull(4).is_none());
}

#[test]
fn a_pool_for_nothing_refuses_everything() {
    let mut pool = Pool::<u8, u32>::new(0);
    assert_eq!(pool.available_permits(), Some(0));
    assert!(pool.try_pull(1).is_none());
    assert!(waits(&pool.pull(1)));
}

#[test]
fn a_refused_pull_gives_its_local_permit_back() {
    let mut pool = Pool::<u8, u32>::new(1);
    let index = pool.set_local_limit(3);
    let _item = pool.try_pull(1).unwrap();
    assert!(pool.try_pull_with_local_limit(2, Some(index)).is_none());
    assert_eq!(pool.local_available_permits(index), Some(3));
    assert_eq!(pool.available_permits(), Some(0));
}

#[test]
fn try_pull_is_refused_at_a_local_limit_only() {
    let mut pool = Pool::<u8, u32>::new(10);
    let narrow = pool.set_local_limit(1);
    let wide = pool.set_local_limit(2);
    assert_eq!((narrow, wide), (0, 1));
    let item = pool.try_pull_with_local_limit(1, Some(narrow)).unwrap();
    assert!(pool.try_pull_with_local_limit(1, Some(narrow)).is_none());
    assert!(pool.try_pull_with_local_limit(1, Some(wide)).is_some());
    assert!(pool.try_pull_with_local_limit(1, None).is_some());
    assert_eq!(pool.available_permits(), Some(7));
    assert_eq!(pool.local_available_permits(narrow), Some(0));
    assert_eq!(pool.local_available_permits(wide), Some(1));
    assert_eq!(pool.local_available_permits(2), None);
    item.release(&mut pool);
    assert_eq!(pool.available_permits(), Some(8));
    assert_eq!(pool.local_available_permits(narrow), Some(1));
}

#[test]
fn a_pull_waits_for_the_global_limit_and_goes_on() {
    let mut pool = Pool::<u8, u32>::new(1);
    let mut item = ready(pool.pull(1));
    *item.inner_mut() = Some(5);
    let Pull::Wait(waiter) = pool.pull(1) else {
        panic!("the limit is reached");
    };
    assert!(matches!(waiter.waits_for(), Stage::Global(None)));
    let Pull::Wait(waiter) = pool.resume(waiter) else {
        panic!("the limit is still reached");
    };
    item.release(&mut pool);
    let item = ready(pool.resume(waiter));
    assert_eq!(item.inner(), &Some(5));
    assert_eq!(pool.available_permits(), Some(0));
}

#[test]
fn a_pull_waits_for_a_local_limit_and_then_for_the_global_limit() {
    let mut pool = Pool::<u8, u32>::new(2);
    let index = pool.set_local_limit(1);
    let first = ready(pool.pull_with_wait_local_limit(1, Some(index)));
    let second = ready(pool.pull(2));

    let Pull::Wait(waiter) = pool.pull_with_wait_local_limit(3, Some(index)) else {
        panic!("the local limit is reached");
    };
    assert!(matches!(waiter.waits_for(), Stage::Local(0)));

    let third = {
        first.release(&mut pool);
        ready(pool.pull(4))
    };
    let Pull::Wait(waiter) = pool.resume(waiter) else {
        panic!("the global limit is reached");
    };
    assert!(matches!(waiter.waits_for(), Stage::Global(Some(0))));
    assert_eq!(pool.local_available_permits(index), Some(0));

    second.release(&mut pool);
    let item = ready(pool.resume(waiter));
    assert_eq!(pool.available_permits(), Some(0));
    item.release(&mut pool);
    third.release(&mut pool);
    assert_eq!(pool.available_permits(), Some(2));
    assert_eq!(pool.local_available_permits(index), Some(1));
}

#[test]
fn a_cancelled_pull_gives_its_local_permit_back() {
    let mut pool = Pool::<u8, u32>::new(1);
    let index = pool.set_local_limit(1);
    let _item = ready(pool.pull(1));
    let Some(Pull::Wait(waiter)) = pool.pull_with_local_limit(2, Some(index)) else {
        panic!("the global limit is reached");
    };
    assert_eq!(pool.local_available_permits(index), Some(0));
    assert!(pool.pull_with_local_limit(3, Some(index)).is_none());
    pool.cancel(waiter);
    assert_eq!(pool.local_available_permits(index), Some(1));
    assert_eq!(pool.available_permits(), Some(0));
}

#[test]
fn an_unbounded_pool_lends_without_end() {
    let mut pool = Pool::<u32, u32>::new_unbounded();
    assert_eq!(pool.available_permits(), None);
    let mut items = Vec::new();
    for key in 0..500 {
        let mut item = pool.try_pull(key).unwrap();
        *item.inner_mut() = Some(key + 1);
        items.push(item);
    }
    for item in items {
        item.release(&mut pool);
    }
    assert_eq!(pool.stored(), 500);
    for key in 0..500 {
        assert_eq!(ready(pool.pull(key)).inner(), &Some(key + 1));
    }
}

#[test]
fn local_limits_hold_in_an_unbounded_pool() {
    let mut pool = Pool::<u8, u32>::new_unbounded();
    let index = pool.set_local_limit(1);
    let item = pool.try_pull_with_local_limit(1, Some(index)).unwrap();
    assert!(pool.try_pull_with_local_limit(1, Some(index)).is_none());
    assert_eq!(item.take(&mut pool), None);
    assert!(pool.try_pull_with_local_limit(1, Some(index)).is_some());
}

fn waiter<K: Eq + Hash, I>(pull: Pull<K, I>) -> Waiter<K> {
    match pull {
        Pull::Ready(_) => panic!("the pull does not have to wait"),
        Pull::Wait(waiter) => waiter,
    }
}

#[test]
fn a_pull_that_waits_is_not_overtaken() {
    let mut pool = Pool::<u8, u32>::new(1);
    let mut item = ready(pool.pull(1));
    *item.inner_mut() = Some(5);
    let waiting = waiter(pool.pull(1));
    item.release(&mut pool);
    assert_eq!(pool.available_permits(), Some(0));
    assert!(pool.try_pull(2).is_none());
    let behind = waiter(pool.pull(3));
    let behind = waiter(pool.resume(behind));
    let item = ready(pool.resume(waiting));
    assert_eq!(item.inner(), &Some(5));
    let behind = waiter(pool.resume(behind));
    item.release(&mut pool);
    ready(pool.resume(behind)).release(&mut pool);
    assert_eq!(pool.available_permits(), Some(1));
}

#[test]
fn the_line_is_served_in_its_order() {
    let mut pool = Pool::<u8, u32>::new(2);
    let first = ready(pool.pull(1));
    let second = ready(pool.pull(2));
    let front = waiter(pool.pull(3));
    let middle = waiter(pool.pull(4));
    let back = waiter(pool.pull(5));
    first.release(&mut pool);
    second.release(&mut pool);
    // Two permits are left for the first two of the line.
    let back = waiter(pool.resume(back));
    let middle = ready(pool.resume(middle));
    let front = ready(pool.resume(front));
    let back = waiter(pool.resume(back));
    middle.release(&mut pool);
    let back = ready(pool.resume(back));
    front.release(&mut pool);
    back.release(&mut pool);
    assert_eq!(pool.available_permits(), Some(2));
}

#[test]
fn a_pull_that_leaves_the_line_lets_the_next_one_move_up() {
    let mut pool = Pool::<u8, u32>::new(1);
    let item = ready(pool.pull(1));
    let front = waiter(pool.pull(2));
    let back = waiter(pool.pull(3));
    item.release(&mut pool);
    let back = waiter(pool.resume(back));
    pool.cancel(front);
    ready(pool.resume(back)).release(&mut pool);
    assert_eq!(pool.available_permits(), Some(1));
}

#[test]
fn a_permit_behind_the_line_is_free() {
    let mut pool = Pool::<u8, u32>::new(2);
    let first = ready(pool.pull(1));
    let second = ready(pool.pull(2));
    let waiting = waiter(pool.pull(3));
    first.release(&mut pool);
    assert!(pool.try_pull(4).is_none());
    second.release(&mut pool);
    assert_eq!(pool.available_permits(), Some(1));
    assert!(pool.try_pull(4).is_some());
    assert!(pool.try_pull(4).is_none());
    ready(pool.resume(waiting));
}

#[test]
fn a_pull_that_waits_for_a_local_limit_is_not_overtaken() {
    let mut pool = Pool::<u8, u32>::new(10);
    let index = pool.set_local_limit(1);
    let item = ready(pool.pull_with_wait_local_limit(1, Some(index)));
    let waiting = waiter(pool.pull_with_wait_local_limit(2, Some(index)));
    item.release(&mut pool);
    assert_eq!(pool.local_available_permits(index), Some(0));
    assert!(pool.try_pull_with_local_limit(3, Some(index)).is_none());
    assert!(pool.pull_with_local_limit(3, Some(index)).is_none());
    ready(pool.resume(waiting)).release(&mut pool);
    assert_eq!(pool.local_available_permits(index), Some(1));
    assert_eq!(pool.available_permits(), Some(10));
}

#[test]
fn a_large_pool_keeps_every_value_below_its_capacity() {
    let mut pool = Pool::<u32, u32>::new(200);
    let mut items = Vec::new();
    for key in 0..200 {
        let mut item = pool.try_pull(key).unwrap();
        *item.inner_mut() = Some(key);
        items.push(item);
    }
    for item in items {
        assert!(pool.has_room());
        item.release(&mut pool);
    }
    assert_eq!(pool.stored(), 200);
    for key in 0..200 {
        assert_eq!(pool.try_pull(key).unwrap().inner(), &Some(key));
    }
}

#[test]
fn items_and_free_permits_make_up_the_limits() {
    let mut pool = Pool::<u8, u32>::new(3);
    let index = pool.set_local_limit(2);
    let other = pool.set_local_limit(4);
    let first = ready(pool.pull_with_wait_local_limit(1, Some(index)));
    let second = pool.try_pull_with_local_limit(2, Some(other)).unwrap();
    let third = pool.try_pull(3).unwrap();
    assert_eq!(pool.available_permits(), Some(0));
    assert_eq!(pool.local_available_permits(index), Some(1));
    assert_eq!(pool.local_available_permits(other), Some(3));

    // A pull that waits for the global limit holds its local permit already.
    let waiting = waiter(pool.pull_with_wait_local_limit(4, Some(index)));
    assert_eq!(pool.local_available_permits(index), Some(0));

    // The permit that comes back is due to the pull that waits, and not free.
    second.release(&mut pool);
    assert_eq!(pool.available_permits(), Some(0));
    assert_eq!(pool.local_available_permits(other), Some(4));

    let fourth = ready(pool.resume(waiting));
    assert_eq!(pool.available_permits(), Some(0));
    assert_eq!(pool.local_available_permits(index), Some(0));

    assert_eq!(first.take(&mut pool), None);
    assert_eq!(pool.available_permits(), Some(1));
    assert_eq!(pool.local_available_permits(index), Some(1));
    third.release(&mut pool);
    fourth.release(&mut pool);
    assert_eq!(pool.available_permits(), Some(3));
    assert_eq!(pool.local_available_permits(index), Some(2));
    assert_eq!(pool.local_available_permits(other), Some(4));
}

#[test]
fn a_pull_gets_no_value_of_another_key() {
    let mut pool = Pool::<u64, u64>::new(3);
    let mut pulled = vec![Vec::new(), Vec::new(), Vec::new(), Vec::new()];
    for value in 0..200u64 {
        let key = value % 4;
        let item = pool.try_pull(key).unwrap();
        assert!(item.inner().is_none_or(|found| found % 4 == key));
        pulled[key as usize].extend(item.take(&mut pool));
        let mut item = pool.try_pull(key).unwrap();
        pulled[key as usize].extend(*item.inner());
        *item.inner_mut() = Some(value);
        item.release(&mut pool);
        assert!(pool.stored() <= 3);
    }
    for values in pulled {
        for pair in values.windows(2) {
            assert!(pair[0] < pair[1]);
        }
    }
}

#[test]
fn a_pull_that_need_not_wait_does_as_one_that_cannot() {
    let mut pools = Vec::new();
    for _ in 0..2 {
        let mut pool = Pool::<u8, u32>::new(2);
        let index = pool.set_local_limit(1);
        let mut item = pool.try_pull(7).unwrap();
        *item.inner_mut() = Some(70);
        item.release(&mut pool);
        pools.push((pool, index));
    }
    let (mut waiting, index) = pools.pop().unwrap();
    let (mut trying, other) = pools.pop().unwrap();
    assert_eq!(index, other);
    let pulled = ready(waiting.pull_with_wait_local_limit(7, Some(index)));
    let tried = trying.try_pull_with_local_limit(7, Some(index)).unwrap();
    assert_eq!(pulled.inner(), &Some(70));
    assert_eq!(tried.inner(), &Some(70));
    assert_eq!(pulled.limited_by(), tried.limited_by());
    assert_eq!(waiting.stored(), trying.stored());
    assert_eq!(waiting.available_permits(), trying.available_permits());
    assert_eq!(waiting.local_available_permits(index), trying.local_available_permits(index));

    assert!(waits(&waiting.pull_with_wait_local_limit(7, Some(index))));
    assert!(trying.try_pull_with_local_limit(7, Some(index)).is_none());
}

#[test]
fn what_is_written_is_read_taken_and_returned() {
    let mut pool = Pool::<u8, u32>::new(2);
    let index = pool.set_local_limit(2);
    let mut item = ready(pool.pull_with_wait_local_limit(1, Some(index)));
    *item.inner_mut() = Some(8);
    assert_eq!(item.inner(), &Some(8));
    assert_eq!(item.limited_by(), Some(index));
    assert_eq!(pool.stored(), 0);
    assert_eq!(pool.available_permits(), Some(1));
    item.release(&mut pool);

    let mut item = ready(pool.pull(1));
    assert_eq!(item.inner(), &Some(8));
    *item.inner_mut() = Some(9);
    assert_eq!(item.take(&mut pool), Some(9));

    let mut item = ready(pool.pull(1));
    *item.inner_mut() = Some(10);
    *item.inner_mut() = None;
    item.release(&mut pool);
    assert_eq!(pool.stored(), 0);
    assert_eq!(pool.available_permits(), Some(2));
}

#[test]
fn an_unbounded_pool_loses_no_value() {
    let mut pool = Pool::<u8, u32>::new_unbounded();
    let mut returned = Vec::new();
    let mut pulled = Vec::new();
    for value in 0..100 {
        let mut items = Vec::new();
        for _ in 0..3 {
            let item = pool.try_pull(value as u8 % 2).unwrap();
            if value % 2 == 0 {
                pulled.extend(*item.inner());
            }
            items.push(item);
        }
        for (at, mut item) in items.into_iter().enumerate() {
            *item.inner_mut() = Some(10 * value + at as u32);
            if value % 2 == 0 {
                returned.push(10 * value + at as u32);
            }
            item.release(&mut pool);
        }
    }
    while let Some(value) = pool.try_pull(0).unwrap().take(&mut pool) {
        pulled.push(value);
    }
    assert_eq!(pulled, returned);
}
