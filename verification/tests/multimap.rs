use connpool::ConcurrentLimitedMultimap;
use std::collections::hash_map::RandomState;
use std::rc::Rc;

#[test]
fn test_insert_and_get() {
    let mut map = ConcurrentLimitedMultimap::new(3);
    map.insert("a", 1);
    map.insert("b", 2);
    map.insert("c", 3);

    assert_eq!(map.remove(&"a"), Some(1));
    assert_eq!(map.remove(&"b"), Some(2));
    assert_eq!(map.remove(&"c"), Some(3));
    assert_eq!(map.remove(&"d"), None);
}

#[test]
fn test_eviction() {
    let mut map = ConcurrentLimitedMultimap::new(3);
    map.insert("a", 1);
    map.insert("b", 2);
    map.insert("c", 3);
    map.insert("d", 4); // Should evict one entry

    assert_eq!(map.len(), 3);
}

#[test]
fn test_remove() {
    let mut map = ConcurrentLimitedMultimap::new(3);
    map.insert("a", 1);
    map.insert("b", 2);
    map.insert("c", 3);

    assert_eq!(map.remove(&"b"), Some(2));
    assert_eq!(map.remove(&"b"), None);
    assert_eq!(map.remove(&"a"), Some(1));
    assert_eq!(map.remove(&"c"), Some(3));
}

#[test]
fn test_with_hasher() {
    let hasher = RandomState::new();
    let mut map = ConcurrentLimitedMultimap::with_hasher(3, hasher);
    map.insert("a", 1);
    map.insert("b", 2);
    map.insert("c", 3);

    assert_eq!(map.remove(&"a"), Some(1));
    assert_eq!(map.remove(&"b"), Some(2));
    assert_eq!(map.remove(&"c"), Some(3));
}

#[test]
fn test_insert_same_key_multiple_times() {
    let mut map = ConcurrentLimitedMultimap::new(3);
    map.insert("a", 1);
    map.insert("a", 2);

    assert_eq!(map.remove(&"a"), Some(1));
}

#[test]
fn test_remove_then_insert() {
    let mut map = ConcurrentLimitedMultimap::new(3);
    map.remove(&"a");
    map.insert("a", 1);

    assert_eq!(map.remove(&"a"), Some(1));
}

#[test]
fn values_of_a_key_come_out_in_order() {
    let mut map = ConcurrentLimitedMultimap::unbounded();
    for value in 0..100 {
        map.insert(value % 2, value);
    }
    for value in 0..100 {
        assert_eq!(map.remove(&(value % 2)), Some(value));
    }
    assert_eq!(map.remove(&0), None);
    assert_eq!(map.remove(&1), None);
    assert_eq!(map.len(), 0);
}

#[test]
fn no_value_is_evicted_below_the_capacity() {
    let mut map = ConcurrentLimitedMultimap::new(62);
    for key in 0..62u64 {
        map.insert(key, key + 1000);
    }
    assert_eq!(map.len(), 62);
    for key in 0..62u64 {
        assert_eq!(map.remove(&key), Some(key + 1000));
    }
}

#[test]
fn a_full_map_gives_up_one_value_and_keeps_the_new_one() {
    let mut map = ConcurrentLimitedMultimap::new(5);
    for key in 0..50u64 {
        map.insert(key, key);
        assert_eq!(map.len(), if key < 5 { key as usize + 1 } else { 5 });
    }
    assert_eq!(map.remove(&49), Some(49));
    assert_eq!(map.len(), 4);
    let left = (0..49).filter(|key| map.remove(key).is_some()).count();
    assert_eq!(left, 4);
    assert_eq!(map.len(), 0);
}

#[test]
fn evicted_values_of_one_key_are_skipped() {
    let mut map = ConcurrentLimitedMultimap::new(3);
    for value in 0..40u64 {
        map.insert("a", value);
    }
    let mut left = Vec::new();
    while let Some(value) = map.remove(&"a") {
        left.push(value);
    }
    assert_eq!(left.len(), 3);
    assert!(left[0] < left[1] && left[1] < left[2]);
    assert_eq!(left[2], 39);
    assert_eq!(map.remove(&"a"), None);
    map.insert("a", 40);
    assert_eq!(map.remove(&"a"), Some(40));
}

#[test]
fn a_map_without_capacity_keeps_nothing() {
    let mut map = ConcurrentLimitedMultimap::new(0);
    map.insert("a", 1);
    assert_eq!(map.len(), 0);
    assert_eq!(map.remove(&"a"), None);
}

#[test]
fn an_unbounded_map_keeps_everything() {
    let mut map = ConcurrentLimitedMultimap::with_hasher_unbounded(ahash::RandomState::new());
    for key in 0..20000u64 {
        map.insert(key, key * 3);
    }
    assert_eq!(map.len(), 20000);
    for key in 0..20000u64 {
        assert_eq!(map.remove(&key), Some(key * 3));
    }
}

#[test]
fn a_large_map_is_filled_to_its_capacity_and_no_further() {
    for capacity in [63, 64, 1000] {
        let mut map = ConcurrentLimitedMultimap::new(capacity);
        for key in 0..10 * capacity {
            map.insert(key, key);
            assert_eq!(map.len(), if key < capacity { key + 1 } else { capacity });
            assert!(map.has_room());
        }
    }
}

#[test]
fn nothing_is_evicted_from_a_large_map_before_it_is_full() {
    let mut map = ConcurrentLimitedMultimap::new(1000);
    for key in 0..1000u64 {
        map.insert(key, key * 2);
    }
    for key in 0..1000u64 {
        assert_eq!(map.remove(&key), Some(key * 2));
    }
}

#[test]
fn the_hasher_has_no_influence() {
    let mut one = ConcurrentLimitedMultimap::new(100);
    let mut other = ConcurrentLimitedMultimap::with_hasher(100, ahash::RandomState::new());
    for value in 0..100u64 {
        one.insert(value % 7, value);
        other.insert(value % 7, value);
        if value % 3 == 0 {
            assert_eq!(one.remove(&(value % 5)), other.remove(&(value % 5)));
        }
    }
    for key in 0..7 {
        loop {
            let value = one.remove(&key);
            assert_eq!(value, other.remove(&key));
            if value.is_none() {
                break;
            }
        }
    }
}

#[test]
fn what_comes_out_and_what_is_left_is_what_went_in() {
    let mut map = ConcurrentLimitedMultimap::unbounded();
    let mut inserted = Vec::new();
    let mut removed = Vec::new();
    for value in 0..300u64 {
        map.insert("a", value);
        map.insert("b", value + 1000);
        inserted.push(value);
        if value % 4 == 1 {
            removed.extend(map.remove(&"a"));
        }
    }
    while let Some(value) = map.remove(&"a") {
        removed.push(value);
    }
    assert_eq!(removed, inserted);
    assert_eq!(map.len(), 300);
}

#[test]
fn an_evicted_value_is_dropped_at_once() {
    let value = Rc::new(());
    let mut map = ConcurrentLimitedMultimap::new(2);
    for key in 0..10u64 {
        map.insert(key, value.clone());
    }
    assert_eq!(Rc::strong_count(&value), 3);
}

#[test]
fn evictions_do_not_change_the_order() {
    let mut map = ConcurrentLimitedMultimap::new(7);
    let mut removed = Vec::new();
    for value in 0..200u64 {
        map.insert(value % 3, value);
        if value % 10 == 9 {
            removed.extend(map.remove(&1));
        }
    }
    while let Some(value) = map.remove(&1) {
        removed.push(value);
    }
    assert!(!removed.is_empty());
    for value in &removed {
        assert_eq!(value % 3, 1);
    }
    for pair in removed.windows(2) {
        assert!(pair[0] < pair[1]);
    }
}

#[test]
fn a_map_never_holds_more_than_its_capacity() {
    let mut map = ConcurrentLimitedMultimap::new(5);
    let mut expected: usize = 0;
    for value in 0..300u64 {
        map.insert(value % 4, value);
        if expected < 5 {
            expected += 1;
        }
        assert_eq!(map.len(), expected);
        if value % 3 == 0 && map.remove(&(value % 7)).is_some() {
            expected -= 1;
        }
        assert_eq!(map.len(), expected);
    }
}
