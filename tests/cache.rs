use lru_cache::cache::entry::CacheEntry;
use lru_cache::cache::hasher::Hasher;
use lru_cache::cache::{Cache, ConfigError, DropResult, GetResult};

#[test]
fn create_a_cache_without_capacity() {
    match Cache::<usize, usize>::empty(0, 5) {
        Err(_) => {}
        Ok(_) => panic!("We shouldn't be able to make a cache without capacity"),
    }
}

#[test]
fn create_an_empty_cache() {
    let cache = Cache::<usize, usize>::empty(1, 5);
    assert!(cache.is_ok());
}

#[test]
fn zero_capacity_and_zero_width_are_reported() {
    assert_eq!(
        Cache::<usize, usize>::empty(0, 5).err(),
        Some(ConfigError::ZeroCapacity)
    );
    assert_eq!(
        Cache::<usize, usize>::empty(0, 0).err(),
        Some(ConfigError::ZeroCapacity)
    );
    assert_eq!(
        Cache::<usize, usize>::empty(3, 0).err(),
        Some(ConfigError::ZeroWidth)
    );
}

#[test]
fn a_new_cache_is_empty() {
    let cache = Cache::<usize, usize>::empty(4, 2).unwrap();
    assert_eq!(cache.len(), 0);
    assert_eq!(cache.capacity(), 4);
}

#[test]
fn cannot_drop_a_missing_key() {
    let mut cache = Cache::<usize, usize>::empty(10, 500).unwrap();
    assert_eq!(cache.drop(1), DropResult::KeyNotFound { key: 1 });
}

#[test]
fn can_drop_a_known_key() {
    let mut cache = Cache::<usize, usize>::empty(10, 500).unwrap();
    cache.set(1, 123);
    assert_eq!(cache.drop(1), DropResult::Dropped { key: 1 });
}

#[test]
fn a_dropped_key_cannot_be_get() {
    let mut cache = Cache::<usize, usize>::empty(10, 500).unwrap();
    cache.set(1, 123);
    cache.drop(1);
    assert_eq!(cache.get(1), GetResult::NotFound { key: 1 });
}

#[test]
fn a_second_drop_finds_nothing() {
    let mut cache = Cache::<usize, usize>::empty(10, 500).unwrap();
    cache.set(1, 123);
    assert_eq!(cache.drop(1), DropResult::Dropped { key: 1 });
    assert_eq!(cache.drop(1), DropResult::KeyNotFound { key: 1 });
    assert_eq!(cache.get(1), GetResult::NotFound { key: 1 });
    assert_eq!(cache.len(), 0);
}

#[test]
fn cannot_find_an_unknown_key() {
    let mut cache = Cache::<usize, usize>::empty(1, 5).unwrap();
    assert_eq!(cache.get(1), GetResult::NotFound { key: 1 });
}

#[test]
fn a_miss_leaves_the_length_alone() {
    let mut cache = Cache::<usize, usize>::empty(3, 3).unwrap();
    cache.set(1, 10);
    cache.set(2, 20);
    assert_eq!(cache.get(7), GetResult::NotFound { key: 7 });
    assert_eq!(cache.len(), 2);
}

#[test]
fn can_find_known_keys() {
    let mut cache = Cache::<usize, usize>::empty(100, 100).unwrap();
    cache.set(1, 11);
    cache.set(2, 22);
    cache.set(3, 33);
    cache.set(4, 44);

    assert_eq!(cache.get(1), GetResult::Found { key: 1, value: 11 });
    assert_eq!(cache.get(2), GetResult::Found { key: 2, value: 22 });
    assert_eq!(cache.get(3), GetResult::Found { key: 3, value: 33 });
    assert_eq!(cache.get(4), GetResult::Found { key: 4, value: 44 });
}

#[test]
fn handles_hash_collisions() {
    let mut cache = Cache::<usize, usize>::empty(100, 3).unwrap();
    cache.set(1, 1);
    cache.set(2, 2);
    cache.set(3, 3);
    cache.set(4, 4);

    assert_eq!(cache.get(1), GetResult::Found { key: 1, value: 1 });
    assert_eq!(cache.get(4), GetResult::Found { key: 4, value: 4 });
}

#[test]
fn an_unkown_key_can_be_set() {
    let mut cache = Cache::<usize, usize>::empty(100, 100).unwrap();
    cache.set(1, 11);
    cache.set(2, 22);
    cache.set(3, 33);
    cache.set(4, 44);

    assert_eq!(cache.get(1), GetResult::Found { key: 1, value: 11 });
    assert_eq!(cache.get(2), GetResult::Found { key: 2, value: 22 });
    assert_eq!(cache.get(3), GetResult::Found { key: 3, value: 33 });
    assert_eq!(cache.get(4), GetResult::Found { key: 4, value: 44 });
}

#[test]
fn a_known_key_can_be_overriden() {
    let mut cache = Cache::<usize, usize>::empty(100, 100).unwrap();
    cache.set(1, 11);
    cache.set(1, 22);

    assert_eq!(cache.get(1), GetResult::Found { key: 1, value: 22 });
}

#[test]
fn the_capacity_of_the_cache_is_limited() {
    let mut cache = Cache::<usize, usize>::empty(3, 3).unwrap();
    cache.set(1, 1);
    cache.set(2, 2);
    cache.set(3, 3);
    cache.set(4, 4);

    assert_eq!(cache.get(1), GetResult::NotFound { key: 1 });
    assert_eq!(cache.get(2), GetResult::Found { key: 2, value: 2 });
}

#[test]
fn four_writes_into_room_for_three() {
    let mut cache = Cache::<usize, usize>::empty(3, 3).unwrap();
    cache.set(1, 1);
    cache.set(2, 2);
    cache.set(3, 3);
    cache.set(4, 4);

    assert_eq!(cache.get(1), GetResult::NotFound { key: 1 });
    assert_eq!(cache.get(2), GetResult::Found { key: 2, value: 2 });
    assert_eq!(cache.get(3), GetResult::Found { key: 3, value: 3 });
    assert_eq!(cache.get(4), GetResult::Found { key: 4, value: 4 });
    assert_eq!(cache.len(), 3);
}

#[test]
fn the_first_of_one_more_than_capacity_is_evicted() {
    let mut cache = Cache::<usize, usize>::empty(4, 2).unwrap();
    for k in 10..15 {
        cache.set(k, k * 100);
    }
    assert_eq!(cache.get(10), GetResult::NotFound { key: 10 });
    for k in 11..15 {
        assert_eq!(cache.get(k), GetResult::Found { key: k, value: k * 100 });
    }
}

#[test]
fn a_read_saves_a_key_from_eviction() {
    let mut cache = Cache::<usize, usize>::empty(3, 7).unwrap();
    cache.set(1, 11);
    cache.set(2, 22);
    cache.set(3, 33);
    assert_eq!(cache.get(1), GetResult::Found { key: 1, value: 11 });
    cache.set(4, 44);

    assert_eq!(cache.get(2), GetResult::NotFound { key: 2 });
    assert_eq!(cache.get(1), GetResult::Found { key: 1, value: 11 });
    assert_eq!(cache.get(3), GetResult::Found { key: 3, value: 33 });
    assert_eq!(cache.get(4), GetResult::Found { key: 4, value: 44 });
}

#[test]
fn an_overwrite_keeps_the_length_and_evicts_nothing() {
    let mut cache = Cache::<usize, usize>::empty(2, 2).unwrap();
    cache.set(1, 10);
    cache.set(2, 20);
    assert_eq!(cache.len(), 2);
    cache.set(1, 11);
    assert_eq!(cache.len(), 2);
    assert_eq!(cache.get(2), GetResult::Found { key: 2, value: 20 });
    assert_eq!(cache.get(1), GetResult::Found { key: 1, value: 11 });
}

#[test]
fn an_overwrite_makes_the_key_most_recent() {
    let mut cache = Cache::<usize, usize>::empty(2, 2).unwrap();
    cache.set(1, 10);
    cache.set(2, 20);
    cache.set(1, 11);
    cache.set(3, 30);
    assert_eq!(cache.get(2), GetResult::NotFound { key: 2 });
    assert_eq!(cache.get(1), GetResult::Found { key: 1, value: 11 });
    assert_eq!(cache.get(3), GetResult::Found { key: 3, value: 30 });
}

#[test]
fn the_length_never_exceeds_the_capacity() {
    let mut cache = Cache::<usize, usize>::empty(5, 3).unwrap();
    for i in 0..200usize {
        let k = (i * 7) % 13;
        match i % 3 {
            0 => cache.set(k, i),
            1 => {
                let _ = cache.get(k);
            }
            _ => {
                let _ = cache.drop(k);
            }
        }
        assert!(cache.len() <= 5);
    }
}

#[test]
fn a_value_survives_other_traffic_until_evicted() {
    let mut cache = Cache::<usize, usize>::empty(3, 2).unwrap();
    cache.set(5, 50);
    cache.set(6, 60);
    let _ = cache.get(5);
    cache.set(7, 70);
    let _ = cache.drop(6);
    cache.set(8, 80);
    assert_eq!(cache.get(5), GetResult::Found { key: 5, value: 50 });
}

#[test]
fn creates_a_cache_entry() {
    let entry = CacheEntry::create(2, 88);
    assert_eq!(entry.key, 2);
    assert_eq!(entry.value, 88);
}

#[test]
fn hashing_a_usize_takes_the_remainder() {
    assert_eq!(17usize.hash(5), 2);
    assert_eq!(4usize.hash(3), 1usize.hash(3));
    assert_ne!(4usize.hash(3), 5usize.hash(3));
}

#[test]
fn a_cache_of_u64_keys_and_values() {
    let mut cache = Cache::<u64, u64>::empty(2, 5).unwrap();
    cache.set(1u64 << 40, 7);
    cache.set(3, 9);
    assert_eq!(cache.get(1u64 << 40), GetResult::Found { key: 1u64 << 40, value: 7 });
    cache.set(4, 16);
    assert_eq!(cache.get(3), GetResult::NotFound { key: 3 });
    assert_eq!((1u64 << 40).hash(5), ((1u64 << 40) % 5) as usize);
}
