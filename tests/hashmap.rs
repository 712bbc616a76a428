use lru_cache::cache::hashmap::{CacheEntryLocation, HashMap, HashMapDrop, HashMapSet};

#[test]
fn creat_a_new_hashmap() {
    let _a = HashMap::<usize>::create(1000);
}

#[test]
fn a_non_existing_key_cannot_be_found() {
    let a = HashMap::<usize>::create(1000);
    assert_eq!(a.get(1), None);
}

#[test]
fn a_non_existing_key_can_be_set() {
    let mut a = HashMap::<usize>::create(1000);
    let location = CacheEntryLocation::create(1, 0);
    let set_result = a.set(1, location.clone());
    assert_eq!(
        set_result,
        HashMapSet::KeySetAsNew {
            key: 1,
            value: location
        }
    );
}

#[test]
fn an_existing_key_can_be_overwritten() {
    let mut a = HashMap::<usize>::create(1000);
    let location = CacheEntryLocation::create(1, 0);
    let _ = a.set(1, location.clone());
    let set_result = a.set(1, location.clone());
    assert_eq!(
        set_result,
        HashMapSet::KeyOverwritten {
            key: 1,
            value: location.clone(),
            overwritten: location,
        }
    );
}

#[test]
fn an_overwrite_reports_the_old_handle() {
    let mut a = HashMap::<usize>::create(4);
    let _ = a.set(6, CacheEntryLocation::create(6, 3));
    let set_result = a.set(6, CacheEntryLocation::create(6, 9));
    assert_eq!(
        set_result,
        HashMapSet::KeyOverwritten {
            key: 6,
            value: CacheEntryLocation::create(6, 9),
            overwritten: CacheEntryLocation::create(6, 3),
        }
    );
    assert_eq!(a.get(6), Some(&CacheEntryLocation::create(6, 9)));
}

#[test]
fn we_can_get_a_key_after_setting_it() {
    let mut a = HashMap::<usize>::create(1000);
    let location = CacheEntryLocation::create(1, 0);
    let _ = a.set(1, location.clone());
    assert_eq!(a.get(1), Some(&location));
}

#[test]
fn we_can_drop_an_existing_key() {
    let mut a = HashMap::<usize>::create(1000);
    let location = CacheEntryLocation::create(1, 0);
    a.set(1, location.clone());
    assert_eq!(
        a.drop(1),
        HashMapDrop::KeyDropped {
            key: 1,
            value: location
        }
    );
}

#[test]
fn we_cannot_drop_a_non_existing_key() {
    let mut a = HashMap::<usize>::create(1000);
    assert_eq!(a.drop(1), HashMapDrop::KeyNotFound { key: 1 });
}

#[test]
fn colliding_keys_are_kept_apart() {
    let mut a = HashMap::<usize>::create(2);
    let _ = a.set(1, CacheEntryLocation::create(1, 10));
    let _ = a.set(3, CacheEntryLocation::create(3, 30));
    let _ = a.set(5, CacheEntryLocation::create(5, 50));
    assert_eq!(
        a.drop(3),
        HashMapDrop::KeyDropped {
            key: 3,
            value: CacheEntryLocation::create(3, 30)
        }
    );
    assert_eq!(a.get(1), Some(&CacheEntryLocation::create(1, 10)));
    assert_eq!(a.get(3), None);
    assert_eq!(a.get(5), Some(&CacheEntryLocation::create(5, 50)));
}
