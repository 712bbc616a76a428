use lru_cache::cache::entries::{CacheEntries, DroppedEntry};

#[test]
fn a_new_instance_is_empty() {
    let instance = CacheEntries::<usize, usize>::empty(10);
    assert_eq!(instance.len(), 0);
}

#[test]
fn an_entry_can_be_appended() {
    let mut instance = CacheEntries::<usize, usize>::empty(10);
    let (handle, evicted) = instance.append(1, 1);
    assert!(instance.entry(handle).is_some());
    assert_eq!(evicted, None);
    assert_eq!(instance.len(), 1);
}

#[test]
fn an_appended_entry_can_be_read() {
    let mut instance = CacheEntries::<usize, usize>::empty(10);
    let (handle, _) = instance.append(1, 1);
    let read_value = instance.read(handle);
    assert_eq!(read_value, 1);
}

#[test]
fn an_appended_entry_is_linked_to_the_second_to_last_one() {
    let mut instance = CacheEntries::<usize, usize>::empty(10);
    let (first_handle, _) = instance.append(1, 1);
    let (second_handle, _) = instance.append(1, 2);

    let first_entry = instance.entry(first_handle).unwrap();
    let second_entry = instance.entry(second_handle).unwrap();

    assert_eq!(second_entry.left, Some(first_handle));
    assert_eq!(first_entry.right, Some(second_handle));
}

#[test]
fn appended_entries_can_be_dropped() {
    let mut instance = CacheEntries::<usize, usize>::empty(10);
    let (first_handle, _) = instance.append(1, 1);
    let (second_handle, _) = instance.append(1, 2);

    assert_eq!(instance.len(), 2);
    assert_eq!(
        instance.drop(second_handle),
        Some(DroppedEntry {
            key: 1,
            value: 2,
            left_of_dropped: Some(first_handle),
            right_of_dropped: None
        })
    );
    assert_eq!(instance.len(), 1);
}

#[test]
fn a_dropped_handle_cannot_be_dropped_again() {
    let mut instance = CacheEntries::<usize, usize>::empty(10);
    let (handle, _) = instance.append(3, 30);
    assert!(instance.drop(handle).is_some());
    assert_eq!(instance.drop(handle), None);
    assert_eq!(instance.drop(999), None);
    assert_eq!(instance.len(), 0);
}

#[test]
fn the_least_recently_appended_items_are_cleared() {
    let mut instance = CacheEntries::<usize, usize>::empty(3);
    let _ = instance.append(1, 11);
    let _ = instance.append(2, 22);
    let _ = instance.append(3, 33);
    let (_, evicted) = instance.append(4, 44);

    assert_eq!(evicted, Some(1));
    assert_eq!(instance.len(), 3);

    let first = instance.first().unwrap();
    assert_eq!(first.key, 2);
    assert_eq!(first.value, 22);
}

#[test]
fn reading_prevents_an_item_from_being_cleared() {
    let mut instance = CacheEntries::<usize, usize>::empty(3);
    let (handle_1, _) = instance.append(1, 11);
    let _ = instance.append(2, 22);
    let _ = instance.append(3, 33);
    let value_1 = instance.read(handle_1);
    assert_eq!(value_1, 11);

    let last = instance.last().unwrap();
    assert_eq!(last.key, 1);
    assert_eq!(last.value, 11);

    let _ = instance.append(4, 44);

    assert_eq!(instance.len(), 3);

    let first = instance.first().unwrap();
    assert_eq!(first.key, 3);
    assert_eq!(first.value, 33);
}

#[test]
fn reduce_by_one_evicts_the_oldest() {
    let mut instance = CacheEntries::<usize, usize>::empty(3);
    assert_eq!(instance.reduce_by_one(), None);
    let _ = instance.append(8, 80);
    let _ = instance.append(9, 90);
    assert_eq!(instance.reduce_by_one(), Some(8));
    assert_eq!(instance.len(), 1);
    assert_eq!(instance.first().unwrap().key, 9);
}
