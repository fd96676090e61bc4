use fuel_genesis::database::{Column, Database, DatabaseError, IterDirection};
use fuel_genesis::key_order::{compare_keys, starts_with, KeyOrder};

#[test]
fn compare_keys_is_lexicographic() {
    assert_eq!(compare_keys(&[1, 2, 3], &[1, 2, 4]), KeyOrder::Before);
    assert_eq!(compare_keys(&[1, 2], &[1, 2, 0]), KeyOrder::Before);
    assert_eq!(compare_keys(&[2], &[1, 9, 9]), KeyOrder::After);
    assert_eq!(compare_keys(&[], &[]), KeyOrder::Same);
    assert_eq!(compare_keys(&[7, 7], &[7, 7]), KeyOrder::Same);
    assert_eq!(compare_keys(&[0], &[]), KeyOrder::After);
}

#[test]
fn starts_with_checks_the_prefix() {
    assert!(starts_with(&[1, 2, 3], &[1, 2]));
    assert!(starts_with(&[1, 2, 3], &[]));
    assert!(!starts_with(&[1, 2, 3], &[1, 3]));
    assert!(!starts_with(&[1], &[1, 2]));
}

#[test]
fn default_database_is_empty() {
    let database = Database::default();
    assert!(database.iter_all(Column::ContractsRawCode, None).is_empty());
    assert!(!database.contains_key(&[], Column::ContractsRawCode));
}

#[test]
fn new_database_is_empty() {
    let database = Database::new();
    assert!(!database.contains_key(&[1], Column::Coins));
    assert_eq!(database.read_alloc(&[1], Column::Coins), None);
    assert_eq!(database.size_of_value(&[1], Column::Coins), None);
    assert!(database.iter_all(Column::Coins, None).is_empty());
}

#[test]
fn write_then_read_alloc() {
    let mut database = Database::new();
    assert_eq!(database.write(&[1, 2], Column::Coins, &[9, 8, 7]), 3);
    assert_eq!(database.read_alloc(&[1, 2], Column::Coins), Some(vec![9, 8, 7]));
    assert_eq!(database.size_of_value(&[1, 2], Column::Coins), Some(3));
    assert!(database.contains_key(&[1, 2], Column::Coins));
    // another column does not see the entry
    assert!(!database.contains_key(&[1, 2], Column::Messages));
}

#[test]
fn replace_returns_the_previous_value() {
    let mut database = Database::new();
    assert_eq!(database.replace(&[5], Column::Messages, &[1]), (1, None));
    assert_eq!(database.replace(&[5], Column::Messages, &[2, 3]), (2, Some(vec![1])));
    assert_eq!(database.read_alloc(&[5], Column::Messages), Some(vec![2, 3]));
    assert_eq!(database.iter_all(Column::Messages, None).len(), 1);
}

#[test]
fn take_removes_the_entry() {
    let mut database = Database::new();
    database.write(&[5], Column::Messages, &[1]);
    database.write(&[6], Column::Messages, &[2]);
    assert_eq!(database.take(&[5], Column::Messages), Some(vec![1]));
    assert_eq!(database.take(&[5], Column::Messages), None);
    assert!(!database.contains_key(&[5], Column::Messages));
    assert_eq!(database.read_alloc(&[6], Column::Messages), Some(vec![2]));
}

#[test]
fn read_fills_the_front_of_the_buffer() {
    let mut database = Database::new();
    database.write(&[1], Column::Coins, &[10, 20, 30]);
    let mut buf = [0xffu8; 5];
    assert_eq!(database.read(&[1], Column::Coins, &mut buf), Ok(Some(3)));
    assert_eq!(buf, [10, 20, 30, 0xff, 0xff]);
    let mut absent = [7u8; 2];
    assert_eq!(database.read(&[2], Column::Coins, &mut absent), Ok(None));
    assert_eq!(absent, [7, 7]);
}

#[test]
fn read_into_a_short_buffer_fails() {
    let mut database = Database::new();
    database.write(&[1], Column::Coins, &[10, 20, 30]);
    let mut buf = [0u8; 2];
    assert_eq!(
        database.read(&[1], Column::Coins, &mut buf),
        Err(DatabaseError::BufferTooSmall { required: 3, provided: 2 })
    );
    assert_eq!(buf, [0, 0]);
}

fn filled() -> Database {
    let mut database = Database::new();
    database.write(&[2, 1], Column::ContractsState, &[21]);
    database.write(&[1, 2], Column::ContractsState, &[12]);
    database.write(&[1, 1], Column::ContractsState, &[11]);
    database.write(&[3], Column::ContractsState, &[30]);
    database.write(&[1], Column::ContractsState, &[10]);
    database.write(&[1, 1], Column::ContractsAssets, &[99]);
    database
}

#[test]
fn iter_all_walks_in_key_order() {
    let database = filled();
    let forward = database.iter_all(Column::ContractsState, None);
    let keys: Vec<Vec<u8>> = forward.iter().map(|entry| entry.0.clone()).collect();
    assert_eq!(keys, vec![vec![1], vec![1, 1], vec![1, 2], vec![2, 1], vec![3]]);
    let values: Vec<Vec<u8>> = forward.iter().map(|entry| entry.1.clone()).collect();
    assert_eq!(values, vec![vec![10], vec![11], vec![12], vec![21], vec![30]]);
    let reverse = database.iter_all(Column::ContractsState, Some(IterDirection::Reverse));
    let keys: Vec<Vec<u8>> = reverse.iter().map(|entry| entry.0.clone()).collect();
    assert_eq!(keys, vec![vec![3], vec![2, 1], vec![1, 2], vec![1, 1], vec![1]]);
}

#[test]
fn iter_all_by_prefix_keeps_the_prefixed_keys() {
    let database = filled();
    let entries = database.iter_all_by_prefix(Column::ContractsState, Some(&[1]));
    assert_eq!(
        entries,
        vec![(vec![1], vec![10]), (vec![1, 1], vec![11]), (vec![1, 2], vec![12])]
    );
    assert!(database.iter_all_by_prefix(Column::ContractsState, Some(&[4])).is_empty());
    assert_eq!(database.iter_all_by_prefix(Column::ContractsState, None).len(), 5);
}

#[test]
fn iter_all_filtered_begins_at_the_start_key() {
    let database = filled();
    let forward = database.iter_all_filtered(
        Column::ContractsState,
        Some(&[1]),
        Some(&[1, 1]),
        Some(IterDirection::Forward),
    );
    assert_eq!(forward, vec![(vec![1, 1], vec![11]), (vec![1, 2], vec![12])]);
    let reverse = database.iter_all_filtered(
        Column::ContractsState,
        Some(&[1]),
        Some(&[1, 1]),
        Some(IterDirection::Reverse),
    );
    assert_eq!(reverse, vec![(vec![1, 1], vec![11]), (vec![1], vec![10])]);
    let unprefixed = database.iter_all_filtered(Column::ContractsState, None, Some(&[1, 2]), None);
    assert_eq!(
        unprefixed,
        vec![(vec![1, 2], vec![12]), (vec![2, 1], vec![21]), (vec![3], vec![30])]
    );
}

#[test]
fn column_index_is_its_place() {
    assert_eq!(Column::Coins.index(), 0);
    assert_eq!(Column::ContractsRawCode.index(), 4);
    assert_eq!(Column::GasPriceMetadata.index(), 17);
}
