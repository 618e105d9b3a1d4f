use store::column::Column;
use store::column_store::ColumnStore;
use store::error::StoreError;
use store::kv::{KeyValueOp, MemoryStore};
use store::metrics::{ColumnCounter, MetricsRegistry};

#[test]
fn memory_store_put_get_delete() {
    let mut s = MemoryStore::new(1000);
    assert_eq!(s.get(Column::Block, 1), None);
    assert_eq!(s.put(Column::Block, 1, vec![1, 2, 3]), Ok(()));
    assert_eq!(s.put(Column::State, 1, vec![4]), Ok(()));
    assert_eq!(s.get(Column::Block, 1), Some(vec![1, 2, 3]));
    assert_eq!(s.get(Column::State, 1), Some(vec![4]));
    assert!(s.key_exists(Column::Block, 1));
    assert!(!s.key_exists(Column::Block, 2));
    assert_eq!(s.used_bytes(), 4);
    s.delete(Column::Block, 1);
    assert_eq!(s.get(Column::Block, 1), None);
    assert_eq!(s.get(Column::State, 1), Some(vec![4]));
    assert_eq!(s.used_bytes(), 1);
    s.delete(Column::Block, 1);
    assert_eq!(s.used_bytes(), 1);
}

#[test]
fn memory_store_put_replaces() {
    let mut s = MemoryStore::new(1000);
    assert_eq!(s.put(Column::Diff, 9, vec![1; 10]), Ok(()));
    assert_eq!(s.put(Column::Diff, 9, vec![2; 3]), Ok(()));
    assert_eq!(s.get(Column::Diff, 9), Some(vec![2; 3]));
    assert_eq!(s.used_bytes(), 3);
}

#[test]
fn memory_store_keeps_many_keys_in_any_order_of_insertion() {
    let mut s = MemoryStore::new(100_000);
    let keys: Vec<u64> = (0..200u64).map(|i| (i * 7919) % 1009).collect();
    for k in &keys {
        assert_eq!(s.put(Column::Snapshot, *k, vec![(*k % 256) as u8]), Ok(()));
        assert_eq!(s.put(Column::Block, *k, vec![1, (*k % 256) as u8]), Ok(()));
    }
    for k in &keys {
        assert_eq!(s.get(Column::Snapshot, *k), Some(vec![(*k % 256) as u8]));
        assert_eq!(s.get(Column::Block, *k), Some(vec![1, (*k % 256) as u8]));
        assert_eq!(s.get(Column::Diff, *k), None);
    }
}

#[test]
fn memory_store_floor_and_ceiling() {
    let mut s = MemoryStore::new(1000);
    for k in [100u64, 200, 300] {
        assert_eq!(s.put(Column::SnapshotIndex, k, Vec::new()), Ok(()));
    }
    assert_eq!(s.put(Column::Snapshot, 150, vec![1]), Ok(()));
    assert_eq!(s.put(Column::State, 250, vec![1]), Ok(()));
    assert_eq!(s.floor_key(Column::SnapshotIndex, 99), None);
    assert_eq!(s.floor_key(Column::SnapshotIndex, 100), Some(100));
    assert_eq!(s.floor_key(Column::SnapshotIndex, 199), Some(100));
    assert_eq!(s.floor_key(Column::SnapshotIndex, 250), Some(200));
    assert_eq!(s.floor_key(Column::SnapshotIndex, u64::MAX), Some(300));
    assert_eq!(s.ceiling_key(Column::SnapshotIndex, 0), Some(100));
    assert_eq!(s.ceiling_key(Column::SnapshotIndex, 100), Some(100));
    assert_eq!(s.ceiling_key(Column::SnapshotIndex, 101), Some(200));
    assert_eq!(s.ceiling_key(Column::SnapshotIndex, 300), Some(300));
    assert_eq!(s.ceiling_key(Column::SnapshotIndex, 301), None);
    assert_eq!(s.floor_key(Column::Diff, 500), None);
    assert_eq!(s.ceiling_key(Column::Diff, 0), None);
    assert_eq!(s.floor_key(Column::Block, 500), None);
    assert_eq!(s.ceiling_key(Column::StateRoots, 0), None);
}

#[test]
fn memory_store_refuses_writes_beyond_capacity() {
    let mut s = MemoryStore::new(10);
    assert_eq!(s.capacity(), 10);
    assert_eq!(s.put(Column::Block, 1, vec![0; 6]), Ok(()));
    assert_eq!(s.put(Column::Block, 2, vec![0; 5]), Err(StoreError::StorageError));
    assert_eq!(s.get(Column::Block, 2), None);
    assert_eq!(s.used_bytes(), 6);
    // replacing counts the bytes that leave
    assert_eq!(s.put(Column::Block, 1, vec![1; 10]), Ok(()));
    assert_eq!(s.put(Column::Block, 1, vec![1; 11]), Err(StoreError::StorageError));
    assert_eq!(s.get(Column::Block, 1), Some(vec![1; 10]));
}

#[test]
fn memory_store_batch_is_taken_as_a_whole() {
    let mut s = MemoryStore::new(10);
    assert_eq!(s.put(Column::Block, 1, vec![0; 4]), Ok(()));
    let ops = vec![
        KeyValueOp::Put { column: Column::Block, key: 2, value: vec![2; 3] },
        KeyValueOp::Delete { column: Column::Block, key: 1 },
        KeyValueOp::Put { column: Column::State, key: 3, value: vec![3; 7] },
    ];
    assert_eq!(s.write_batch(&ops), Ok(()));
    assert_eq!(s.get(Column::Block, 1), None);
    assert_eq!(s.get(Column::Block, 2), Some(vec![2; 3]));
    assert_eq!(s.get(Column::State, 3), Some(vec![3; 7]));
    assert_eq!(s.used_bytes(), 10);
}

#[test]
fn memory_store_batch_that_is_refused_changes_nothing() {
    let mut s = MemoryStore::new(10);
    assert_eq!(s.put(Column::Block, 1, vec![0; 4]), Ok(()));
    let ops = vec![
        KeyValueOp::Put { column: Column::Block, key: 2, value: vec![2; 3] },
        KeyValueOp::Delete { column: Column::Block, key: 1 },
        KeyValueOp::Put { column: Column::State, key: 3, value: vec![3; 8] },
    ];
    assert_eq!(s.write_batch(&ops), Err(StoreError::StorageError));
    assert_eq!(s.get(Column::Block, 1), Some(vec![0; 4]));
    assert_eq!(s.get(Column::Block, 2), None);
    assert_eq!(s.get(Column::State, 3), None);
    assert_eq!(s.used_bytes(), 4);
}

#[test]
fn column_store_counts_each_operation_once() {
    let mut m = MetricsRegistry::new();
    let mut s = ColumnStore::new(1000);
    assert_eq!(s.put(&mut m, Column::Block, 1, vec![0; 5]), Ok(()));
    assert_eq!(m.column_counter(ColumnCounter::WriteCount, Column::Block), 1);
    assert_eq!(m.column_counter(ColumnCounter::WriteBytes, Column::Block), 5);
    assert_eq!(s.get(&mut m, Column::Block, 1), Some(vec![0; 5]));
    assert_eq!(s.get(&mut m, Column::Block, 2), None);
    assert_eq!(m.column_counter(ColumnCounter::ReadCount, Column::Block), 2);
    assert_eq!(m.column_counter(ColumnCounter::ReadBytes, Column::Block), 5);
    assert!(s.key_exists(&mut m, Column::Block, 1));
    assert_eq!(m.column_counter(ColumnCounter::ExistsCount, Column::Block), 1);
    s.delete(&mut m, Column::Block, 1);
    s.delete(&mut m, Column::Block, 1);
    assert_eq!(m.column_counter(ColumnCounter::DeleteCount, Column::Block), 2);
    // other columns and other kinds are as they were
    assert_eq!(m.column_counter(ColumnCounter::WriteCount, Column::State), 0);
    assert_eq!(m.column_counter(ColumnCounter::ReadCount, Column::State), 0);
    assert_eq!(m.column_counter(ColumnCounter::WriteCount, Column::Block), 1);
    assert_eq!(m.column_counter(ColumnCounter::ExistsCount, Column::Block), 1);
}

#[test]
fn column_store_counts_refused_writes() {
    let mut m = MetricsRegistry::new();
    let mut s = ColumnStore::new(3);
    assert_eq!(s.put(&mut m, Column::Blob, 1, vec![0; 5]), Err(StoreError::StorageError));
    assert_eq!(m.column_counter(ColumnCounter::WriteCount, Column::Blob), 1);
    assert_eq!(m.column_counter(ColumnCounter::WriteBytes, Column::Blob), 5);
    assert_eq!(s.used_bytes(), 0);
}

#[test]
fn column_store_counts_the_writes_of_a_batch() {
    let mut m = MetricsRegistry::new();
    let mut s = ColumnStore::new(100);
    let ops = vec![
        KeyValueOp::Put { column: Column::Snapshot, key: 1, value: vec![1; 4] },
        KeyValueOp::Put { column: Column::SnapshotIndex, key: 1, value: Vec::new() },
        KeyValueOp::Delete { column: Column::Diff, key: 1 },
        KeyValueOp::Put { column: Column::Snapshot, key: 2, value: vec![1; 6] },
    ];
    assert_eq!(s.write_batch(&mut m, &ops), Ok(()));
    assert_eq!(m.column_counter(ColumnCounter::WriteCount, Column::Snapshot), 2);
    assert_eq!(m.column_counter(ColumnCounter::WriteBytes, Column::Snapshot), 10);
    assert_eq!(m.column_counter(ColumnCounter::WriteCount, Column::SnapshotIndex), 1);
    assert_eq!(m.column_counter(ColumnCounter::WriteBytes, Column::SnapshotIndex), 0);
    assert_eq!(m.column_counter(ColumnCounter::DeleteCount, Column::Diff), 1);
    assert_eq!(s.floor_key(Column::Snapshot, 10), Some(2));
    assert_eq!(s.ceiling_key(Column::Snapshot, 2), Some(2));
    assert_eq!(s.capacity(), 100);
}
