use partition_store::errors::{CodecError, ConversionError, StorageError};
use partition_store::identifiers::{InvocationId, ServiceId};
use partition_store::keys::{ServiceStatusKey, TableKey, TableKind};
use partition_store::lex::{bytes_eq, bytes_lt};
use partition_store::owned_iter::OwnedIterator;
use partition_store::service_status_table::{delete_virtual_object_status,
    get_virtual_object_status, put_virtual_object_status, read_row, write_status_key,
    OwnedVirtualObjectStatusRow, ReadOnlyVirtualObjectStatusTable, VirtualObjectStatusTable};
use partition_store::status::VirtualObjectStatus;
use partition_store::storage::{prefix_successor, PhysicalScan, RocksDBStorage, StorageAccess,
    TableScan};
use partition_store::table::OrderedTable;

fn id(partition_key: u64, name: &str, key: &[u8]) -> ServiceId {
    ServiceId::with_partition_key(partition_key, name.to_string(), key.to_vec())
}

fn locked(n: u128) -> VirtualObjectStatus {
    VirtualObjectStatus::Locked(InvocationId::new(1, n))
}

fn row(id: &ServiceId, status: VirtualObjectStatus) -> OwnedVirtualObjectStatusRow {
    OwnedVirtualObjectStatusRow {
        partition_key: id.partition_key(),
        name: id.service_name.clone(),
        key: id.key.clone(),
        status,
    }
}

fn put(storage: &mut RocksDBStorage, id: &ServiceId, status: VirtualObjectStatus) {
    let mut transaction = storage.transaction();
    transaction.put_virtual_object_status(id, status);
    storage.commit(transaction);
}

#[test]
fn lock_then_unlock() {
    let mut storage = RocksDBStorage::new();
    let id = id(5, "svc", &[1, 2]);
    let info = VirtualObjectStatus::Locked(InvocationId::new(5, 42));
    put(&mut storage, &id, info);
    assert_eq!(storage.get_virtual_object_status(&id), Ok(info));
    assert_eq!(storage.all_virtual_object_status(5..=5), Ok(vec![row(&id, info)]));
    put(&mut storage, &id, VirtualObjectStatus::Unlocked);
    assert_eq!(storage.all_virtual_object_status(5..=5), Ok(vec![]));
    assert_eq!(storage.get_virtual_object_status(&id), Ok(VirtualObjectStatus::Unlocked));
}

#[test]
fn scan_of_one_partition_leaves_out_the_other() {
    let mut storage = RocksDBStorage::new();
    let one = id(1, "svc", &[1]);
    let two = id(2, "svc", &[2]);
    put(&mut storage, &one, locked(1));
    put(&mut storage, &two, locked(2));
    assert_eq!(storage.all_virtual_object_status(1..=1), Ok(vec![row(&one, locked(1))]));
    assert_eq!(storage.all_virtual_object_status(2..=2), Ok(vec![row(&two, locked(2))]));
    assert_eq!(
        storage.all_virtual_object_status(1..=2),
        Ok(vec![row(&one, locked(1)), row(&two, locked(2))])
    );
    assert_eq!(storage.all_virtual_object_status(3..=u64::MAX), Ok(vec![]));
}

#[test]
fn corrupt_value_is_a_decode_error() {
    let mut storage = RocksDBStorage::new();
    let id = id(5, "svc", &[1, 2]);
    let key = write_status_key(&id).serialize();
    storage.put_cf(TableKind::ServiceStatus, &key, &[0xFF]);
    assert_eq!(
        storage.get_virtual_object_status(&id),
        Err(StorageError::Generic(CodecError::InvalidVarint))
    );
    assert_eq!(
        storage.all_virtual_object_status(5..=5),
        Err(StorageError::Generic(CodecError::InvalidVarint))
    );
    assert_eq!(
        storage.all_virtual_object_status(0..=u64::MAX),
        Err(StorageError::Generic(CodecError::InvalidVarint))
    );
    assert_eq!(storage.all_virtual_object_status(6..=9), Ok(vec![]));
}

#[test]
fn value_of_an_unknown_state_is_a_conversion_error() {
    let mut storage = RocksDBStorage::new();
    let id = id(5, "svc", &[1, 2]);
    let key = write_status_key(&id).serialize();
    storage.put_cf(TableKind::ServiceStatus, &key, &[]);
    assert_eq!(
        storage.get_virtual_object_status(&id),
        Err(StorageError::Conversion(ConversionError::MissingField))
    );
    assert_eq!(
        storage.all_virtual_object_status(5..=5),
        Err(StorageError::Conversion(ConversionError::MissingField))
    );
}

#[test]
fn scan_stops_at_the_first_row_that_cannot_be_read() {
    let mut storage = RocksDBStorage::new();
    put(&mut storage, &id(1, "a", &[]), locked(1));
    let corrupt_key = vec![0, 0, 0, 0, 0, 0, 0, 2, 0x80];
    storage.put_cf(TableKind::ServiceStatus, &corrupt_key, &[0xFF]);
    let short_key = vec![0, 0, 0, 0, 0, 0, 0, 3];
    let value = partition_store::wire::encode_status(locked(3));
    storage.put_cf(TableKind::ServiceStatus, &short_key, &value);
    assert_eq!(
        storage.all_virtual_object_status(0..=9),
        Err(StorageError::Generic(CodecError::InvalidVarint))
    );
    assert_eq!(
        storage.all_virtual_object_status(3..=3),
        Err(StorageError::DataIntegrityError)
    );
    assert_eq!(
        storage.all_virtual_object_status(0..=1),
        Ok(vec![row(&id(1, "a", &[]), locked(1))])
    );
}

#[test]
fn rows_are_read_from_key_and_value() {
    let id = id(7, "svc", &[9]);
    let key = write_status_key(&id).serialize();
    let value = partition_store::wire::encode_status(locked(4));
    assert_eq!(read_row(&key, &value), Ok(row(&id, locked(4))));
    assert_eq!(read_row(&key[..8], &value), Err(StorageError::DataIntegrityError));
    assert_eq!(
        read_row(&key[..3], &value),
        Err(StorageError::Generic(CodecError::BufferUnderflow))
    );
    assert_eq!(
        read_row(&key, &[]),
        Err(StorageError::Conversion(ConversionError::MissingField))
    );
}

#[test]
fn put_replaces_what_was_there() {
    let mut storage = RocksDBStorage::new();
    let id = id(5, "svc", &[1, 2]);
    put_virtual_object_status(&mut storage, &id, locked(1));
    put_virtual_object_status(&mut storage, &id, locked(2));
    assert_eq!(get_virtual_object_status(&mut storage, &id), Ok(locked(2)));
    assert_eq!(storage.all_virtual_object_status(0..=u64::MAX), Ok(vec![row(&id, locked(2))]));
}

#[test]
fn delete_of_an_absent_row_changes_nothing() {
    let mut storage = RocksDBStorage::new();
    let here = id(5, "svc", &[1, 2]);
    let absent = id(5, "svc", &[1, 3]);
    put_virtual_object_status(&mut storage, &here, locked(1));
    delete_virtual_object_status(&mut storage, &absent);
    assert_eq!(get_virtual_object_status(&mut storage, &absent), Ok(VirtualObjectStatus::Unlocked));
    assert_eq!(storage.all_virtual_object_status(0..=u64::MAX), Ok(vec![row(&here, locked(1))]));
    delete_virtual_object_status(&mut storage, &here);
    delete_virtual_object_status(&mut storage, &here);
    assert_eq!(get_virtual_object_status(&mut storage, &here), Ok(VirtualObjectStatus::Unlocked));
    assert_eq!(storage.all_virtual_object_status(0..=u64::MAX), Ok(vec![]));
}

#[test]
fn rows_of_one_partition_come_in_the_order_of_their_encoded_fields() {
    let mut storage = RocksDBStorage::new();
    let ids = [
        id(3, "b", &[9]),
        id(3, "ab", &[0]),
        id(3, "b", &[1, 0]),
        id(3, "b", &[]),
        id(3, "a", &[5]),
        id(2, "zzz", &[1]),
        id(4, "", &[]),
    ];
    for (n, id) in ids.iter().enumerate() {
        put_virtual_object_status(&mut storage, id, locked(n as u128));
    }
    let rows = storage.all_virtual_object_status(3..=3).unwrap();
    let names: Vec<(String, Vec<u8>)> = rows.iter().map(|r| (r.name.clone(), r.key.clone())).collect();
    assert_eq!(
        names,
        vec![
            ("a".to_string(), vec![5]),
            ("b".to_string(), vec![]),
            ("b".to_string(), vec![9]),
            ("b".to_string(), vec![1, 0]),
            ("ab".to_string(), vec![0]),
        ]
    );
    assert!(rows.iter().all(|r| r.partition_key == 3));
    let all = storage.all_virtual_object_status(0..=u64::MAX).unwrap();
    let partitions: Vec<u64> = all.iter().map(|r| r.partition_key).collect();
    assert_eq!(partitions, vec![2, 3, 3, 3, 3, 3, 4]);
}

#[test]
fn partition_keys_are_ordered_as_numbers() {
    let mut storage = RocksDBStorage::new();
    for partition_key in [256u64, 1, u64::MAX, 255, 0, 1 << 40] {
        put_virtual_object_status(&mut storage, &id(partition_key, "s", &[1]), locked(1));
    }
    let all = storage.all_virtual_object_status(0..=u64::MAX).unwrap();
    let partitions: Vec<u64> = all.iter().map(|r| r.partition_key).collect();
    assert_eq!(partitions, vec![0, 1, 255, 256, 1 << 40, u64::MAX]);
    let some = storage.all_virtual_object_status(255..=256).unwrap();
    assert_eq!(some.iter().map(|r| r.partition_key).collect::<Vec<u64>>(), vec![255, 256]);
    let last = storage.all_virtual_object_status(u64::MAX..=u64::MAX).unwrap();
    assert_eq!(last.len(), 1);
    let none = storage.all_virtual_object_status(9..=3).unwrap();
    assert!(none.is_empty());
}

#[test]
fn tables_do_not_share_keys() {
    let mut storage = RocksDBStorage::new();
    let id = id(5, "svc", &[1, 2]);
    let key = write_status_key(&id).serialize();
    storage.put_cf(TableKind::State, &key, &[1]);
    storage.put_cf(TableKind::Timers, &key, &[2]);
    assert_eq!(storage.get(TableKind::ServiceStatus, &key), None);
    assert_eq!(storage.get_virtual_object_status(&id), Ok(VirtualObjectStatus::Unlocked));
    assert_eq!(storage.all_virtual_object_status(0..=u64::MAX), Ok(vec![]));
    put_virtual_object_status(&mut storage, &id, locked(1));
    assert_eq!(storage.get(TableKind::State, &key), Some(vec![1]));
    assert_eq!(storage.get(TableKind::Timers, &key), Some(vec![2]));
    storage.delete_cf(TableKind::State, &key);
    assert_eq!(storage.get(TableKind::State, &key), None);
    assert_eq!(storage.get_virtual_object_status(&id), Ok(locked(1)));
}

#[test]
fn transaction_sees_its_own_writes_and_the_store_sees_them_after_commit() {
    let mut storage = RocksDBStorage::new();
    let a = id(1, "svc", &[1]);
    let b = id(1, "svc", &[2]);
    put(&mut storage, &a, locked(1));
    let mut transaction = storage.transaction();
    transaction.put_virtual_object_status(&b, locked(2));
    transaction.delete_virtual_object_status(&a);
    assert_eq!(transaction.get_virtual_object_status(&b), Ok(locked(2)));
    assert_eq!(transaction.get_virtual_object_status(&a), Ok(VirtualObjectStatus::Unlocked));
    assert_eq!(storage.get_virtual_object_status(&a), Ok(locked(1)));
    assert_eq!(storage.get_virtual_object_status(&b), Ok(VirtualObjectStatus::Unlocked));
    storage.commit(transaction);
    assert_eq!(storage.get_virtual_object_status(&a), Ok(VirtualObjectStatus::Unlocked));
    assert_eq!(storage.get_virtual_object_status(&b), Ok(locked(2)));
}

#[test]
fn transaction_that_is_dropped_leaves_the_store_as_it_was() {
    let mut storage = RocksDBStorage::new();
    let a = id(1, "svc", &[1]);
    put(&mut storage, &a, locked(1));
    {
        let mut transaction = storage.transaction();
        transaction.put_virtual_object_status(&a, locked(9));
        transaction.put_virtual_object_status(&id(2, "x", &[]), locked(3));
    }
    assert_eq!(storage.all_virtual_object_status(0..=u64::MAX), Ok(vec![row(&a, locked(1))]));
}

#[test]
fn get_blocking_hands_the_decoder_the_stored_bytes() {
    let mut storage = RocksDBStorage::new();
    let id = id(5, "svc", &[1, 2]);
    let key_bytes = write_status_key(&id).serialize();
    let seen = storage.get_blocking(write_status_key(&id), |key: &[u8], value: Option<&[u8]>| {
        Ok((key.to_vec(), value.map(|v| v.to_vec())))
    });
    assert_eq!(seen, Ok((key_bytes.clone(), None)));
    storage.put_kv(write_status_key(&id), &[4, 5]);
    let seen = storage.get_blocking(write_status_key(&id), |key: &[u8], value: Option<&[u8]>| {
        Ok((key.to_vec(), value.map(|v| v.to_vec())))
    });
    assert_eq!(seen, Ok((key_bytes, Some(vec![4, 5]))));
    let failed: Result<(), StorageError> = storage
        .get_blocking(write_status_key(&id), |_: &[u8], _: Option<&[u8]>| {
            Err(StorageError::DataIntegrityError)
        });
    assert_eq!(failed, Err(StorageError::DataIntegrityError));
    storage.delete_key(&write_status_key(&id));
    assert_eq!(storage.get(TableKind::ServiceStatus, &write_status_key(&id).serialize()), None);
}

#[test]
fn owned_rows_outlive_the_steps_of_the_scan() {
    let mut storage = RocksDBStorage::new();
    put_virtual_object_status(&mut storage, &id(1, "a", &[1]), locked(1));
    put_virtual_object_status(&mut storage, &id(1, "a", &[2]), locked(2));
    put_virtual_object_status(&mut storage, &id(2, "a", &[3]), locked(3));
    let iter = storage.iterator_from(TableScan::<ServiceStatusKey>::PartitionKeyRange(1..=1));
    let mut owned = OwnedIterator::new(iter);
    let first = owned.next().unwrap();
    let second = owned.next().unwrap();
    assert!(owned.next().is_none());
    assert!(owned.next().is_none());
    assert_eq!(first.0, write_status_key(&id(1, "a", &[1])).serialize());
    assert_eq!(second.0, write_status_key(&id(1, "a", &[2])).serialize());
    assert_eq!(first.1, partition_store::wire::encode_status(locked(1)));
}

#[test]
fn borrowed_iterator_shows_one_row_at_a_time() {
    let mut storage = RocksDBStorage::new();
    put_virtual_object_status(&mut storage, &id(1, "a", &[1]), locked(1));
    put_virtual_object_status(&mut storage, &id(1, "b", &[2]), locked(2));
    let prefix = ServiceStatusKey::default().partition_key(1).service_name("b".to_string());
    let mut iter = storage.iterator_from(TableScan::KeyPrefix(prefix));
    let (key, value) = iter.item().unwrap();
    assert_eq!(key, write_status_key(&id(1, "b", &[2])).serialize().as_slice());
    assert_eq!(value, partition_store::wire::encode_status(locked(2)).as_slice());
    iter.next();
    assert!(iter.item().is_none());
    iter.next();
    assert!(iter.item().is_none());
}

#[test]
fn scans_are_bounded_by_the_bytes_of_their_keys() {
    match TableScan::<ServiceStatusKey>::PartitionKeyRange(3..=7).into_physical() {
        PhysicalScan::RangeExclusive(table, start, end) => {
            assert_eq!(table, TableKind::ServiceStatus);
            assert_eq!(start, vec![0, 0, 0, 0, 0, 0, 0, 3]);
            assert_eq!(end, vec![0, 0, 0, 0, 0, 0, 0, 8]);
        }
        PhysicalScan::RangeOpen(..) => panic!("a bounded range has an end"),
    }
    match TableScan::<ServiceStatusKey>::PartitionKeyRange(3..=u64::MAX).into_physical() {
        PhysicalScan::RangeOpen(table, start) => {
            assert_eq!(table, TableKind::ServiceStatus);
            assert_eq!(start, vec![0, 0, 0, 0, 0, 0, 0, 3]);
        }
        PhysicalScan::RangeExclusive(..) => panic!("nothing lies behind the last partition"),
    }
    let prefix = ServiceStatusKey::default().partition_key(1).service_name("b".to_string());
    match TableScan::KeyPrefix(prefix).into_physical() {
        PhysicalScan::RangeExclusive(table, start, end) => {
            assert_eq!(table, TableKind::ServiceStatus);
            assert_eq!(start, vec![0, 0, 0, 0, 0, 0, 0, 1, 1, b'b']);
            assert_eq!(end, vec![0, 0, 0, 0, 0, 0, 0, 1, 1, b'c']);
        }
        PhysicalScan::RangeOpen(..) => panic!("this prefix has keys behind it"),
    }
    assert_eq!(prefix_successor(&[1, 0xFF]), Some(vec![2]));
    assert_eq!(prefix_successor(&[1, 2]), Some(vec![1, 3]));
    assert_eq!(prefix_successor(&[0xFF, 0xFF]), None);
    assert_eq!(prefix_successor(&[]), None);
}

#[test]
fn prefix_scan_covers_the_keys_that_begin_with_the_prefix() {
    let mut storage = RocksDBStorage::new();
    let ids = [id(1, "a", &[1]), id(1, "b", &[]), id(1, "b", &[0xFF]), id(1, "c", &[2]), id(2, "b", &[3])];
    for id in ids.iter() {
        put_virtual_object_status(&mut storage, id, locked(1));
    }
    let keys_under = |prefix: ServiceStatusKey| -> Vec<Vec<u8>> {
        let mut owned = OwnedIterator::new(storage.iterator_from(TableScan::KeyPrefix(prefix)));
        let mut keys = Vec::new();
        while let Some((key, _)) = owned.next() {
            keys.push(key);
        }
        keys
    };
    let key_of = |id: &ServiceId| write_status_key(id).serialize();
    assert_eq!(
        keys_under(ServiceStatusKey::default().partition_key(1).service_name("b".to_string())),
        vec![key_of(&ids[1]), key_of(&ids[2])]
    );
    assert_eq!(
        keys_under(ServiceStatusKey::default().partition_key(1)),
        vec![key_of(&ids[0]), key_of(&ids[1]), key_of(&ids[2]), key_of(&ids[3])]
    );
    assert_eq!(keys_under(ServiceStatusKey::default()).len(), 5);
    assert_eq!(keys_under(write_status_key(&ids[4])), vec![key_of(&ids[4])]);
    assert!(keys_under(ServiceStatusKey::default().partition_key(3)).is_empty());
}

#[test]
fn byte_strings_are_ordered_byte_by_byte() {
    assert!(bytes_lt(&[], &[0]));
    assert!(!bytes_lt(&[], &[]));
    assert!(bytes_lt(&[1, 2], &[1, 3]));
    assert!(bytes_lt(&[1, 2], &[1, 2, 0]));
    assert!(!bytes_lt(&[1, 2, 0], &[1, 2]));
    assert!(bytes_lt(&[1, 0xFF], &[2]));
    assert!(!bytes_lt(&[2], &[1, 0xFF]));
    assert!(bytes_eq(&[1, 2], &[1, 2]));
    assert!(!bytes_eq(&[1, 2], &[1, 2, 3]));
    assert!(!bytes_eq(&[1, 2], &[1, 3]));
}

#[test]
fn ordered_table_keeps_one_row_to_a_key() {
    let mut table = OrderedTable::new();
    assert_eq!(table.len(), 0);
    table.put(vec![2], vec![20]);
    table.put(vec![1], vec![10]);
    table.put(vec![3], vec![30]);
    table.put(vec![2], vec![21]);
    assert_eq!(table.len(), 3);
    assert_eq!(table.get(&[2]), Some(vec![21]));
    assert_eq!(table.get(&[4]), None);
    table.delete(&[4]);
    assert_eq!(table.len(), 3);
    table.delete(&[1]);
    assert_eq!(table.get(&[1]), None);
    assert_eq!(table.len(), 2);
    let copy = table.snapshot();
    table.delete(&[2]);
    assert_eq!(copy.get(&[2]), Some(vec![21]));
    let mut cursor = copy.seek(&[2], Some(&[3]));
    assert!(cursor.valid());
    assert_eq!(cursor.key(), &[2]);
    assert_eq!(cursor.value(), &[21]);
    cursor.next();
    assert!(!cursor.valid());
    let cursor = copy.seek(&[5], Some(&[1]));
    assert!(!cursor.valid());
}
