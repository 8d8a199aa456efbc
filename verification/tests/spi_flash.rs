use flash_kv::device::FlashDevice;
use flash_kv::spi_flash::{
    askIfKeyExists, erasePartitionByName, initPartitionByName, readBlobFromKey, writeBlobToKey,
};
use flash_kv::store::FlashStore;
use flash_kv::table::{Partition, PartitionTable};

const TEST_PARTITION: &str = "factory\0";
const TEST_NAMESPACE: &str = "rustns\0";
const TEST_BLOB_1: &str = "rust_blob_1";
const TEST_BLOB_2: &str = "rust_blob_2";

/// A device of sixteen units of 256 bytes with the partitions `factory`
/// (eight units) and `user` (four units).
fn fresh_store() -> FlashStore {
    let mut dev = FlashDevice::new(16, 256).unwrap();
    let parts = vec![
        Partition { name: b"factory".to_vec(), kind: 1, subkind: 0, offset: 256, size: 2048 },
        Partition { name: b"user".to_vec(), kind: 1, subkind: 1, offset: 2304, size: 1024 },
    ];
    PartitionTable::install(&mut dev, &parts).unwrap();
    FlashStore::open(dev).unwrap()
}

#[test]
fn test_init_partition() {
    let mut store = fresh_store();
    assert_eq!(0, initPartitionByName(&mut store, TEST_PARTITION));
}

#[test]
fn test_erase_partition() {
    let mut store = fresh_store();
    assert_eq!(0, erasePartitionByName(&mut store, TEST_PARTITION));
}

#[test]
fn test_read_key_does_not_exist() {
    let mut store = fresh_store();
    assert_eq!(0, initPartitionByName(&mut store, TEST_PARTITION));
    let key_size = askIfKeyExists(&store, TEST_PARTITION, TEST_NAMESPACE, TEST_BLOB_1);
    assert_eq!(0, key_size);
    let output_vec = readBlobFromKey(&store, TEST_PARTITION, TEST_NAMESPACE, TEST_BLOB_1, key_size);

    let mut line = format!("TEST LOG: Vector output is ");
    for x in output_vec.iter() {
        line = format!("{}{} ", line, x);
    }
    println!("{}", line);
    assert_eq!(0, output_vec.len());
}

#[test]
fn test_write_new_key() {
    let mut store = fresh_store();
    assert_eq!(0, initPartitionByName(&mut store, TEST_PARTITION));
    let data = vec![10u8, 20, 30, 40];
    assert_eq!(0, writeBlobToKey(&mut store, TEST_PARTITION, TEST_NAMESPACE, TEST_BLOB_1, data, 4));
    assert_eq!(4, askIfKeyExists(&store, TEST_PARTITION, TEST_NAMESPACE, TEST_BLOB_1));
    assert_eq!(0, askIfKeyExists(&store, TEST_PARTITION, TEST_NAMESPACE, TEST_BLOB_2));
}

#[test]
fn test_read_key_does_exist() {
    let mut store = fresh_store();
    assert_eq!(0, initPartitionByName(&mut store, TEST_PARTITION));
    let data = vec![10u8, 20, 30, 40];
    assert_eq!(0, writeBlobToKey(&mut store, TEST_PARTITION, TEST_NAMESPACE, TEST_BLOB_1, data, 4));
    let size = askIfKeyExists(&store, TEST_PARTITION, TEST_NAMESPACE, TEST_BLOB_1);
    let read = readBlobFromKey(&store, TEST_PARTITION, TEST_NAMESPACE, TEST_BLOB_1, size);
    assert_eq!(vec![10u8, 20, 30, 40], read);
}

#[test]
fn test_read_write_key_does_exist() {
    let mut store = fresh_store();
    assert_eq!(0, initPartitionByName(&mut store, TEST_PARTITION));
    let first = vec![1u8, 2, 3];
    let second = vec![9u8, 8, 7, 6, 5];
    assert_eq!(0, writeBlobToKey(&mut store, TEST_PARTITION, TEST_NAMESPACE, TEST_BLOB_1, first, 3));
    assert_eq!(0, writeBlobToKey(&mut store, TEST_PARTITION, TEST_NAMESPACE, TEST_BLOB_1, second, 5));
    assert_eq!(5, askIfKeyExists(&store, TEST_PARTITION, TEST_NAMESPACE, TEST_BLOB_1));
    assert_eq!(
        vec![9u8, 8, 7, 6, 5],
        readBlobFromKey(&store, TEST_PARTITION, TEST_NAMESPACE, TEST_BLOB_1, 5)
    );
    // The size of the first value no longer reads anything.
    assert_eq!(0, readBlobFromKey(&store, TEST_PARTITION, TEST_NAMESPACE, TEST_BLOB_1, 3).len());
}

#[test]
fn test_read_write_multiple_keys() {
    let mut store = fresh_store();
    assert_eq!(0, initPartitionByName(&mut store, TEST_PARTITION));
    assert_eq!(
        0,
        writeBlobToKey(&mut store, TEST_PARTITION, TEST_NAMESPACE, TEST_BLOB_1, vec![1u8, 1], 2)
    );
    assert_eq!(
        0,
        writeBlobToKey(&mut store, TEST_PARTITION, TEST_NAMESPACE, TEST_BLOB_2, vec![2u8, 2, 2], 3)
    );
    assert_eq!(
        0,
        writeBlobToKey(&mut store, TEST_PARTITION, "other", TEST_BLOB_1, vec![3u8], 1)
    );
    assert_eq!(2, askIfKeyExists(&store, TEST_PARTITION, TEST_NAMESPACE, TEST_BLOB_1));
    assert_eq!(3, askIfKeyExists(&store, TEST_PARTITION, TEST_NAMESPACE, TEST_BLOB_2));
    assert_eq!(1, askIfKeyExists(&store, TEST_PARTITION, "other", TEST_BLOB_1));
    assert_eq!(vec![1u8, 1], readBlobFromKey(&store, TEST_PARTITION, TEST_NAMESPACE, TEST_BLOB_1, 2));
    assert_eq!(
        vec![2u8, 2, 2],
        readBlobFromKey(&store, TEST_PARTITION, TEST_NAMESPACE, TEST_BLOB_2, 3)
    );
    assert_eq!(vec![3u8], readBlobFromKey(&store, TEST_PARTITION, "other", TEST_BLOB_1, 1));
}

#[test]
fn test_factory_scenario() {
    let mut store = fresh_store();
    assert_eq!(0, initPartitionByName(&mut store, "factory"));
    assert_eq!(0, askIfKeyExists(&store, "factory", "ns", "k1"));
    assert_eq!(
        Err(flash_kv::error::StoreError::KeyNotFound),
        store.read("factory", "ns", "k1", 0)
    );
    assert_eq!(0, writeBlobToKey(&mut store, "factory", "ns", "k1", vec![1, 2, 3], 3));
    assert_eq!(3, askIfKeyExists(&store, "factory", "ns", "k1"));
    assert_eq!(vec![1u8, 2, 3], readBlobFromKey(&store, "factory", "ns", "k1", 3));
    assert_eq!(0, erasePartitionByName(&mut store, "factory"));
    assert_eq!(0, askIfKeyExists(&store, "factory", "ns", "k1"));
}

#[test]
fn test_status_codes() {
    let mut store = fresh_store();
    // Unknown partition, and a known one that is not initialised.
    assert_eq!(1, initPartitionByName(&mut store, "nowhere"));
    assert_eq!(1, erasePartitionByName(&mut store, "nowhere"));
    assert_eq!(1, writeBlobToKey(&mut store, "factory", "ns", "k", vec![1], 1));
    assert_eq!(0, initPartitionByName(&mut store, "factory"));
    // Fewer bytes than the size says.
    assert_eq!(4, writeBlobToKey(&mut store, "factory", "ns", "k", vec![1, 2], 3));
    assert_eq!(0, askIfKeyExists(&store, "factory", "ns", "k"));
    // Only the first `size` bytes are stored.
    assert_eq!(0, writeBlobToKey(&mut store, "factory", "ns", "k", vec![1, 2, 3], 2));
    assert_eq!(vec![1u8, 2], readBlobFromKey(&store, "factory", "ns", "k", 2));
    // A record that the partition has no room for.
    assert_eq!(5, writeBlobToKey(&mut store, "factory", "ns", "big", vec![0; 1024], 1024));
    // A device that faults.
    store.fail_after(0);
    assert_eq!(6, writeBlobToKey(&mut store, "factory", "ns", "k", vec![7], 1));
    assert_eq!(6, erasePartitionByName(&mut store, "factory"));
    assert_eq!(0, flash_kv::error::STATUS_OK);
    assert_eq!(1, flash_kv::error::StoreError::PartitionNotFound.code());
    assert_eq!(2, flash_kv::error::StoreError::TableCorrupt.code());
    assert_eq!(3, flash_kv::error::StoreError::KeyNotFound.code());
    assert_eq!(4, flash_kv::error::StoreError::SizeMismatch.code());
    assert_eq!(5, flash_kv::error::StoreError::PartitionFull.code());
    assert_eq!(6, flash_kv::error::StoreError::IoError.code());
    assert_eq!(7, flash_kv::error::StoreError::Corrupt.code());
}

#[test]
fn test_names_end_at_nul() {
    let mut store = fresh_store();
    assert_eq!(0, initPartitionByName(&mut store, "factory\0ignored"));
    assert_eq!(0, writeBlobToKey(&mut store, "factory", "ns\0x", "key\0y", vec![5, 6], 2));
    assert_eq!(2, askIfKeyExists(&store, "factory\0", "ns", "key"));
    assert_eq!(2, askIfKeyExists(&store, "factory", "ns\0x", "key\0y2"));
    assert_eq!(0, askIfKeyExists(&store, "Factory", "ns", "key"));
    assert_eq!(0, askIfKeyExists(&store, "factory", "NS", "key"));
    assert_eq!(vec![b'a', b'b'], flash_kv::names::name_of(b"ab\0cd"));
    assert_eq!(vec![b'a', b'b'], flash_kv::names::name_of_str("ab"));
    assert_eq!(0, flash_kv::names::name_of(b"\0ab").len());
}
