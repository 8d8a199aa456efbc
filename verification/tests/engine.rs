use flash_kv::codec::{digest_more, get_le32, push_le32};
use flash_kv::device::{DeviceError, FlashDevice};
use flash_kv::error::StoreError;
use flash_kv::log::RecordLog;
use flash_kv::store::FlashStore;
use flash_kv::table::{Partition, PartitionTable};

fn two_partitions() -> Vec<Partition> {
    vec![
        Partition { name: b"factory".to_vec(), kind: 1, subkind: 0, offset: 256, size: 2048 },
        Partition { name: b"user".to_vec(), kind: 1, subkind: 1, offset: 2304, size: 1024 },
    ]
}

fn blank_device() -> FlashDevice {
    let mut dev = FlashDevice::new(16, 256).unwrap();
    PartitionTable::install(&mut dev, &two_partitions()).unwrap();
    dev
}

fn ready_store() -> FlashStore {
    let mut store = FlashStore::open(blank_device()).unwrap();
    store.init_partition("factory").unwrap();
    store.init_partition("user").unwrap();
    store
}

/// Cuts the power: the store is given up for its device, the device no
/// longer faults, and a new store is opened on it.
fn power_cycle(store: FlashStore) -> FlashStore {
    let mut dev = store.into_device();
    dev.restore();
    FlashStore::open(dev).unwrap()
}

#[test]
fn device_starts_erased() {
    let dev = FlashDevice::new(4, 64).unwrap();
    assert_eq!(64, dev.unit_size());
    assert_eq!(256, dev.size());
    assert_eq!(vec![0xFFu8; 256], dev.read(0, 256).unwrap());
    assert!(FlashDevice::new(4, 0).is_none());
    assert!(FlashDevice::new(usize::MAX, 2).is_none());
    assert!(FlashDevice::from_image(vec![0; 100], 64).is_none());
    assert!(FlashDevice::from_image(vec![0; 128], 0).is_none());
    assert_eq!(vec![1u8, 2], FlashDevice::from_image(vec![1, 2], 2).unwrap().into_image());
}

#[test]
fn device_writes_reads_and_erases() {
    let mut dev = FlashDevice::new(4, 64).unwrap();
    assert_eq!(Ok(()), dev.write(60, &[1, 2, 3, 4, 5, 6]));
    assert_eq!(vec![0xFFu8, 1, 2, 3, 4, 5, 6, 0xFF], dev.read(59, 8).unwrap());
    assert_eq!(Ok(()), dev.erase(1));
    assert_eq!(vec![0xFFu8, 1, 2, 3, 4, 0xFF, 0xFF, 0xFF], dev.read(59, 8).unwrap());
    assert_eq!(Ok(()), dev.erase(0));
    assert_eq!(vec![0xFFu8; 256], dev.read(0, 256).unwrap());
    assert_eq!(Vec::<u8>::new(), dev.read(256, 0).unwrap());
}

#[test]
fn device_refuses_what_is_out_of_range() {
    let mut dev = FlashDevice::new(4, 64).unwrap();
    assert_eq!(Err(DeviceError::OutOfRange), dev.read(250, 7));
    assert_eq!(Err(DeviceError::OutOfRange), dev.read(257, 0));
    assert_eq!(Err(DeviceError::OutOfRange), dev.read(usize::MAX, 2));
    assert_eq!(Err(DeviceError::OutOfRange), dev.write(255, &[1, 2]));
    assert_eq!(Err(DeviceError::OutOfRange), dev.erase(4));
    assert_eq!(vec![0xFFu8; 256], dev.read(0, 256).unwrap());
}

#[test]
fn device_faults_after_its_budget() {
    let mut dev = FlashDevice::new(4, 64).unwrap();
    dev.fail_after(2);
    assert_eq!(Ok(()), dev.write(0, &[1]));
    assert_eq!(Ok(()), dev.erase(1));
    assert_eq!(Err(DeviceError::IoError), dev.write(1, &[2]));
    assert_eq!(Err(DeviceError::IoError), dev.erase(0));
    // A fault leaves the cells, and reading goes on.
    assert_eq!(vec![1u8, 0xFF], dev.read(0, 2).unwrap());
    // An operation out of range is refused before the device is asked.
    assert_eq!(Err(DeviceError::OutOfRange), dev.erase(9));
    dev.restore();
    assert_eq!(Ok(()), dev.write(1, &[2]));
    assert_eq!(vec![1u8, 2], dev.read(0, 2).unwrap());
}

#[test]
fn digest_and_numbers_are_exact() {
    assert_eq!(7, digest_more(7, &[]));
    assert_eq!(219, digest_more(7, &[1]));
    assert_eq!(6792, digest_more(7, &[1, 2]));
    assert_eq!(6792, digest_more(digest_more(7, &[1]), &[2]));
    assert_eq!(2465644593, digest_more(7, &[b'n', b's', b'k', b'1', 1, 2, 3]));
    let mut buf = vec![9u8];
    push_le32(&mut buf, 0x0403_0201);
    push_le32(&mut buf, 0xFFFF_FFFF);
    assert_eq!(vec![9u8, 1, 2, 3, 4, 0xFF, 0xFF, 0xFF, 0xFF], buf);
    assert_eq!(0x0403_0201, get_le32(&buf, 1));
    assert_eq!(0xFF04_0302, get_le32(&buf, 2));
    assert_eq!(0xFFFF_FFFF, get_le32(&buf, 5));
}

#[test]
fn table_lies_in_the_first_unit() {
    let image = blank_device().into_image();
    let mut expected = vec![0x46u8, 0x4B, 0x56, 0x54, 2, 157, 254, 232, 156];
    expected.extend_from_slice(&[1, 0, 0, 1, 0, 0, 0, 8, 0, 0]);
    expected.extend_from_slice(b"factory\0\0\0\0\0\0\0\0\0");
    expected.extend_from_slice(&[1, 1, 0, 9, 0, 0, 0, 4, 0, 0]);
    expected.extend_from_slice(b"user\0\0\0\0\0\0\0\0\0\0\0\0");
    assert_eq!(expected, image[..61].to_vec());
    assert_eq!(vec![0xFFu8; 4096 - 61], image[61..].to_vec());
}

#[test]
fn table_loads_and_finds() {
    let dev = blank_device();
    let table = PartitionTable::load(&dev).unwrap();
    assert_eq!(2, table.len());
    assert_eq!(Some(0), table.find(b"factory"));
    assert_eq!(Some(1), table.find(b"user"));
    assert_eq!(None, table.find(b"Factory"));
    assert_eq!(None, table.find(b"factor"));
    assert_eq!(None, table.find(b"factory\0"));
    assert_eq!(None, table.find(b""));
    let user = table.get(1);
    assert_eq!(b"user".to_vec(), user.name);
    assert_eq!((1, 1, 2304, 1024), (user.kind, user.subkind, user.offset, user.size));
}

#[test]
fn table_with_a_wrong_byte_is_corrupt() {
    for at in [0usize, 3, 4, 5, 8, 9, 11, 19, 30, 60] {
        let mut image = blank_device().into_image();
        image[at] ^= 0x01;
        let dev = FlashDevice::from_image(image, 256).unwrap();
        assert_eq!(
            Some(StoreError::TableCorrupt),
            PartitionTable::load(&dev).err(),
            "byte {}",
            at
        );
        assert_eq!(Some(StoreError::TableCorrupt), FlashStore::open(dev).err());
    }
    let erased = FlashDevice::new(16, 256).unwrap();
    assert_eq!(Some(StoreError::TableCorrupt), FlashStore::open(erased).err());
    let tiny = FlashDevice::new(16, 8).unwrap();
    assert_eq!(Some(StoreError::TableCorrupt), FlashStore::open(tiny).err());
}

#[test]
fn table_refuses_partitions_that_are_not_valid() {
    let good = Partition { name: b"a".to_vec(), kind: 0, subkind: 0, offset: 256, size: 512 };
    let cases: Vec<Vec<Partition>> = vec![
        // No name, a name too long, a NUL in the name.
        vec![Partition { name: vec![], ..copy_of(&good) }],
        vec![Partition { name: vec![b'x'; 17], ..copy_of(&good) }],
        vec![Partition { name: b"a\0b".to_vec(), ..copy_of(&good) }],
        // In the table's unit, off a unit, an odd number of units, one unit, beyond the end.
        vec![Partition { offset: 0, ..copy_of(&good) }],
        vec![Partition { offset: 300, ..copy_of(&good) }],
        vec![Partition { size: 768, ..copy_of(&good) }],
        vec![Partition { size: 256, ..copy_of(&good) }],
        vec![Partition { size: 0, ..copy_of(&good) }],
        vec![Partition { offset: 3840, ..copy_of(&good) }],
        // Two of one name, two that share cells.
        vec![copy_of(&good), Partition { offset: 1024, ..copy_of(&good) }],
        vec![copy_of(&good), Partition { name: b"b".to_vec(), offset: 512, ..copy_of(&good) }],
    ];
    for parts in cases.iter() {
        let mut dev = FlashDevice::new(16, 256).unwrap();
        dev.write(300, &[0x00]).unwrap();
        assert_eq!(Err(StoreError::TableCorrupt), PartitionTable::install(&mut dev, parts));
        // The device was not touched.
        assert_eq!(vec![0xFFu8; 256], dev.read(0, 256).unwrap());
        assert_eq!(vec![0x00u8], dev.read(300, 1).unwrap());
    }
    // More entries than the first unit holds.
    let mut many: Vec<Partition> = Vec::new();
    for i in 0..10u32 {
        many.push(Partition {
            name: vec![b'a' + i as u8],
            kind: 0,
            subkind: 0,
            offset: 256 + 512 * i,
            size: 512,
        });
    }
    let mut dev = FlashDevice::new(32, 256).unwrap();
    assert_eq!(Err(StoreError::TableCorrupt), PartitionTable::install(&mut dev, &many));
    many.truncate(9);
    assert_eq!(Ok(()), PartitionTable::install(&mut dev, &many));
    assert_eq!(9, PartitionTable::load(&dev).unwrap().len());
    // Sixteen bytes of name, and a partition up to the last cell.
    let mut dev = FlashDevice::new(4, 256).unwrap();
    let edge = vec![Partition { name: vec![b'n'; 16], kind: 7, subkind: 9, offset: 512, size: 512 }];
    assert_eq!(Ok(()), PartitionTable::install(&mut dev, &edge));
    assert_eq!(Some(0), PartitionTable::load(&dev).unwrap().find(&[b'n'; 16]));
}

fn copy_of(p: &Partition) -> Partition {
    Partition { name: p.name.clone(), kind: p.kind, subkind: p.subkind, offset: p.offset, size: p.size }
}

#[test]
fn table_install_faults_with_the_device() {
    let mut dev = FlashDevice::new(16, 256).unwrap();
    dev.fail_after(1);
    assert_eq!(Err(StoreError::IoError), PartitionTable::install(&mut dev, &two_partitions()));
    dev.fail_after(2);
    assert_eq!(Ok(()), PartitionTable::install(&mut dev, &two_partitions()));
    assert_eq!(Err(StoreError::IoError), PartitionTable::install(&mut dev, &two_partitions()));
}

#[test]
fn record_lies_behind_the_first_byte_of_the_bank() {
    let mut store = ready_store();
    store.write("factory", "ns", "k1", &[1, 2, 3]).unwrap();
    let image = store.into_device().into_image();
    let mut expected = vec![0xFFu8, 0xFC, 2, 0, 0, 0, 2, 0, 0, 0, 3, 0, 0, 0, 49, 192, 246, 146];
    expected.extend_from_slice(b"nsk1");
    expected.extend_from_slice(&[1, 2, 3, 0xFF]);
    assert_eq!(expected, image[256..256 + 26].to_vec());
    // The marker of the second bank is untouched.
    assert_eq!(0xFF, image[256 + 1024]);
}

#[test]
fn values_survive_a_power_cycle() {
    let mut store = ready_store();
    store.write("factory", "ns", "a", &[1]).unwrap();
    store.write("factory", "ns", "b", &[2, 2]).unwrap();
    store.write("factory", "ns", "a", &[3, 3, 3]).unwrap();
    store.write("user", "ns", "a", &[]).unwrap();
    let mut store = power_cycle(store);
    // Not initialised yet: nothing is found.
    assert_eq!(None, store.key_exists("factory", "ns", "a"));
    assert_eq!(Err(StoreError::PartitionNotFound), store.read("factory", "ns", "a", 3));
    store.init_partition("factory").unwrap();
    assert_eq!(Some(3), store.key_exists("factory", "ns", "a"));
    assert_eq!(Ok(vec![3u8, 3, 3]), store.read("factory", "ns", "a", 3));
    assert_eq!(Ok(vec![2u8, 2]), store.read("factory", "ns", "b", 2));
    assert_eq!(None, store.key_exists("user", "ns", "a"));
    store.init_partition("user").unwrap();
    assert_eq!(Some(0), store.key_exists("user", "ns", "a"));
    assert_eq!(Ok(vec![]), store.read("user", "ns", "a", 0));
}

#[test]
fn read_tells_absent_from_wrong_size() {
    let mut store = ready_store();
    store.write("factory", "ns", "a", &[1, 2]).unwrap();
    assert_eq!(Err(StoreError::KeyNotFound), store.read("factory", "ns", "b", 2));
    assert_eq!(Err(StoreError::KeyNotFound), store.read("factory", "other", "a", 2));
    assert_eq!(Err(StoreError::SizeMismatch), store.read("factory", "ns", "a", 1));
    assert_eq!(Err(StoreError::SizeMismatch), store.read("factory", "ns", "a", 3));
    assert_eq!(Err(StoreError::PartitionNotFound), store.read("nowhere", "ns", "a", 2));
    assert_eq!(Ok(vec![1u8, 2]), store.read("factory", "ns", "a", 2));
    // Without a size, the value comes as long as it is.
    assert_eq!(Ok(vec![1u8, 2]), store.get("factory", "ns", "a"));
    assert_eq!(Err(StoreError::KeyNotFound), store.get("factory", "ns", "b"));
    assert_eq!(Err(StoreError::PartitionNotFound), store.get("nowhere", "ns", "a"));
    // The empty namespace and the empty key are a namespace and a key.
    store.write("factory", "", "", &[9]).unwrap();
    assert_eq!(Ok(vec![9u8]), store.read("factory", "", "", 1));
    assert_eq!(Some(1), store.key_exists("factory", "\0", "\0"));
}

#[test]
fn interrupted_write_leaves_the_old_value() {
    // A write takes three program operations; cut the power before each.
    for budget in 0..3u64 {
        let mut store = ready_store();
        store.write("factory", "ns", "k", &[1, 1]).unwrap();
        store.fail_after(budget);
        assert_eq!(Err(StoreError::IoError), store.write("factory", "ns", "k", &[2, 2, 2]));
        assert_eq!(Err(StoreError::IoError), store.write("factory", "ns", "new", &[4]));
        // Before the power cycle, and after it.
        assert_eq!(Ok(vec![1u8, 1]), store.read("factory", "ns", "k", 2), "budget {}", budget);
        let mut store = power_cycle(store);
        assert_eq!(Ok(()), store.init_partition("factory"));
        assert_eq!(Some(2), store.key_exists("factory", "ns", "k"));
        assert_eq!(Ok(vec![1u8, 1]), store.read("factory", "ns", "k", 2), "budget {}", budget);
        assert_eq!(None, store.key_exists("factory", "ns", "new"));
        // The log goes on behind what the interrupted write left.
        assert_eq!(Ok(()), store.write("factory", "ns", "k", &[5]));
        let mut store = power_cycle(store);
        assert_eq!(Ok(()), store.init_partition("factory"));
        assert_eq!(Ok(vec![5u8]), store.read("factory", "ns", "k", 1));
    }
    // With the third operation the value counts.
    let mut store = ready_store();
    store.write("factory", "ns", "k", &[1, 1]).unwrap();
    store.fail_after(3);
    assert_eq!(Ok(()), store.write("factory", "ns", "k", &[2, 2, 2]));
    assert_eq!(Err(StoreError::IoError), store.write("factory", "ns", "k", &[3]));
    let mut store = power_cycle(store);
    assert_eq!(Ok(()), store.init_partition("factory"));
    assert_eq!(Ok(vec![2u8, 2, 2]), store.read("factory", "ns", "k", 3));
}

#[test]
fn first_write_interrupted_leaves_the_key_absent() {
    for budget in 0..3u64 {
        let mut store = ready_store();
        store.fail_after(budget);
        assert_eq!(Err(StoreError::IoError), store.write("user", "ns", "k", &[7; 40]));
        assert_eq!(None, store.key_exists("user", "ns", "k"));
        let mut store = power_cycle(store);
        assert_eq!(Ok(()), store.init_partition("user"));
        assert_eq!(None, store.key_exists("user", "ns", "k"));
        assert_eq!(Err(StoreError::KeyNotFound), store.read("user", "ns", "k", 40));
    }
}

#[test]
fn record_without_commit_marker_is_skipped() {
    // Header and value of a record lie in flash; its state is still "writing".
    let mut store = ready_store();
    store.write("user", "ns", "k", &[1]).unwrap();
    store.fail_after(2);
    assert_eq!(Err(StoreError::IoError), store.write("user", "ns", "k", &[2, 2]));
    let image = store.into_device().into_image();
    let first = 2304 + 1;
    let second = first + 17 + 3 + 1;
    assert_eq!(0xFC, image[first]);
    assert_eq!(0xFE, image[second]);
    assert_eq!(vec![b'n', b's', b'k', 2, 2], image[second + 17..second + 22].to_vec());
    let mut store = FlashStore::open(FlashDevice::from_image(image, 256).unwrap()).unwrap();
    // Giving the record up takes one program operation.
    store.fail_after(0);
    assert_eq!(Err(StoreError::IoError), store.init_partition("user"));
    assert_eq!(None, store.key_exists("user", "ns", "k"));
    assert_eq!(Err(StoreError::PartitionNotFound), store.read("user", "ns", "k", 1));
    store.fail_after(1);
    assert_eq!(Ok(()), store.init_partition("user"));
    assert_eq!(Ok(vec![1u8]), store.read("user", "ns", "k", 1));
    // Nothing is left to give up: initialising again programs nothing.
    assert_eq!(Ok(()), store.init_partition("user"));
    assert_eq!(Ok(vec![1u8]), store.read("user", "ns", "k", 1));
    let image = store.into_device().into_image();
    assert_eq!(0xFC, image[first]);
    assert_eq!(0xF8, image[second]);
    assert_eq!(vec![b'n', b's', b'k', 2, 2], image[second + 17..second + 22].to_vec());
    assert_eq!(0xFF, image[second + 22]);
}

#[test]
fn full_partition_refuses_and_keeps() {
    // A bank of `user` has 511 cells for records; a record of 100 bytes
    // under "ns" and a key of one byte takes 120.
    let mut store = ready_store();
    for key in ["a", "b", "c", "d"] {
        assert_eq!(Ok(()), store.write("user", "ns", key, &[key.as_bytes()[0]; 100]));
    }
    assert_eq!(Err(StoreError::PartitionFull), store.write("user", "ns", "e", &[0; 100]));
    // A new value needs its room while the old one still counts.
    assert_eq!(Err(StoreError::PartitionFull), store.write("user", "ns", "a", &[0; 100]));
    // 511 - 480 = 31 cells are left: a record with eleven bytes of value fits, twelve do not.
    assert_eq!(Err(StoreError::PartitionFull), store.write("user", "ns", "e", &[0; 12]));
    assert_eq!(Ok(()), store.write("user", "ns", "e", &[5; 11]));
    assert_eq!(Err(StoreError::PartitionFull), store.write("user", "", "", &[]));
    for key in ["a", "b", "c", "d"] {
        assert_eq!(Ok(vec![key.as_bytes()[0]; 100]), store.read("user", "ns", key, 100));
    }
    assert_eq!(Ok(vec![5u8; 11]), store.read("user", "ns", "e", 11));
    // The largest record that an empty bank takes.
    let mut store = ready_store();
    assert_eq!(Err(StoreError::PartitionFull), store.write("user", "n", "k", &[1; 493]));
    assert_eq!(Ok(()), store.write("user", "n", "k", &[1; 492]));
    assert_eq!(Ok(vec![1u8; 492]), store.read("user", "n", "k", 492));
}

#[test]
fn compaction_makes_room_and_keeps_values() {
    let mut store = ready_store();
    store.write("user", "ns", "keep", &[9; 50]).unwrap();
    // Each write leaves a record of 120 bytes behind; the bank has 511 cells.
    for round in 0..20u8 {
        assert_eq!(Ok(()), store.write("user", "ns", "a", &[round; 100]), "round {}", round);
        assert_eq!(Ok(vec![round; 100]), store.read("user", "ns", "a", 100));
        assert_eq!(Ok(vec![9u8; 50]), store.read("user", "ns", "keep", 50));
    }
    let mut store = power_cycle(store);
    store.init_partition("user").unwrap();
    assert_eq!(Ok(vec![19u8; 100]), store.read("user", "ns", "a", 100));
    assert_eq!(Ok(vec![9u8; 50]), store.read("user", "ns", "keep", 50));
}

#[test]
fn compaction_moves_the_log_to_the_other_bank() {
    let mut store = ready_store();
    store.write("user", "ns", "a", &[1; 100]).unwrap();
    store.write("user", "ns", "a", &[2; 100]).unwrap();
    store.write("user", "ns", "b", &[3; 10]).unwrap();
    assert_eq!(Ok(()), store.compact_partition("user"));
    assert_eq!(Err(StoreError::PartitionNotFound), store.compact_partition("nowhere"));
    assert_eq!(Ok(vec![2u8; 100]), store.read("user", "ns", "a", 100));
    let image = store.into_device().into_image();
    // The second bank holds the log: one record for "a", one for "b".
    let second = 2304 + 512;
    assert_eq!(0xFE, image[second]);
    assert_eq!(0xFC, image[second + 1]);
    assert_eq!(vec![2u8; 100], image[second + 1 + 20..second + 1 + 120].to_vec());
    assert_eq!(0xFC, image[second + 1 + 120]);
    assert_eq!(vec![3u8; 10], image[second + 1 + 140..second + 1 + 150].to_vec());
    assert_eq!(vec![0xFFu8; 512 - 151], image[second + 151..second + 512].to_vec());
    // The first bank is erased.
    assert_eq!(vec![0xFFu8; 512], image[2304..second].to_vec());
    // Back to the first bank: the marker is retired, then erased with its bank.
    let mut store = FlashStore::open(FlashDevice::from_image(image, 256).unwrap()).unwrap();
    store.init_partition("user").unwrap();
    assert_eq!(Ok(()), store.compact_partition("user"));
    assert_eq!(Ok(vec![2u8; 100]), store.read("user", "ns", "a", 100));
    assert_eq!(Ok(vec![3u8; 10]), store.read("user", "ns", "b", 10));
    let image = store.into_device().into_image();
    assert_eq!(vec![0xFFu8; 512], image[second..second + 512].to_vec());
    assert_eq!(0xFC, image[2304 + 1]);
    assert_eq!(vec![2u8; 100], image[2304 + 1 + 20..2304 + 1 + 120].to_vec());
}

#[test]
fn compaction_interrupted_anywhere_loses_nothing() {
    // The idle bank is known to be erased: a compaction of two values takes
    // two copies, the marker, and two erase operations.
    for budget in 0..7u64 {
        let mut store = ready_store();
        store.write("user", "ns", "a", &[1; 100]).unwrap();
        store.write("user", "ns", "a", &[2; 100]).unwrap();
        store.write("user", "ns", "b", &[3; 10]).unwrap();
        store.fail_after(budget);
        let outcome = store.compact_partition("user");
        if budget < 5 {
            assert_eq!(Err(StoreError::IoError), outcome, "budget {}", budget);
        } else {
            assert_eq!(Ok(()), outcome, "budget {}", budget);
        }
        assert_eq!(Ok(vec![2u8; 100]), store.read("user", "ns", "a", 100));
        assert_eq!(Ok(vec![3u8; 10]), store.read("user", "ns", "b", 10));
        let mut store = power_cycle(store);
        assert_eq!(Ok(()), store.init_partition("user"), "budget {}", budget);
        assert_eq!(Ok(vec![2u8; 100]), store.read("user", "ns", "a", 100), "budget {}", budget);
        assert_eq!(Ok(vec![3u8; 10]), store.read("user", "ns", "b", 10), "budget {}", budget);
        // The partition goes on: compaction and writes succeed.
        assert_eq!(Ok(()), store.compact_partition("user"), "budget {}", budget);
        assert_eq!(Ok(()), store.write("user", "ns", "a", &[4; 100]));
        assert_eq!(Ok(vec![4u8; 100]), store.read("user", "ns", "a", 100));
        assert_eq!(Ok(vec![3u8; 10]), store.read("user", "ns", "b", 10));
    }
}

#[test]
fn write_that_needs_compaction_counts_its_operations() {
    // Four records of 120 bytes fill the bank; the fifth write needs a
    // compaction first: one copy, the marker, two erases, then its own three.
    for budget in [0u64, 3, 4, 6, 7] {
        let mut store = ready_store();
        for round in 0..4u8 {
            store.write("user", "ns", "a", &[round; 100]).unwrap();
        }
        store.fail_after(budget);
        let outcome = store.write("user", "ns", "a", &[9; 100]);
        let expected = if budget < 7 { vec![3u8; 100] } else { vec![9u8; 100] };
        assert_eq!(budget >= 7, outcome.is_ok(), "budget {}", budget);
        assert_eq!(Ok(expected.clone()), store.read("user", "ns", "a", 100), "budget {}", budget);
        let mut store = power_cycle(store);
        assert_eq!(Ok(()), store.init_partition("user"));
        assert_eq!(Ok(expected), store.read("user", "ns", "a", 100), "budget {}", budget);
    }
}

#[test]
fn partitions_do_not_touch_each_other() {
    let mut store = ready_store();
    store.write("factory", "n", "k", &[1]).unwrap();
    store.write("user", "n", "k", &[2, 2]).unwrap();
    assert_eq!(Ok(vec![1u8]), store.read("factory", "n", "k", 1));
    assert_eq!(Ok(vec![2u8, 2]), store.read("user", "n", "k", 2));
    store.write("user", "n", "other", &[3]).unwrap();
    assert_eq!(None, store.key_exists("factory", "n", "other"));
    let before = store.into_device().into_image();
    let mut store = FlashStore::open(FlashDevice::from_image(before.clone(), 256).unwrap()).unwrap();
    store.init_partition("factory").unwrap();
    store.init_partition("user").unwrap();
    for round in 0..10u8 {
        store.write("user", "n", "k", &[round; 200]).unwrap();
    }
    store.erase_partition("user").unwrap();
    assert_eq!(Ok(vec![1u8]), store.read("factory", "n", "k", 1));
    assert_eq!(None, store.key_exists("user", "n", "k"));
    let after = store.into_device().into_image();
    assert_eq!(before[..2304].to_vec(), after[..2304].to_vec());
    assert_eq!(vec![0xFFu8; 1024], after[2304..3328].to_vec());
    assert_eq!(before[3328..].to_vec(), after[3328..].to_vec());
}

#[test]
fn erase_partition_leaves_it_empty_and_ready() {
    let mut store = FlashStore::open(blank_device()).unwrap();
    // Not initialised: erasing initialises.
    assert_eq!(Ok(()), store.erase_partition("user"));
    assert_eq!(Ok(()), store.write("user", "n", "k", &[1]));
    assert_eq!(Ok(()), store.erase_partition("user"));
    assert_eq!(None, store.key_exists("user", "n", "k"));
    assert_eq!(Err(StoreError::KeyNotFound), store.read("user", "n", "k", 1));
    assert_eq!(Ok(()), store.write("user", "n", "k", &[2]));
    assert_eq!(Ok(vec![2u8]), store.read("user", "n", "k", 1));
    // Four units: the fourth erase is the last.
    store.fail_after(3);
    assert_eq!(Err(StoreError::IoError), store.erase_partition("user"));
    assert_eq!(None, store.key_exists("user", "n", "k"));
    assert_eq!(Err(StoreError::PartitionNotFound), store.write("user", "n", "k", &[3]));
    store.fail_after(4);
    assert_eq!(Ok(()), store.erase_partition("user"));
    assert_eq!(Err(StoreError::IoError), store.write("user", "n", "k", &[3]));
    assert_eq!(Err(StoreError::PartitionNotFound), store.erase_partition("nowhere"));
}

#[test]
fn init_refuses_a_partition_that_holds_no_log() {
    let mut store = ready_store();
    store.write("user", "ns", "k", &[1, 2, 3, 4]).unwrap();
    let good = store.into_device().into_image();
    let record = 2304 + 1;
    // A value byte, a digest byte, a length, a state that is none, a cell behind the log.
    for (at, value) in [(record + 22, 0x00u8), (record + 13, 0x00), (record + 9, 0x05), (record, 0x00), (record + 24, 0x7F), (2304 + 400, 0x00)] {
        let mut image = good.clone();
        image[at] = value;
        let mut store = FlashStore::open(FlashDevice::from_image(image, 256).unwrap()).unwrap();
        assert_eq!(Err(StoreError::Corrupt), store.init_partition("user"), "cell {}", at);
        assert_eq!(None, store.key_exists("user", "ns", "k"));
        assert_eq!(Ok(()), store.init_partition("factory"));
        // Erasing makes the partition usable again.
        assert_eq!(Ok(()), store.erase_partition("user"));
        assert_eq!(Ok(()), store.write("user", "ns", "k", &[1]));
    }
    let mut store = FlashStore::open(FlashDevice::from_image(good, 256).unwrap()).unwrap();
    assert_eq!(Ok(()), store.init_partition("user"));
    assert_eq!(Ok(vec![1u8, 2, 3, 4]), store.read("user", "ns", "k", 4));
    assert_eq!(Err(StoreError::PartitionNotFound), store.init_partition("nowhere"));
}

#[test]
fn record_log_works_on_its_own() {
    let mut dev = FlashDevice::new(8, 64).unwrap();
    let mut log = RecordLog::format(&mut dev, 128, 128).unwrap();
    assert_eq!(None, log.size_of(&dev, b"n", b"k"));
    assert_eq!(Ok(()), log.put(&mut dev, b"n", b"k", &[1, 2]));
    assert_eq!(Some(2), log.size_of(&dev, b"n", b"k"));
    assert_eq!(Ok(vec![1u8, 2]), log.read(&dev, b"n", b"k", 2));
    assert_eq!(Err(StoreError::SizeMismatch), log.read(&dev, b"n", b"k", 1));
    assert_eq!(Err(StoreError::KeyNotFound), log.read(&dev, b"k", b"n", 2));
    assert_eq!(Ok(()), log.compact(&mut dev));
    let mut log = RecordLog::open(&mut dev, 128, 128).unwrap();
    assert_eq!(Ok(vec![1u8, 2]), log.read(&dev, b"n", b"k", 2));
    assert_eq!(Err(StoreError::KeyNotFound), log.remove(&mut dev, b"n", b"x"));
    assert_eq!(Ok(()), log.remove(&mut dev, b"n", b"k"));
    assert_eq!(None, log.size_of(&dev, b"n", b"k"));
    assert_eq!(Ok(()), log.put(&mut dev, b"n", b"k", &[3]));
    assert_eq!(Ok(vec![3u8]), log.read(&dev, b"n", b"k", 1));
    assert_eq!(vec![0xFFu8; 128], dev.read(0, 128).unwrap());
    assert_eq!(vec![0xFFu8; 128], dev.read(384, 128).unwrap());
}

#[test]
fn removed_value_is_gone_for_good() {
    let mut store = ready_store();
    store.write("factory", "ns", "a", &[1, 1]).unwrap();
    store.write("factory", "ns", "b", &[2]).unwrap();
    assert_eq!(Ok(()), store.remove("factory", "ns", "a"));
    assert_eq!(None, store.key_exists("factory", "ns", "a"));
    assert_eq!(Err(StoreError::KeyNotFound), store.read("factory", "ns", "a", 2));
    assert_eq!(Ok(vec![2u8]), store.read("factory", "ns", "b", 1));
    // Nothing is there to remove a second time, nor in another namespace.
    assert_eq!(Err(StoreError::KeyNotFound), store.remove("factory", "ns", "a"));
    assert_eq!(Err(StoreError::KeyNotFound), store.remove("factory", "other", "b"));
    assert_eq!(Err(StoreError::PartitionNotFound), store.remove("nowhere", "ns", "b"));
    let mut store = power_cycle(store);
    assert_eq!(Err(StoreError::PartitionNotFound), store.remove("factory", "ns", "b"));
    store.init_partition("factory").unwrap();
    assert_eq!(None, store.key_exists("factory", "ns", "a"));
    assert_eq!(Ok(vec![2u8]), store.read("factory", "ns", "b", 1));
    // The key can be written again, and compaction does not bring the old value back.
    assert_eq!(Ok(()), store.write("factory", "ns", "a", &[3]));
    assert_eq!(Ok(()), store.remove("factory", "ns", "a"));
    assert_eq!(Ok(()), store.compact_partition("factory"));
    assert_eq!(None, store.key_exists("factory", "ns", "a"));
    let mut store = power_cycle(store);
    store.init_partition("factory").unwrap();
    assert_eq!(None, store.key_exists("factory", "ns", "a"));
    assert_eq!(Ok(vec![2u8]), store.read("factory", "ns", "b", 1));
}

#[test]
fn tombstone_is_a_record_of_no_value() {
    let mut store = ready_store();
    store.write("user", "ns", "k", &[1]).unwrap();
    store.remove("user", "ns", "k").unwrap();
    let image = store.into_device().into_image();
    let tombstone = 2304 + 1 + 17 + 3 + 1;
    // The digest of "nsk" is ((7 * 31 + 111) * 31 + 116) * 31 + 108 = 318912.
    let mut expected = vec![0xFAu8, 2, 0, 0, 0, 1, 0, 0, 0, 0, 0, 0, 0, 0xC0, 0xDD, 0x04, 0x00];
    expected.extend_from_slice(b"nsk");
    expected.push(0xFF);
    assert_eq!(expected, image[tombstone..tombstone + 21].to_vec());
}

#[test]
fn interrupted_remove_leaves_the_value() {
    for budget in 0..3u64 {
        let mut store = ready_store();
        store.write("user", "ns", "k", &[1, 2]).unwrap();
        store.fail_after(budget);
        assert_eq!(Err(StoreError::IoError), store.remove("user", "ns", "k"));
        assert_eq!(Ok(vec![1u8, 2]), store.read("user", "ns", "k", 2));
        let mut store = power_cycle(store);
        store.init_partition("user").unwrap();
        assert_eq!(Ok(vec![1u8, 2]), store.read("user", "ns", "k", 2), "budget {}", budget);
    }
    let mut store = ready_store();
    store.write("user", "ns", "k", &[1, 2]).unwrap();
    store.fail_after(3);
    assert_eq!(Ok(()), store.remove("user", "ns", "k"));
    let mut store = power_cycle(store);
    store.init_partition("user").unwrap();
    assert_eq!(None, store.key_exists("user", "ns", "k"));
}

#[test]
fn removing_gives_room_back() {
    // Four records of 120 bytes leave 31 of the 511 cells: room for a tombstone of 20.
    let mut store = ready_store();
    for key in ["a", "b", "c", "d"] {
        store.write("user", "ns", key, &[0; 100]).unwrap();
    }
    assert_eq!(Err(StoreError::PartitionFull), store.write("user", "ns", "e", &[0; 100]));
    assert_eq!(Ok(()), store.remove("user", "ns", "a"));
    assert_eq!(Ok(()), store.write("user", "ns", "e", &[5; 100]));
    assert_eq!(None, store.key_exists("user", "ns", "a"));
    assert_eq!(Ok(vec![5u8; 100]), store.read("user", "ns", "e", 100));
    // With 491 cells taken, there is none for a tombstone.
    assert_eq!(Ok(()), store.write("user", "ns", "f", &[6; 8]));
    assert_eq!(Err(StoreError::PartitionFull), store.remove("user", "ns", "b"));
    assert_eq!(Ok(vec![0u8; 100]), store.read("user", "ns", "b", 100));
}

#[test]
fn compaction_erases_an_idle_bank_that_is_not_erased() {
    // Three records of 270 bytes in all: the log reaches into the second unit of its bank.
    let mut store = ready_store();
    store.write("user", "ns", "a", &[1; 100]).unwrap();
    store.write("user", "ns", "c", &[2; 100]).unwrap();
    store.write("user", "ns", "b", &[3; 10]).unwrap();
    // A compaction that faults after its first copy leaves cells in the idle bank.
    store.fail_after(1);
    assert_eq!(Err(StoreError::IoError), store.compact_partition("user"));
    // The next one erases the two units of that bank first: 2 + 3 + 1 + 2 operations.
    // It faults at the last: the log has moved, one unit of its old bank is not erased.
    store.fail_after(7);
    assert_eq!(Err(StoreError::IoError), store.compact_partition("user"));
    let mut store = power_cycle(store);
    store.init_partition("user").unwrap();
    store.fail_after(7);
    assert_eq!(Err(StoreError::IoError), store.compact_partition("user"));
    store.fail_after(8);
    assert_eq!(Ok(()), store.compact_partition("user"));
    // Now the idle bank is known to be erased: 3 + 1 + 2 operations.
    store.fail_after(6);
    assert_eq!(Ok(()), store.compact_partition("user"));
    assert_eq!(Ok(vec![1u8; 100]), store.read("user", "ns", "a", 100));
    assert_eq!(Ok(vec![2u8; 100]), store.read("user", "ns", "c", 100));
    assert_eq!(Ok(vec![3u8; 10]), store.read("user", "ns", "b", 10));
}

#[test]
fn store_tells_what_the_table_says() {
    let store = ready_store();
    let factory = store.partition("factory\0").unwrap();
    assert_eq!(b"factory".to_vec(), factory.name);
    assert_eq!((1, 0, 256, 2048), (factory.kind, factory.subkind, factory.offset, factory.size));
    assert_eq!(Some(1), store.locate("user"));
    assert!(store.partition("nowhere").is_none());
    assert_eq!(None, store.locate(""));
}
