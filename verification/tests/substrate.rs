use kelk::error::Error;
use kelk::storage::{mock_storage, RESERVED, STACK_SLOTS};

#[test]
fn allocator_monotone() {
    let mut storage = mock_storage(1024);
    let o1 = storage.allocate(10).unwrap();
    let o2 = storage.allocate(1).unwrap();
    let o3 = storage.allocate(100).unwrap();
    assert_ne!(o1, 0);
    assert_ne!(o2, 0);
    assert_ne!(o3, 0);
    assert!(o1 < o2 && o2 < o3);
    assert!(o1 + 10 <= o2);
    assert!(o2 + 1 <= o3);
    assert_eq!(o1, RESERVED);
}

#[test]
fn allocator_out_of_space() {
    let mut storage = mock_storage(64);
    let free = 64 - RESERVED;
    assert_eq!(storage.allocate(free + 1), Err(Error::OutOfSpace));
    let off = storage.allocate(free).unwrap();
    assert_eq!(off, RESERVED);
    assert_eq!(storage.allocate(1), Err(Error::OutOfSpace));
}

#[test]
fn bytes_round_trip_and_bounds() {
    let mut storage = mock_storage(128);
    let off = storage.allocate(8).unwrap();
    storage.write_bytes(off, &[1, 2, 3, 4, 5, 6, 7, 8]).unwrap();
    assert_eq!(storage.read_bytes(off, 8).unwrap(), vec![1, 2, 3, 4, 5, 6, 7, 8]);
    assert_eq!(storage.read_bytes(125, 4), Err(Error::OutOfBounds));
    assert_eq!(storage.write_bytes(127, &[1, 2]), Err(Error::OutOfBounds));
    storage.write_u32(off, 0xdead_beef).unwrap();
    assert_eq!(storage.read_u32(off).unwrap(), 0xdead_beef);
}

#[test]
fn typed_read_write() {
    let mut storage = mock_storage(128);
    let off = storage.allocate(16).unwrap();
    storage.write::<i64>(off, &-42).unwrap();
    assert_eq!(storage.read::<i64>(off).unwrap(), -42);
    storage.write::<bool>(off + 8, &true).unwrap();
    assert_eq!(storage.read::<bool>(off + 8).unwrap(), true);
    // a byte that no boolean encodes decodes to an error
    storage.write_bytes(off + 8, &[7]).unwrap();
    assert_eq!(storage.read::<bool>(off + 8), Err(Error::InvalidEncoding));
}

#[test]
fn stack_slots_hold_offsets() {
    let mut storage = mock_storage(256);
    for i in 1..=STACK_SLOTS {
        assert_eq!(storage.read_stack_at(i).unwrap(), 0);
        storage.fill_stack_at(i, 100 + i).unwrap();
    }
    for i in 1..=STACK_SLOTS {
        assert_eq!(storage.read_stack_at(i).unwrap(), 100 + i);
    }
}

#[test]
fn stack_index_out_of_range() {
    let mut storage = mock_storage(256);
    assert_eq!(storage.read_stack_at(0), Err(Error::StackOverflow));
    assert_eq!(storage.read_stack_at(STACK_SLOTS + 1), Err(Error::StackOverflow));
    assert_eq!(storage.fill_stack_at(0, 1), Err(Error::StackOverflow));
    assert_eq!(storage.fill_stack_at(STACK_SLOTS + 1, 1), Err(Error::StackOverflow));
}
