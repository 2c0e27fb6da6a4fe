use kelk::blockchain::Address;
use kelk::bst::StorageBST;
use kelk::error::Error;
use kelk::hash_table::StorageHashTable;
use kelk::linked_list::StorageLinkedList;
use kelk::mock::mock_context;
use kelk::storage::{mock_storage, RESERVED};
use kelk::storage_string::StorageString;

#[test]
fn codec_mismatch_on_reload() {
    let mut storage = mock_storage(1024);
    let mut bst = StorageBST::<i32, i64>::create(&mut storage).unwrap();
    bst.insert(&mut storage, 1, 10).unwrap();
    let r = StorageBST::<i64, i64>::load(&storage, bst.offset());
    assert!(matches!(r, Err(Error::CodecMismatch)));
    let r2 = StorageBST::<i32, i32>::load(&storage, bst.offset());
    assert!(matches!(r2, Err(Error::CodecMismatch)));
    // the right types still load
    assert!(StorageBST::<i32, i64>::load(&storage, bst.offset()).is_ok());
}

#[test]
fn out_of_space_keeps_tree_intact() {
    // room for the header and exactly three nodes of BST<i32, i64>:
    // 12-byte header, 20-byte nodes
    let n = 3u32;
    let size = (RESERVED + 12 + n * 20) as usize;
    let mut storage = mock_storage(size);
    let mut bst = StorageBST::<i32, i64>::create(&mut storage).unwrap();
    for i in 0..n as i32 {
        assert_eq!(None, bst.insert(&mut storage, i, (i * 10) as i64).unwrap());
    }
    // the fourth node does not fit
    assert_eq!(bst.insert(&mut storage, 99, 990), Err(Error::OutOfSpace));
    assert_eq!(bst.len(), n);
    for i in 0..n as i32 {
        assert_eq!(Some((i * 10) as i64), bst.find(&storage, &i).unwrap());
    }
    assert_eq!(None, bst.find(&storage, &99).unwrap());
    // updating an existing key needs no allocation and still works
    assert_eq!(Some(0), bst.insert(&mut storage, 0, 5).unwrap());
    assert_eq!(Some(5), bst.find(&storage, &0).unwrap());
}

#[test]
fn reload_reproduces_contents() {
    let mut storage = mock_storage(8 * 1024);
    let mut bst = StorageBST::<u32, u64>::create(&mut storage).unwrap();
    let mut list = StorageLinkedList::<u16>::create(&mut storage).unwrap();
    let mut ht = StorageHashTable::<u32, u32>::create(&mut storage, 8).unwrap();
    for i in 0..20u32 {
        bst.insert(&mut storage, i * 7 % 20, (i * i) as u64).unwrap();
        ht.insert(&mut storage, i, i + 1).unwrap();
        list.push_back(&mut storage, i as u16).unwrap();
    }
    storage.fill_stack_at(1, bst.offset()).unwrap();
    storage.fill_stack_at(2, list.offset()).unwrap();
    storage.fill_stack_at(3, ht.offset()).unwrap();

    let bst2 = StorageBST::<u32, u64>::load(&storage, storage.read_stack_at(1).unwrap()).unwrap();
    assert_eq!(bst2.len(), bst.len());
    for k in 0..25u32 {
        assert_eq!(bst2.find(&storage, &k).unwrap(), bst.find(&storage, &k).unwrap());
    }
    let list2 =
        StorageLinkedList::<u16>::load(&storage, storage.read_stack_at(2).unwrap()).unwrap();
    assert_eq!(list2.len(), 20);
    let mut iter = list2.into_iter(&storage);
    for i in 0..20u16 {
        assert_eq!(iter.next(), Some(i));
    }
    assert_eq!(iter.next(), None);
    let ht2 =
        StorageHashTable::<u32, u32>::load(&storage, storage.read_stack_at(3).unwrap()).unwrap();
    assert_eq!(ht2.len(), 20);
    for k in 0..25u32 {
        assert_eq!(ht2.find(&storage, &k).unwrap(), ht.find(&storage, &k).unwrap());
    }
}

#[test]
fn hash_table_matches_reference_map() {
    let mut storage = mock_storage(64 * 1024);
    let mut ht = StorageHashTable::<i32, i64>::create(&mut storage, 16).unwrap();
    let mut reference: Vec<(i32, i64)> = Vec::new();
    let ops: [(i32, i64); 12] = [
        (5, 50),
        (-3, 7),
        (5, 51),
        (1000, 1),
        (0, 0),
        (-3, 8),
        (21, 2),
        (37, 3),
        (53, 4),
        (5, 52),
        (-1000, 9),
        (0, 13),
    ];
    for (k, v) in ops {
        let expected_prev = reference.iter().find(|e| e.0 == k).map(|e| e.1);
        let prev = ht.insert(&mut storage, k, v).unwrap();
        assert_eq!(prev, expected_prev);
        match reference.iter_mut().find(|e| e.0 == k) {
            Some(entry) => entry.1 = v,
            None => reference.push((k, v)),
        }
        assert_eq!(ht.len() as usize, reference.len());
    }
    for k in -1001..=1001 {
        let expected = reference.iter().find(|e| e.0 == k).map(|e| e.1);
        assert_eq!(ht.find(&storage, &k).unwrap(), expected);
    }
}

#[test]
fn out_of_space_keeps_list_intact() {
    // room for the header and exactly three nodes of a list of i32:
    // 14-byte header, 8-byte nodes
    let size = (RESERVED + 14 + 3 * 8) as usize;
    let mut storage = mock_storage(size);
    let mut list = StorageLinkedList::<i32>::create(&mut storage).unwrap();
    for i in 0..3 {
        list.push_back(&mut storage, i).unwrap();
    }
    assert_eq!(list.push_back(&mut storage, 99), Err(Error::OutOfSpace));
    assert_eq!(list.len(), 3);
    let mut iter = list.into_iter(&storage);
    assert_eq!(iter.next(), Some(0));
    assert_eq!(iter.next(), Some(1));
    assert_eq!(iter.next(), Some(2));
    assert_eq!(iter.next(), None);
}

#[test]
fn bst_matches_reference_map() {
    let mut storage = mock_storage(64 * 1024);
    let mut bst = StorageBST::<i64, i64>::create(&mut storage).unwrap();
    let mut reference: Vec<(i64, i64)> = Vec::new();
    let mut x: i64 = 1;
    for step in 0..60i64 {
        x = (x * 31 + 17) % 101;
        let k = x - 50;
        let v = step;
        let expected_prev = reference.iter().find(|e| e.0 == k).map(|e| e.1);
        assert_eq!(bst.insert(&mut storage, k, v).unwrap(), expected_prev);
        match reference.iter_mut().find(|e| e.0 == k) {
            Some(entry) => entry.1 = v,
            None => reference.push((k, v)),
        }
        assert_eq!(bst.len() as usize, reference.len());
    }
    for k in -55..55i64 {
        let expected = reference.iter().find(|e| e.0 == k).map(|e| e.1);
        assert_eq!(bst.find(&storage, &k).unwrap(), expected);
    }
}

#[test]
fn token_state_survives_reload() {
    let mut ctx = mock_context(1024 * 1024);
    let owner = ctx.blockchain.generate_new_address();
    ctx.blockchain.set_msg_sender(&owner);

    // instantiate: create the containers once and publish their offsets
    let name_text = "test-erc20";
    let symbol_text = "$$$";
    let mut balances = StorageBST::<Address, i64>::create(&mut ctx.storage).unwrap();
    let mut name = StorageString::create(&mut ctx.storage, name_text.len() as u32).unwrap();
    let mut symbol = StorageString::create(&mut ctx.storage, symbol_text.len() as u32).unwrap();
    name.set_string(&mut ctx.storage, name_text).unwrap();
    symbol.set_string(&mut ctx.storage, symbol_text).unwrap();
    let caller = ctx.blockchain.get_message_sender().unwrap();
    balances.insert(&mut ctx.storage, caller, 2000).unwrap();
    ctx.storage.fill_stack_at(1, balances.offset()).unwrap();
    ctx.storage.fill_stack_at(2, name.offset()).unwrap();
    ctx.storage.fill_stack_at(3, symbol.offset()).unwrap();

    // a subsequent invocation loads everything from the root stack
    let balances2 =
        StorageBST::<Address, i64>::load(&ctx.storage, ctx.storage.read_stack_at(1).unwrap())
            .unwrap();
    let name2 = StorageString::load(&ctx.storage, ctx.storage.read_stack_at(2).unwrap()).unwrap();
    let symbol2 =
        StorageString::load(&ctx.storage, ctx.storage.read_stack_at(3).unwrap()).unwrap();
    let caller2 = ctx.blockchain.get_message_sender().unwrap();
    assert_eq!(balances2.find(&ctx.storage, &caller2).unwrap(), Some(2000));
    assert_eq!(name2.get_string(&ctx.storage).unwrap(), "test-erc20".to_string());
    assert_eq!(symbol2.get_string(&ctx.storage).unwrap(), "$$$".to_string());
}

#[test]
fn storage_string_round_trips_utf8() {
    let mut storage = mock_storage(1024);
    let text = "héllo ↑";
    let mut ss = StorageString::create(&mut storage, text.len() as u32).unwrap();
    ss.set_string(&mut storage, text).unwrap();
    let back = StorageString::load(&storage, ss.offset()).unwrap();
    assert_eq!(back.get_string(&storage).unwrap(), text.to_string());
}

#[test]
fn storage_string_rejects_invalid_utf8() {
    let mut storage = mock_storage(1024);
    let mut ss = StorageString::create(&mut storage, 2).unwrap();
    ss.set_string(&mut storage, "ab").unwrap();
    // corrupt the content behind the length prefix
    storage.write_bytes(ss.offset() + 4, &[0xff, 0xfe]).unwrap();
    assert_eq!(ss.get_string(&storage), Err(Error::InvalidEncoding));
}

#[test]
fn generated_addresses_differ_and_are_reproducible() {
    let mut ctx = mock_context(1024);
    let a1 = ctx.blockchain.generate_new_address();
    let a2 = ctx.blockchain.generate_new_address();
    assert_ne!(a1, a2);
    // the generator is seeded by the counter, so a fresh mock replays it
    let mut ctx2 = mock_context(1024);
    let b1 = ctx2.blockchain.generate_new_address();
    let b2 = ctx2.blockchain.generate_new_address();
    assert_eq!(a1, b1);
    assert_eq!(a2, b2);
}

#[test]
fn mock_blockchain_params() {
    let mut ctx = mock_context(1024);
    ctx.blockchain.set_param(7, vec![1, 2, 3]);
    ctx.blockchain.set_param(9, vec![4]);
    ctx.blockchain.set_param(7, vec![5, 6]);
    assert_eq!(ctx.blockchain.get_param(7).unwrap(), vec![5, 6]);
    assert_eq!(ctx.blockchain.get_param(9).unwrap(), vec![4]);
    let c = ctx.as_ref();
    assert_eq!(c.blockchain.get_param(9).unwrap(), vec![4]);
}

#[test]
fn bst_with_address_keys() {
    let mut ctx = mock_context(64 * 1024);
    let mut tree = StorageBST::<Address, i64>::create(&mut ctx.storage).unwrap();
    let mut addrs: Vec<Address> = Vec::new();
    for i in 0..10 {
        let a = ctx.blockchain.generate_new_address();
        tree.insert(&mut ctx.storage, a, i * 11).unwrap();
        addrs.push(a);
    }
    assert_eq!(tree.len(), 10);
    for (i, a) in addrs.iter().enumerate() {
        assert_eq!(tree.find(&ctx.storage, a).unwrap(), Some(i as i64 * 11));
    }
    let absent = ctx.blockchain.generate_new_address();
    assert_eq!(tree.find(&ctx.storage, &absent).unwrap(), None);
}
