use kelk::bst::StorageBST;
use kelk::hash_table::StorageHashTable;
use kelk::linked_list::StorageLinkedList;
use kelk::storage::mock_storage;

#[test]
fn test_bst() {
    let mut storage = mock_storage(1024);
    let mut bst_1 = StorageBST::<i32, i64>::create(&mut storage).unwrap();

    assert!(bst_1.is_empty());
    assert_eq!(None, bst_1.insert(&mut storage, 1, 10).unwrap());
    assert_eq!(None, bst_1.insert(&mut storage, 3, 30).unwrap());
    assert_eq!(None, bst_1.insert(&mut storage, 2, 20).unwrap());
    assert_eq!(Some(10), bst_1.insert(&mut storage, 1, 100).unwrap());

    let bst_2 = StorageBST::<i32, i64>::load(&storage, bst_1.offset()).unwrap();
    assert_eq!(3, bst_2.len());
    assert_eq!(Some(20), bst_2.find(&storage, &2).unwrap());
    assert_eq!(None, bst_2.find(&storage, &4).unwrap());
    assert_eq!(Some(30), bst_2.find(&storage, &3).unwrap());
    assert_eq!(Some(100), bst_2.find(&storage, &1).unwrap());
    assert!(!bst_2.contains_key(&storage, &-1).unwrap());
    assert!(bst_2.contains_key(&storage, &2).unwrap());
    assert!(!bst_2.contains_key(&storage, &4).unwrap());
}

#[test]
fn test_hash_table() {
    let mut storage = mock_storage(1024);
    let mut ht_1 = StorageHashTable::<i32, i64>::create(&mut storage, 64).unwrap();

    assert!(ht_1.is_empty());
    assert_eq!(None, ht_1.insert(&mut storage, 1, 10).unwrap());
    assert_eq!(None, ht_1.insert(&mut storage, 3, 30).unwrap());
    assert_eq!(None, ht_1.insert(&mut storage, 2, 20).unwrap());
    assert_eq!(Some(10), ht_1.insert(&mut storage, 1, 100).unwrap());

    let ht_2 = StorageHashTable::<i32, i64>::load(&storage, ht_1.offset()).unwrap();
    assert_eq!(3, ht_2.len());
    assert_eq!(Some(20), ht_2.find(&storage, &2).unwrap());
    assert_eq!(None, ht_2.find(&storage, &4).unwrap());
    assert_eq!(Some(30), ht_2.find(&storage, &3).unwrap());
    assert_eq!(Some(100), ht_2.find(&storage, &1).unwrap());
    assert!(!ht_2.contains_key(&storage, &-1).unwrap());
    assert!(ht_2.contains_key(&storage, &2).unwrap());
    assert!(!ht_2.contains_key(&storage, &4).unwrap());
}

#[test]
fn test_linked_list() {
    let mut storage = mock_storage(4 * 1024);
    let mut list_1 = StorageLinkedList::<i32>::create(&mut storage).unwrap();
    assert!(list_1.is_empty());
    list_1.push_back(&mut storage, 1).unwrap();
    list_1.push_back(&mut storage, 2).unwrap();
    list_1.push_back(&mut storage, 3).unwrap();

    let list_2 = StorageLinkedList::<i32>::load(&storage, list_1.offset()).unwrap();
    assert_eq!(list_2.len(), 3);
    let mut iter = list_2.into_iter(&storage);
    let mut all_items: Vec<i32> = Vec::new();
    loop {
        match iter.next() {
            Some(item) => all_items.push(item),
            None => break,
        }
    }
    assert!(all_items.eq(&[1, 2, 3]));
}
