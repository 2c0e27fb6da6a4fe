//! Persistent, storage-backed data structures for flat byte-addressable
//! contract storage: a substrate with a bump allocator and a root-offset
//! stack, a fixed-size codec layer, and containers (binary search tree,
//! hash table, linked list) whose links are byte offsets into the region.

pub mod blockchain;
pub mod bst;
pub mod codec;
pub mod error;
pub mod hash_table;
pub mod linked_list;
pub mod mock;
pub mod storage;
pub mod storage_string;
