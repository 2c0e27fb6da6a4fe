//! The mocked context for exercising contract code: an in-memory storage
//! region and a mocked blockchain, owned together.

use vstd::prelude::*;
use crate::blockchain::{mock_blockchain, MockBlockchain};
use crate::storage::{mock_storage, Storage, RESERVED};

verus! {

/// A read-only aggregation of the two subsystems, handed to entry points
/// for queries.
pub struct Context<'a> {
    /// The storage substrate.
    pub storage: &'a Storage,
    /// The blockchain capability.
    pub blockchain: &'a MockBlockchain,
}

/// `MockContext` owns the mocked instances.
pub struct MockContext {
    /// The instance of the storage substrate.
    pub storage: Storage,
    /// The instance of the mocked blockchain.
    pub blockchain: MockBlockchain,
}

impl MockContext {
    /// Returns the context as a read-only reference pair.
    pub fn as_ref<'a>(&'a self) -> (c: Context<'a>)
        ensures
            c.storage == &self.storage,
            c.blockchain == &self.blockchain,
    {
        Context { storage: &self.storage, blockchain: &self.blockchain }
    }

    /// Returns a mutable reference to the mocked storage.
    pub fn mocked_storage(&mut self) -> (r: &mut Storage)
        ensures
            *r == old(self).storage,
            final(self).storage == *final(r),
            final(self).blockchain == old(self).blockchain,
    {
        &mut self.storage
    }

    /// Returns a mutable reference to the mocked blockchain.
    pub fn mocked_blockchain(&mut self) -> (r: &mut MockBlockchain)
        ensures
            *r == old(self).blockchain,
            final(self).blockchain == *final(r),
            final(self).storage == old(self).storage,
    {
        &mut self.blockchain
    }
}

/// Mocks the context for testing, over a zeroed region of the given size.
pub fn mock_context(storage_size: usize) -> (c: MockContext)
    requires
        RESERVED <= storage_size <= u32::MAX,
    ensures
        c.storage.inv(),
        c.storage.mem().len() == storage_size,
        c.storage.wm() == RESERVED,
        c.storage.recs() == Map::<u32, u32>::empty(),
        c.blockchain.spec_params() == Seq::<(u32, Vec<u8>)>::empty(),
        c.blockchain.spec_seed() == 0,
{
    MockContext { blockchain: mock_blockchain(), storage: mock_storage(storage_size) }
}

} // verus!
