//! The blockchain capability facade as the containers' users see it, and
//! an in-memory mock of it for tests: a parameter table and a generator
//! of deterministic pseudo-random addresses seeded by a counter.

use vstd::prelude::*;
use vstd::bytes::*;
use rand::{Rng, SeedableRng};
use crate::codec::{Codec, KeyCodec};
use crate::error::{Error, HostError};

verus! {

/// Byte length of an account address; a host constant.
pub const ADDRESS_SIZE: u32 = 21;

/// An account address: 21 bytes, held as four little-endian words so that
/// the packed encoding is the byte string itself.
#[derive(Clone, Copy, PartialEq, Eq, Structural, Debug)]
pub struct Address {
    /// Bytes 0..8, little-endian.
    pub w0: u64,
    /// Bytes 8..16, little-endian.
    pub w1: u64,
    /// Bytes 16..20, little-endian.
    pub w2: u32,
    /// Byte 20.
    pub w3: u8,
}

/// The all-zero address, used as "no account".
pub fn address_zero() -> (a: Address)
    ensures
        a == (Address { w0: 0u64, w1: 0u64, w2: 0u32, w3: 0u8 }),
{
    Address { w0: 0, w1: 0, w2: 0, w3: 0 }
}

impl Address {
    /// Reads an address from its 21-byte string; any other length is an
    /// invalid encoding.
    pub fn from_bytes(bytes: &[u8]) -> (r: Result<Address, Error>)
        ensures
            match r {
                Ok(a) => bytes@.len() == 21 && Address::dec(bytes@) == Some(a),
                Err(e) => e == Error::InvalidEncoding && bytes@.len() != 21,
            },
    {
        if bytes.len() != 21 {
            return Err(Error::InvalidEncoding);
        }
        Address::decode(bytes)
    }
}

impl Codec for Address {
    open spec fn plen() -> nat {
        21
    }

    open spec fn enc(self) -> Seq<u8> {
        spec_u64_to_le_bytes(self.w0) + spec_u64_to_le_bytes(self.w1) + spec_u32_to_le_bytes(
            self.w2,
        ) + seq![self.w3]
    }

    open spec fn dec(b: Seq<u8>) -> Option<Address> {
        if b.len() == 21 {
            Some(
                Address {
                    w0: spec_u64_from_le_bytes(b.subrange(0, 8)),
                    w1: spec_u64_from_le_bytes(b.subrange(8, 16)),
                    w2: spec_u32_from_le_bytes(b.subrange(16, 20)),
                    w3: b[20],
                },
            )
        } else {
            None
        }
    }

    proof fn lemma_plen_bounds() {
    }

    proof fn lemma_round_trip(v: Address) {
        lemma_auto_spec_u64_to_from_le_bytes();
        lemma_auto_spec_u32_to_from_le_bytes();
        let e = v.enc();
        assert(e.subrange(0, 8) =~= spec_u64_to_le_bytes(v.w0));
        assert(e.subrange(8, 16) =~= spec_u64_to_le_bytes(v.w1));
        assert(e.subrange(16, 20) =~= spec_u32_to_le_bytes(v.w2));
        assert(e[20] == v.w3);
    }

    fn packed_len() -> (n: u16) {
        21
    }

    fn encode(&self) -> (b: Vec<u8>) {
        let mut b = u64_to_le_bytes(self.w0);
        let mut b1 = u64_to_le_bytes(self.w1);
        let mut b2 = u32_to_le_bytes(self.w2);
        b.append(&mut b1);
        b.append(&mut b2);
        b.push(self.w3);
        proof {
            assert(b@ =~= self.enc());
        }
        b
    }

    fn decode(b: &[u8]) -> (r: Result<Address, Error>) {
        let ghost whole = b@;
        let w0b = vstd::slice::slice_subrange(b, 0, 8);
        let w1b = vstd::slice::slice_subrange(b, 8, 16);
        let w2b = vstd::slice::slice_subrange(b, 16, 20);
        let a = Address {
            w0: u64_from_le_bytes(w0b),
            w1: u64_from_le_bytes(w1b),
            w2: u32_from_le_bytes(w2b),
            w3: *vstd::slice::slice_index_get(b, 20),
        };
        Ok(a)
    }
}

impl KeyCodec for Address {
    open spec fn key_le(a: Address, b: Address) -> bool {
        if a.w0 != b.w0 {
            a.w0 <= b.w0
        } else if a.w1 != b.w1 {
            a.w1 <= b.w1
        } else if a.w2 != b.w2 {
            a.w2 <= b.w2
        } else {
            a.w3 <= b.w3
        }
    }

    proof fn lemma_le_total(a: Address, b: Address) {
    }

    proof fn lemma_le_antisym(a: Address, b: Address) {
    }

    proof fn lemma_le_trans(a: Address, b: Address, c: Address) {
    }

    fn key_eq(&self, other: &Address) -> (r: bool) {
        self.w0 == other.w0 && self.w1 == other.w1 && self.w2 == other.w2 && self.w3 == other.w3
    }

    fn key_lte(&self, other: &Address) -> (r: bool) {
        if self.w0 != other.w0 {
            self.w0 <= other.w0
        } else if self.w1 != other.w1 {
            self.w1 <= other.w1
        } else if self.w2 != other.w2 {
            self.w2 <= other.w2
        } else {
            self.w3 <= other.w3
        }
    }
}

/// The first parameter value stored under `id`, scanning the latest
/// entries first.
pub open spec fn param_lookup(ps: Seq<(u32, Vec<u8>)>, id: u32) -> Option<Seq<u8>>
    decreases ps.len(),
{
    if ps.len() == 0 {
        None
    } else if ps.last().0 == id {
        Some(ps.last().1@)
    } else {
        param_lookup(ps.drop_last(), id)
    }
}

/// Relies on rand::rngs::SmallRng (seeded from the counter) and
/// rand::Rng::fill: fills a fixed buffer with pseudo-random bytes.
/// Nothing is promised of the values, only the length.
#[verifier::external_body]
fn random_address_bytes(seed: u64) -> (r: Vec<u8>)
    ensures
        r@.len() == 21,
{
    let mut small_rng = rand::rngs::SmallRng::seed_from_u64(seed);
    let mut buf = [0u8; 21];
    small_rng.fill(&mut buf);
    buf.to_vec()
}

/// Mocks the blockchain for testing: parameters are a table in memory,
/// the message sender is settable, and addresses come from a seeded
/// pseudo-random generator.
pub struct MockBlockchain {
    params: Vec<(u32, Vec<u8>)>,
    addr_gen_seed: u64,
    msg_sender: Address,
}

impl MockBlockchain {
    /// The parameter table.
    pub closed spec fn spec_params(self) -> Seq<(u32, Vec<u8>)> {
        self.params@
    }

    /// The address-generator counter.
    pub closed spec fn spec_seed(self) -> u64 {
        self.addr_gen_seed
    }

    /// The mocked message sender.
    pub closed spec fn spec_sender(self) -> Address {
        self.msg_sender
    }

    /// Instantiates a new blockchain mock.
    pub fn new() -> (b: MockBlockchain)
        ensures
            b.spec_params() == Seq::<(u32, Vec<u8>)>::empty(),
            b.spec_seed() == 0,
            b.spec_sender() == (Address { w0: 0u64, w1: 0u64, w2: 0u32, w3: 0u8 }),
    {
        MockBlockchain { params: Vec::new(), addr_gen_seed: 0, msg_sender: address_zero() }
    }

    /// Generates a fresh pseudo-random address for testing: the counter
    /// steps and seeds the generator, so a run is reproducible.
    pub fn generate_new_address(&mut self) -> (a: Address)
        requires
            old(self).spec_seed() < u64::MAX,
        ensures
            final(self).spec_seed() == old(self).spec_seed() + 1,
            final(self).spec_params() == old(self).spec_params(),
            final(self).spec_sender() == old(self).spec_sender(),
    {
        self.addr_gen_seed = self.addr_gen_seed + 1;
        let buf = random_address_bytes(self.addr_gen_seed);
        match Address::from_bytes(buf.as_slice()) {
            Ok(a) => a,
            Err(_) => {
                proof {
                    assert(false);
                }
                address_zero()
            },
        }
    }

    /// Stores a parameter value under `id`; later stores shadow earlier
    /// ones.
    pub fn set_param(&mut self, param_id: u32, value: Vec<u8>)
        ensures
            final(self).spec_params() == old(self).spec_params().push((param_id, value)),
            param_lookup(final(self).spec_params(), param_id) == Some(value@),
            forall|id2: u32|
                id2 != param_id ==> #[trigger] param_lookup(final(self).spec_params(), id2)
                    == param_lookup(old(self).spec_params(), id2),
            final(self).spec_seed() == old(self).spec_seed(),
            final(self).spec_sender() == old(self).spec_sender(),
    {
        self.params.push((param_id, value));
        proof {
            assert(self.params@.drop_last() =~= old(self).params@);
        }
    }

    /// Reads the parameter value stored under `id`. The caller must have
    /// stored one; asking for an absent parameter is a programmer error.
    pub fn get_param(&self, param_id: u32) -> (r: Result<Vec<u8>, HostError>)
        requires
            param_lookup(self.spec_params(), param_id) is Some,
        ensures
            match r {
                Ok(v) => Some(v@) == param_lookup(self.spec_params(), param_id),
                Err(_) => false,
            },
    {
        let mut i: usize = self.params.len();
        proof {
            assert(self.params@.subrange(0, self.params@.len() as int) =~= self.params@);
        }
        while i > 0
            invariant
                0 <= i <= self.params@.len(),
                param_lookup(self.spec_params(), param_id) is Some,
                param_lookup(self.params@.subrange(0, i as int), param_id) == param_lookup(
                    self.spec_params(),
                    param_id,
                ),
            decreases i,
        {
            i = i - 1;
            let entry = &self.params[i];
            proof {
                assert(self.params@.subrange(0, i + 1).drop_last() =~= self.params@.subrange(
                    0,
                    i as int,
                ));
                assert(self.params@.subrange(0, i + 1).last() == self.params@[i as int]);
            }
            if entry.0 == param_id {
                let mut out: Vec<u8> = Vec::new();
                let mut j: usize = 0;
                while j < entry.1.len()
                    invariant
                        0 <= j <= entry.1@.len(),
                        out@ == entry.1@.subrange(0, j as int),
                        entry == self.params@[i as int],
                        i < self.params@.len(),
                    decreases entry.1@.len() - j,
                {
                    out.push(entry.1[j]);
                    j = j + 1;
                    proof {
                        assert(out@ =~= entry.1@.subrange(0, j as int));
                    }
                }
                proof {
                    assert(out@ =~= entry.1@);
                }
                return Ok(out);
            }
        }
        proof {
            assert(self.params@.subrange(0, 0) =~= Seq::<(u32, Vec<u8>)>::empty());
            assert(false);
        }
        Err(HostError { code: 0 })
    }

    /// Sets the mocked message sender.
    pub fn set_msg_sender(&mut self, sender: &Address)
        ensures
            final(self).spec_sender() == *sender,
            final(self).spec_params() == old(self).spec_params(),
            final(self).spec_seed() == old(self).spec_seed(),
    {
        self.msg_sender = *sender;
    }

    /// Reads the mocked message sender.
    pub fn get_message_sender(&self) -> (r: Result<Address, HostError>)
        ensures
            r == Ok::<Address, HostError>(self.spec_sender()),
    {
        Ok(self.msg_sender)
    }
}

impl Default for MockBlockchain {
    fn default() -> (b: MockBlockchain)
        ensures
            b.spec_params() == Seq::<(u32, Vec<u8>)>::empty(),
            b.spec_seed() == 0,
    {
        MockBlockchain::new()
    }
}

/// Mocks the blockchain for testing.
pub fn mock_blockchain() -> (b: MockBlockchain)
    ensures
        b.spec_params() == Seq::<(u32, Vec<u8>)>::empty(),
        b.spec_seed() == 0,
{
    MockBlockchain::new()
}

} // verus!
