//! The storage substrate: a flat byte region addressed by 32-bit offsets,
//! with bounds-checked primitive reads and writes, a bump allocator, and a
//! small stack of root offsets by which a later invocation finds its
//! top-level containers. Offset `0` is the null sentinel; the allocator
//! never returns it.

use vstd::prelude::*;
use vstd::bytes::*;
use crate::codec::Codec;
use crate::error::Error;

verus! {

/// A 32-bit index into the storage region; `0` means "absent".
pub type Offset = u32;

/// Width in bytes of a stored offset.
pub const OFFSET_SIZE: u32 = 4;

/// Number of root-offset stack slots in the reserved prefix.
pub const STACK_SLOTS: u32 = 8;

/// Bytes reserved at the start of the region: room for the allocator's
/// watermark and the root-offset stack. User allocations begin here, so no
/// allocation is ever at offset `0`.
pub const RESERVED: u32 = 36;

/// The 32-bit little-endian value stored at `off`.
pub open spec fn u32_at(m: Seq<u8>, off: int) -> u32 {
    spec_u32_from_le_bytes(m.subrange(off, off + 4))
}

/// The 16-bit little-endian value stored at `off`.
pub open spec fn u16_at(m: Seq<u8>, off: int) -> u16 {
    spec_u16_from_le_bytes(m.subrange(off, off + 2))
}

/// The root-stack slot `i` (1-based) as stored in the region.
pub open spec fn stack_at(m: Seq<u8>, i: int) -> u32 {
    u32_at(m, 4 + (i - 1) * 4)
}

/// The flat byte region together with its bump allocator. The ghost record
/// map remembers each allocation's offset and length; the invariant that
/// records never overlap is what lets a container reason that writing one
/// of its records disturbs no other structure in the region.
pub struct Storage {
    data: Vec<u8>,
    watermark: u32,
    records: Ghost<Map<u32, u32>>,
}

/// Does byte `i` fall inside some record of `p` (as recorded in `s`)?
pub open spec fn rec_touches(s: Storage, p: Set<u32>, i: int) -> bool {
    exists|o: u32|
        #[trigger] p.contains(o) && s.recs().dom().contains(o) && o <= i < o + s.recs()[o]
}

/// How one storage state may evolve into another when a structure mutates:
/// the region keeps its length, the watermark only grows, existing records
/// survive unchanged, new records are above the old watermark, and every
/// byte below the old watermark outside the touched records is preserved.
pub open spec fn evolves(s0: Storage, s1: Storage, touched: Set<u32>) -> bool {
    &&& s1.mem().len() == s0.mem().len()
    &&& s0.wm() <= s1.wm()
    &&& forall|o: u32| #[trigger]
        s0.recs().dom().contains(o) ==> s1.recs().dom().contains(o) && s1.recs()[o]
            == s0.recs()[o]
    &&& forall|o: u32| #[trigger]
        s1.recs().dom().contains(o) && !s0.recs().dom().contains(o) ==> o >= s0.wm()
    &&& forall|i: int|
        0 <= i < s0.wm() && !rec_touches(s0, touched, i) ==> s1.mem()[i] == #[trigger] s0.mem()[
            i
        ]
}

impl Storage {
    /// The bytes of the region.
    pub closed spec fn mem(self) -> Seq<u8> {
        self.data@
    }

    /// The allocator's watermark: the next offset to be handed out.
    pub closed spec fn wm(self) -> u32 {
        self.watermark
    }

    /// The allocations made so far, each offset mapped to its length.
    pub closed spec fn recs(self) -> Map<u32, u32> {
        self.records@
    }

    /// Validity of the substrate: the watermark stays within the region,
    /// offsets fit 32 bits, and allocated records sit pairwise disjoint
    /// between the reserved prefix and the watermark.
    pub open spec fn inv(self) -> bool {
        &&& RESERVED <= self.wm() as int <= self.mem().len()
        &&& self.mem().len() <= u32::MAX
        &&& forall|o: u32| #[trigger]
            self.recs().dom().contains(o) ==> RESERVED <= o && 1 <= self.recs()[o] && o
                + self.recs()[o] <= self.wm()
        &&& forall|o1: u32, o2: u32|
            #![trigger self.recs()[o1], self.recs()[o2]]
            self.recs().dom().contains(o1) && self.recs().dom().contains(o2) && o1 != o2 ==> o1
                + self.recs()[o1] <= o2 || o2 + self.recs()[o2] <= o1
    }

    /// The region's size in bytes.
    pub fn size(&self) -> (n: usize)
        ensures
            n == self.mem().len(),
    {
        self.data.len()
    }

    /// Reserves `length` bytes by bumping the watermark; returns the
    /// pre-bump watermark, which is never `0`. Fails with `OutOfSpace`
    /// exactly when the request does not fit in the region.
    pub fn allocate(&mut self, length: u32) -> (r: Result<Offset, Error>)
        requires
            old(self).inv(),
        ensures
            final(self).inv(),
            final(self).mem().len() == old(self).mem().len(),
            match r {
                Ok(off) => {
                    &&& off == old(self).wm()
                    &&& off != 0
                    &&& !old(self).recs().dom().contains(off)
                    &&& off + length <= old(self).mem().len()
                    &&& final(self).wm() == off + length
                    &&& final(self).mem() == old(self).mem()
                    &&& final(self).recs() == if length >= 1 {
                        old(self).recs().insert(off, length)
                    } else {
                        old(self).recs()
                    }
                },
                Err(e) => {
                    &&& e == Error::OutOfSpace
                    &&& *final(self) == *old(self)
                    &&& old(self).wm() + length > old(self).mem().len()
                },
            },
    {
        if (length as u64) > (self.data.len() as u64) - (self.watermark as u64) {
            return Err(Error::OutOfSpace);
        }
        let off = self.watermark;
        self.watermark = self.watermark + length;
        if length >= 1 {
            proof {
                self.records@ = self.records@.insert(off, length);
                let r1 = self.records@;
                assert forall|o1: u32, o2: u32|
                    r1.dom().contains(o1) && r1.dom().contains(o2) && o1 != o2 implies o1
                    + #[trigger] r1[o1] <= o2 || o2 + #[trigger] r1[o2] <= o1 by {
                    if o1 == off {
                        assert(old(self).recs()[o2] == r1[o2]);
                    } else if o2 == off {
                        assert(old(self).recs()[o1] == r1[o1]);
                    } else {
                        assert(old(self).recs()[o1] == r1[o1]);
                        assert(old(self).recs()[o2] == r1[o2]);
                    }
                }
            }
        }
        Ok(off)
    }

    /// Reads `length` bytes starting at `offset`; fails with `OutOfBounds`
    /// exactly when the window crosses the region's end.
    pub fn read_bytes(&self, offset: u32, length: u32) -> (r: Result<Vec<u8>, Error>)
        ensures
            match r {
                Ok(b) => offset + length <= self.mem().len() && b@ == self.mem().subrange(
                    offset as int,
                    offset + length,
                ),
                Err(e) => e == Error::OutOfBounds && offset + length > self.mem().len(),
            },
    {
        if (offset as u64) + (length as u64) > (self.data.len() as u64) {
            return Err(Error::OutOfBounds);
        }
        let dlen = self.data.len();
        let mut b: Vec<u8> = Vec::new();
        let mut i: u32 = 0;
        while i < length
            invariant
                0 <= i <= length,
                dlen == self.mem().len(),
                offset + length <= self.mem().len(),
                b@ == self.mem().subrange(offset as int, offset + i),
            decreases length - i,
        {
            b.push(self.data[offset as usize + i as usize]);
            i = i + 1;
            proof {
                assert(b@ =~= self.mem().subrange(offset as int, offset + i));
            }
        }
        Ok(b)
    }

    /// Writes `bytes` starting at `offset`; fails with `OutOfBounds`
    /// exactly when the window crosses the region's end. Only the window's
    /// bytes change; the allocator and record state are untouched.
    pub fn write_bytes(&mut self, offset: u32, bytes: &[u8]) -> (r: Result<(), Error>)
        ensures
            final(self).wm() == old(self).wm(),
            final(self).recs() == old(self).recs(),
            final(self).mem().len() == old(self).mem().len(),
            match r {
                Ok(()) => offset + bytes@.len() <= old(self).mem().len() && forall|i: int|
                    0 <= i < old(self).mem().len() ==> final(self).mem()[i] == (if offset <= i
                        < offset + bytes@.len() {
                        bytes@[i - offset]
                    } else {
                        old(self).mem()[i]
                    }),
                Err(e) => e == Error::OutOfBounds && offset + bytes@.len() > old(self).mem().len()
                    && final(self).mem() == old(self).mem(),
            },
    {
        if bytes.len() > self.data.len() || (offset as usize) > self.data.len() - bytes.len() {
            return Err(Error::OutOfBounds);
        }
        let ghost m0 = self.data@;
        let dlen = self.data.len();
        let mut i: usize = 0;
        while i < bytes.len()
            invariant
                0 <= i <= bytes@.len(),
                dlen == m0.len(),
                offset + bytes@.len() <= m0.len(),
                self.data@.len() == m0.len(),
                self.watermark == old(self).watermark,
                self.records == old(self).records,
                forall|j: int|
                    0 <= j < m0.len() ==> self.data@[j] == (if offset <= j < offset + i {
                        bytes@[j - offset]
                    } else {
                        m0[j]
                    }),
            decreases bytes@.len() - i,
        {
            self.data.set(offset as usize + i, bytes[i]);
            i = i + 1;
        }
        Ok(())
    }

    /// Reads the typed record at `offset`: exactly `T::plen` bytes,
    /// decoded by `T`'s codec.
    pub fn read<T: Codec>(&self, offset: u32) -> (r: Result<T, Error>)
        ensures
            match r {
                Ok(v) => offset + T::plen() <= self.mem().len() && T::dec(
                    self.mem().subrange(offset as int, offset + T::plen()),
                ) == Some(v),
                Err(e) => (e == Error::OutOfBounds && offset + T::plen() > self.mem().len()) || (e
                    == Error::InvalidEncoding && offset + T::plen() <= self.mem().len() && T::dec(
                    self.mem().subrange(offset as int, offset + T::plen()),
                ) is None),
            },
    {
        let n = T::packed_len();
        let b = self.read_bytes(offset, n as u32)?;
        T::decode(b.as_slice())
    }

    /// Writes the typed record `value` at `offset`: exactly `T::plen`
    /// bytes, encoded by `T`'s codec.
    pub fn write<T: Codec>(&mut self, offset: u32, value: &T) -> (r: Result<(), Error>)
        ensures
            final(self).wm() == old(self).wm(),
            final(self).recs() == old(self).recs(),
            final(self).mem().len() == old(self).mem().len(),
            match r {
                Ok(()) => offset + T::plen() <= old(self).mem().len() && forall|i: int|
                    0 <= i < old(self).mem().len() ==> final(self).mem()[i] == (if offset <= i
                        < offset + T::plen() {
                        value.enc()[i - offset]
                    } else {
                        old(self).mem()[i]
                    }),
                Err(e) => e == Error::OutOfBounds && offset + T::plen() > old(self).mem().len()
                    && final(self).mem() == old(self).mem(),
            },
    {
        let b = value.encode();
        self.write_bytes(offset, b.as_slice())
    }

    /// Reads the 4-byte little-endian value at `offset`.
    pub fn read_u32(&self, offset: u32) -> (r: Result<u32, Error>)
        ensures
            match r {
                Ok(v) => offset + 4 <= self.mem().len() && v == u32_at(self.mem(), offset as int),
                Err(e) => e == Error::OutOfBounds && offset + 4 > self.mem().len(),
            },
    {
        let b = self.read_bytes(offset, 4)?;
        Ok(u32_from_le_bytes(b.as_slice()))
    }

    /// Writes `value` as 4 little-endian bytes at `offset`.
    pub fn write_u32(&mut self, offset: u32, value: u32) -> (r: Result<(), Error>)
        ensures
            final(self).wm() == old(self).wm(),
            final(self).recs() == old(self).recs(),
            final(self).mem().len() == old(self).mem().len(),
            match r {
                Ok(()) => {
                    &&& offset + 4 <= old(self).mem().len()
                    &&& u32_at(final(self).mem(), offset as int) == value
                    &&& forall|i: int|
                        0 <= i < old(self).mem().len() && !(offset <= i < offset + 4)
                            ==> final(self).mem()[i] == old(self).mem()[i]
                },
                Err(e) => e == Error::OutOfBounds && offset + 4 > old(self).mem().len()
                    && final(self).mem() == old(self).mem(),
            },
    {
        let b = u32_to_le_bytes(value);
        let r = self.write_bytes(offset, b.as_slice());
        match r {
            Ok(()) => {
                proof {
                    lemma_auto_spec_u32_to_from_le_bytes();
                    assert(self.mem().subrange(offset as int, offset + 4) =~= b@);
                }
                Ok(())
            },
            Err(e) => Err(e),
        }
    }

    /// Reads root-stack slot `index` (1-based); fails with `StackOverflow`
    /// when the index is outside `1..=STACK_SLOTS`.
    pub fn read_stack_at(&self, index: u32) -> (r: Result<Offset, Error>)
        requires
            self.inv(),
        ensures
            match r {
                Ok(v) => 1 <= index <= STACK_SLOTS && v == stack_at(self.mem(), index as int),
                Err(e) => e == Error::StackOverflow && !(1 <= index <= STACK_SLOTS),
            },
    {
        if index < 1 || index > STACK_SLOTS {
            return Err(Error::StackOverflow);
        }
        let r = self.read_u32(4 + (index - 1) * 4);
        match r {
            Ok(v) => Ok(v),
            Err(_) => {
                proof {
                    assert(false);
                }
                Err(Error::StackOverflow)
            },
        }
    }

    /// Fills root-stack slot `index` (1-based) with `offset`; fails with
    /// `StackOverflow` when the index is outside `1..=STACK_SLOTS`.
    pub fn fill_stack_at(&mut self, index: u32, offset: Offset) -> (r: Result<(), Error>)
        requires
            old(self).inv(),
        ensures
            final(self).inv(),
            final(self).wm() == old(self).wm(),
            final(self).recs() == old(self).recs(),
            final(self).mem().len() == old(self).mem().len(),
            match r {
                Ok(()) => {
                    &&& 1 <= index <= STACK_SLOTS
                    &&& stack_at(final(self).mem(), index as int) == offset
                    &&& forall|i: int|
                        0 <= i < old(self).mem().len() && !(4 + (index - 1) * 4 <= i < 4 + (index
                            - 1) * 4 + 4) ==> final(self).mem()[i] == old(self).mem()[i]
                },
                Err(e) => e == Error::StackOverflow && !(1 <= index <= STACK_SLOTS)
                    && final(self).mem() == old(self).mem(),
            },
    {
        if index < 1 || index > STACK_SLOTS {
            return Err(Error::StackOverflow);
        }
        let r = self.write_u32(4 + (index - 1) * 4, offset);
        match r {
            Ok(()) => Ok(()),
            Err(_) => {
                proof {
                    assert(false);
                }
                Err(Error::StackOverflow)
            },
        }
    }
}

/// Creates an in-memory storage region of `storage_size` zeroed bytes,
/// for tests and for hosts that keep the region in a buffer.
pub fn mock_storage(storage_size: usize) -> (s: Storage)
    requires
        RESERVED <= storage_size <= u32::MAX,
    ensures
        s.inv(),
        s.mem().len() == storage_size,
        s.wm() == RESERVED,
        s.recs() == Map::<u32, u32>::empty(),
        forall|i: int| 0 <= i < storage_size ==> s.mem()[i] == 0,
{
    let mut data: Vec<u8> = Vec::new();
    let mut i: usize = 0;
    while i < storage_size
        invariant
            0 <= i <= storage_size,
            data@.len() == i,
            forall|j: int| 0 <= j < i ==> data@[j] == 0,
        decreases storage_size - i,
    {
        data.push(0);
        i = i + 1;
    }
    Storage { data, watermark: RESERVED, records: Ghost(Map::empty()) }
}

/// Law: successive allocations return strictly increasing, non-overlapping
/// offsets, none equal to zero. The hypotheses are exactly what two
/// back-to-back successful calls of `allocate` ensure.
pub proof fn lemma_allocate_monotone(
    s0: Storage,
    s1: Storage,
    o1: u32,
    n1: u32,
    o2: u32,
)
    requires
        s0.inv(),
        o1 == s0.wm(),
        s1.wm() == o1 + n1,
        o2 == s1.wm(),
    ensures
        o1 != 0,
        o2 != 0,
        o1 + n1 <= o2,
        n1 >= 1 ==> o1 < o2,
{
}

/// Every byte of an untouched record keeps its value across an evolution
/// of the storage: the touched records are disjoint from it, and no other
/// write below the watermark is permitted by `evolves`.
pub proof fn lemma_rec_preserved(s0: Storage, s1: Storage, touched: Set<u32>, o: u32)
    requires
        s0.inv(),
        evolves(s0, s1, touched),
        s0.recs().dom().contains(o),
        !touched.contains(o),
    ensures
        s1.mem().subrange(o as int, o + s0.recs()[o]) == s0.mem().subrange(
            o as int,
            o + s0.recs()[o],
        ),
{
    assert forall|i: int| o <= i < o + s0.recs()[o] implies s1.mem()[i] == s0.mem()[i] by {
        if rec_touches(s0, touched, i) {
            let o2 = choose|o2: u32|
                #[trigger] touched.contains(o2) && s0.recs().dom().contains(o2) && o2 <= i < o2
                    + s0.recs()[o2];
            assert(o2 != o);
            assert(false);
        }
    }
    assert(s1.mem().subrange(o as int, o + s0.recs()[o]) =~= s0.mem().subrange(
        o as int,
        o + s0.recs()[o],
    ));
}

/// Evolutions compose: the touched sets accumulate.
pub proof fn lemma_evolves_trans(
    s0: Storage,
    s1: Storage,
    s2: Storage,
    t1: Set<u32>,
    t2: Set<u32>,
)
    requires
        evolves(s0, s1, t1),
        evolves(s1, s2, t2),
    ensures
        evolves(s0, s2, t1.union(t2)),
{
    assert forall|i: int|
        0 <= i < s0.wm() && !rec_touches(s0, t1.union(t2), i) implies s2.mem()[i] == s0.mem()[
        i
    ] by {
        if rec_touches(s0, t1, i) {
            let o = choose|o: u32|
                #[trigger] t1.contains(o) && s0.recs().dom().contains(o) && o <= i < o
                    + s0.recs()[o];
            assert(t1.union(t2).contains(o));
            assert(false);
        }
        assert(s1.mem()[i] == s0.mem()[i]);
        if rec_touches(s1, t2, i) {
            let o = choose|o: u32|
                #[trigger] t2.contains(o) && s1.recs().dom().contains(o) && o <= i < o
                    + s1.recs()[o];
            if s0.recs().dom().contains(o) {
                assert(s1.recs()[o] == s0.recs()[o]);
                assert(t1.union(t2).contains(o));
                assert(rec_touches(s0, t1.union(t2), i));
            } else {
                assert(o >= s0.wm());
            }
            assert(false);
        }
        assert(s2.mem()[i] == s1.mem()[i]);
    }
}

/// An evolution with a larger touched set is a weaker statement.
pub proof fn lemma_evolves_widen(s0: Storage, s1: Storage, t1: Set<u32>, t2: Set<u32>)
    requires
        evolves(s0, s1, t1),
        t1.subset_of(t2),
    ensures
        evolves(s0, s1, t2),
{
    assert forall|i: int|
        0 <= i < s0.wm() && !rec_touches(s0, t2, i) implies s1.mem()[i] == s0.mem()[i] by {
        assert(!rec_touches(s0, t1, i));
    }
}

} // verus!
