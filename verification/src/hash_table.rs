//! Storage hash table: a fixed-size bucket array whose non-empty slots
//! hold the header offsets of storage binary search trees. A key's bucket
//! is its 32-bit FNV hash of the canonical packed encoding, modulo the
//! table size; every key stored under a bucket hashes to that bucket.

use vstd::prelude::*;
use core::marker::PhantomData;
use crate::bst::{
    bst_foot, bst_map_at, bst_valid_at, hdr_at, lemma_bst_foot_live, lemma_bst_frame, nlen,
    StorageBST,
};
use crate::codec::{Codec, KeyCodec};
use crate::error::Error;
use crate::storage::{
    evolves, lemma_evolves_trans, lemma_evolves_widen, lemma_rec_preserved, rec_touches, u16_at,
    u32_at, Offset, Storage, OFFSET_SIZE,
};

verus! {

/// What the 64-bit FNV-1a digest of a byte sequence is: a function of the
/// bytes alone, the same in every process.
pub uninterp spec fn fnv64_of(bytes: Seq<u8>) -> u64;

/// Relies on fnv::FnvHasher (64-bit FNV-1a): writing a byte slice into a
/// fresh hasher and finishing yields a digest that depends on the byte
/// sequence alone.
#[verifier::external_body]
fn fnv64(bytes: &[u8]) -> (r: u64)
    ensures
        r == fnv64_of(bytes@),
{
    let mut state = fnv::FnvHasher::default();
    core::hash::Hasher::write(&mut state, bytes);
    core::hash::Hasher::finish(&state)
}

/// The 32-bit hash of a key: the FNV digest of its packed encoding,
/// truncated.
pub open spec fn hash_of<K: Codec>(k: K) -> u32 {
    fnv64_of(k.enc()) as u32
}

/// The bucket a key belongs to in a table of `m` buckets.
pub open spec fn bucket_of<K: Codec>(k: K, m: u32) -> u32
    recommends
        m >= 1,
{
    hash_of(k) % m
}

/// Hashes a key by its canonical packed encoding.
fn compute_hash<K: Codec>(key: &K) -> (r: u32)
    ensures
        r == hash_of(*key),
{
    let b = key.encode();
    fnv64(b.as_slice()) as u32
}

/// The table's header record: element count, the packed lengths the table
/// was created with, and the bucket array's offset and size.
pub struct Header {
    /// Number of items in the table.
    pub items: u32,
    /// Packed byte length of a key.
    pub key_len: u16,
    /// Packed byte length of a value.
    pub value_len: u16,
    /// Offset of the bucket array.
    pub table_offset: Offset,
    /// Number of buckets.
    pub table_size: u32,
}

impl Header {
    /// An empty header for a table of keys `K` and values `V`.
    pub fn new<K: Codec, V: Codec>(table_size: u32, table_offset: Offset) -> (h: Header)
        ensures
            h == (Header {
                items: 0,
                key_len: (K::plen() as u16),
                value_len: (V::plen() as u16),
                table_offset,
                table_size,
            }),
    {
        Header {
            items: 0,
            key_len: K::packed_len(),
            value_len: V::packed_len(),
            table_offset,
            table_size,
        }
    }
}

/// The table header fields as stored at `h`.
pub open spec fn hhdr_at(s: Storage, h: u32) -> Header {
    Header {
        items: u32_at(s.mem(), h as int),
        key_len: u16_at(s.mem(), h + 4),
        value_len: u16_at(s.mem(), h + 6),
        table_offset: u32_at(s.mem(), h + 8),
        table_size: u32_at(s.mem(), h + 12),
    }
}

/// The tree offset stored in bucket `b` of the array at `toff`.
pub open spec fn bucket_at(s: Storage, toff: u32, b: int) -> u32 {
    u32_at(s.mem(), toff + 4 * b)
}

/// Bucket `b` is sound: empty, or the home of a valid tree all of whose
/// keys hash to `b`, clear of the table's header and bucket array.
pub open spec fn bucket_ok<K: KeyCodec, V: Codec>(
    s: Storage,
    h: u32,
    toff: u32,
    m: u32,
    b: int,
) -> bool {
    let bo = bucket_at(s, toff, b);
    bo == 0 || {
        &&& bst_valid_at::<K, V>(s, bo)
        &&& (forall|k: K| #[trigger]
            bst_map_at::<K, V>(s, bo).dom().contains(k) ==> bucket_of::<K>(k, m) == b)
        &&& !bst_foot::<K, V>(s, bo).contains(h)
        &&& !bst_foot::<K, V>(s, bo).contains(toff)
    }
}

/// The records of the buckets' trees, for buckets below `b`.
pub open spec fn buckets_foot<K: KeyCodec, V: Codec>(s: Storage, toff: u32, b: int) -> Set<u32>
    decreases b,
{
    if b <= 0 {
        Set::empty()
    } else {
        buckets_foot::<K, V>(s, toff, b - 1).union(
            if bucket_at(s, toff, b - 1) != 0 {
                bst_foot::<K, V>(s, bucket_at(s, toff, b - 1))
            } else {
                Set::empty()
            },
        )
    }
}

/// A serialized hash table for keys `K` and values `V` lives at header
/// offset `h`.
pub open spec fn ht_valid_at<K: KeyCodec, V: Codec>(s: Storage, h: u32) -> bool {
    let hdr = hhdr_at(s, h);
    &&& h + 16 <= s.mem().len()
    &&& s.recs().dom().contains(h)
    &&& s.recs()[h] == 16
    &&& hdr.key_len == K::plen()
    &&& hdr.value_len == V::plen()
    &&& hdr.table_size >= 1
    &&& s.recs().dom().contains(hdr.table_offset)
    &&& s.recs()[hdr.table_offset] == 4 * hdr.table_size
    &&& hdr.table_offset != h
    &&& (forall|b: int|
        0 <= b < hdr.table_size ==> #[trigger] bucket_ok::<K, V>(
            s,
            h,
            hdr.table_offset,
            hdr.table_size,
            b,
        ))
    &&& (forall|b1: int, b2: int|
        #![trigger bucket_at(s, hdr.table_offset, b1), bucket_at(s, hdr.table_offset, b2)]
        0 <= b1 < hdr.table_size && 0 <= b2 < hdr.table_size && b1 != b2 && bucket_at(
            s,
            hdr.table_offset,
            b1,
        ) != 0 && bucket_at(s, hdr.table_offset, b2) != 0 ==> bst_foot::<K, V>(
            s,
            bucket_at(s, hdr.table_offset, b1),
        ).disjoint(bst_foot::<K, V>(s, bucket_at(s, hdr.table_offset, b2))))
    &&& (hdr.items == 0 ==> forall|b: int|
        0 <= b < hdr.table_size ==> #[trigger] bucket_at(s, hdr.table_offset, b) == 0)
}

/// The map held by the table whose header is at `h`: a key is present
/// exactly when its own bucket's tree holds it.
pub open spec fn ht_map_at<K: KeyCodec, V: Codec>(s: Storage, h: u32) -> Map<K, V> {
    let hdr = hhdr_at(s, h);
    Map::new(
        |k: K|
            bucket_at(s, hdr.table_offset, bucket_of::<K>(k, hdr.table_size) as int) != 0
                && bst_map_at::<K, V>(
                s,
                bucket_at(s, hdr.table_offset, bucket_of::<K>(k, hdr.table_size) as int),
            ).dom().contains(k),
        |k: K|
            bst_map_at::<K, V>(
                s,
                bucket_at(s, hdr.table_offset, bucket_of::<K>(k, hdr.table_size) as int),
            )[k],
    )
}

/// The records of the table whose header is at `h`: its header, its
/// bucket array, and its buckets' trees.
pub open spec fn ht_foot<K: KeyCodec, V: Codec>(s: Storage, h: u32) -> Set<u32> {
    buckets_foot::<K, V>(s, hhdr_at(s, h).table_offset, hhdr_at(s, h).table_size as int).insert(
        h,
    ).insert(hhdr_at(s, h).table_offset)
}

/// A non-empty bucket's tree records all sit inside the buckets' joint
/// footprint.
proof fn lemma_buckets_foot_contains<K: KeyCodec, V: Codec>(s: Storage, toff: u32, b: int, hi: int)
    requires
        0 <= b < hi,
        bucket_at(s, toff, b) != 0,
    ensures
        bst_foot::<K, V>(s, bucket_at(s, toff, b)).subset_of(
            buckets_foot::<K, V>(s, toff, hi),
        ),
    decreases hi,
{
    if b < hi - 1 {
        lemma_buckets_foot_contains::<K, V>(s, toff, b, hi - 1);
    }
}

/// Reads the 16-byte table header record at `off`.
fn read_hheader(s: &Storage, off: u32) -> (h: Header)
    requires
        s.inv(),
        off + 16 <= s.mem().len(),
    ensures
        h == hhdr_at(*s, off),
{
    let items = match s.read_u32(off) {
        Ok(v) => v,
        Err(_) => {
            proof {
                assert(false);
            }
            0
        },
    };
    let kb = match s.read_bytes(off + 4, 2) {
        Ok(b) => b,
        Err(_) => {
            proof {
                assert(false);
            }
            Vec::new()
        },
    };
    let vb = match s.read_bytes(off + 6, 2) {
        Ok(b) => b,
        Err(_) => {
            proof {
                assert(false);
            }
            Vec::new()
        },
    };
    let table_offset = match s.read_u32(off + 8) {
        Ok(v) => v,
        Err(_) => {
            proof {
                assert(false);
            }
            0
        },
    };
    let table_size = match s.read_u32(off + 12) {
        Ok(v) => v,
        Err(_) => {
            proof {
                assert(false);
            }
            0
        },
    };
    Header {
        items,
        key_len: vstd::bytes::u16_from_le_bytes(kb.as_slice()),
        value_len: vstd::bytes::u16_from_le_bytes(vb.as_slice()),
        table_offset,
        table_size,
    }
}

/// Encodes and writes the table header record `h` at `off`. Touches
/// exactly the header's window.
fn write_hheader(s: &mut Storage, off: u32, h: &Header)
    requires
        old(s).inv(),
        off + 16 <= old(s).mem().len(),
    ensures
        final(s).wm() == old(s).wm(),
        final(s).recs() == old(s).recs(),
        final(s).mem().len() == old(s).mem().len(),
        forall|i: int|
            0 <= i < old(s).mem().len() && !(off <= i < off + 16) ==> final(s).mem()[i]
                == old(s).mem()[i],
        hhdr_at(*final(s), off) == *h,
{
    let r1 = s.write_u32(off, h.items);
    proof {
        if r1 is Err {
            assert(false);
        }
    }
    let ghost sa = *s;
    let r2 = s.write(off + 4, &h.key_len);
    proof {
        if r2 is Err {
            assert(false);
        }
    }
    let ghost sb = *s;
    let r3 = s.write(off + 6, &h.value_len);
    proof {
        if r3 is Err {
            assert(false);
        }
    }
    let ghost sc = *s;
    let r4 = s.write_u32(off + 8, h.table_offset);
    proof {
        if r4 is Err {
            assert(false);
        }
    }
    let ghost sd = *s;
    let r5 = s.write_u32(off + 12, h.table_size);
    proof {
        if r5 is Err {
            assert(false);
        }
        vstd::bytes::lemma_auto_spec_u16_to_from_le_bytes();
        vstd::bytes::lemma_auto_spec_u32_to_from_le_bytes();
        u16::lemma_round_trip(h.key_len);
        u16::lemma_round_trip(h.value_len);
        assert(s.mem().subrange(off as int, off + 4) =~= sa.mem().subrange(off as int, off + 4));
        assert(u32_at(sa.mem(), off as int) == h.items);
        assert(s.mem().subrange(off + 4, off + 6) =~= sb.mem().subrange(off + 4, off + 6));
        assert(sb.mem().subrange(off + 4, off + 6) =~= h.key_len.enc());
        assert(s.mem().subrange(off + 6, off + 8) =~= sc.mem().subrange(off + 6, off + 8));
        assert(sc.mem().subrange(off + 6, off + 8) =~= h.value_len.enc());
        assert(s.mem().subrange(off + 8, off + 12) =~= sd.mem().subrange(off + 8, off + 12));
        assert(u32_at(sd.mem(), off + 8) == h.table_offset);
        assert(u32_at(s.mem(), off + 12) == h.table_size);
    }
}

/// The persistent hash-table handle: the header offset and an in-memory
/// copy of the header, flushed to storage on every mutation.
pub struct StorageHashTable<K, V>
where K: KeyCodec, V: Codec {
    header_offset: Offset,
    header: Header,
    _phantom: PhantomData<(K, V)>,
}

impl<K: KeyCodec, V: Codec> StorageHashTable<K, V> {
    /// The offset of this table's header in the region.
    pub closed spec fn spec_offset(self) -> Offset {
        self.header_offset
    }

    /// The cached copy of the header.
    pub closed spec fn spec_header(self) -> Header {
        self.header
    }

    /// The number of items this handle believes the table holds.
    pub open spec fn spec_len(self) -> u32 {
        self.spec_header().items
    }

    /// The handle is coherent with the storage: a valid serialized table
    /// lives at its offset and the cached header matches the bytes.
    pub open spec fn wf(self, s: Storage) -> bool {
        &&& ht_valid_at::<K, V>(s, self.spec_offset())
        &&& self.spec_header() == hhdr_at(s, self.spec_offset())
    }

    /// The map this table holds in the given storage.
    pub open spec fn as_map(self, s: Storage) -> Map<K, V> {
        ht_map_at::<K, V>(s, self.spec_offset())
    }

    /// Creates a new empty table of `table_size` buckets: allocates a
    /// header record and a zeroed bucket array. Touches nothing below the
    /// old watermark; on failure the region below the old watermark is
    /// still untouched, though the header record may have been claimed.
    pub fn create(s: &mut Storage, table_size: u32) -> (r: Result<Self, Error>)
        requires
            old(s).inv(),
            1 <= table_size,
        ensures
            final(s).inv(),
            final(s).mem().len() == old(s).mem().len(),
            evolves(*old(s), *final(s), Set::empty()),
            match r {
                Ok(t) => {
                    &&& t.wf(*final(s))
                    &&& t.as_map(*final(s)) == Map::<K, V>::empty()
                    &&& t.spec_len() == 0
                    &&& t.spec_header().table_size == table_size
                    &&& t.spec_offset() == old(s).wm()
                    &&& old(s).wm() + 16 + 4 * table_size <= old(s).mem().len()
                },
                Err(e) => e == Error::OutOfSpace && old(s).wm() + 16 + 4 * table_size > old(
                    s,
                ).mem().len(),
            },
    {
        let ghost s0 = *old(s);
        let h = match s.allocate(16) {
            Ok(o) => o,
            Err(e) => {
                return Err(e);
            },
        };
        if table_size as u64 > (u32::MAX as u64) / 4 {
            proof {
                assert(evolves(s0, *s, Set::<u32>::empty()));
            }
            return Err(Error::OutOfSpace);
        }
        let toff = match s.allocate(table_size * 4) {
            Ok(o) => o,
            Err(e) => {
                proof {
                    assert(evolves(s0, *s, Set::<u32>::empty()));
                }
                return Err(e);
            },
        };
        let ghost sa = *s;
        // zero the bucket array: every bucket starts empty
        let mut b: u32 = 0;
        while b < table_size
            invariant
                0 <= b <= table_size,
                s.inv(),
                s.wm() == sa.wm(),
                s.recs() == sa.recs(),
                s.mem().len() == sa.mem().len(),
                toff + 4 * table_size <= sa.mem().len(),
                forall|i: int|
                    0 <= i < sa.mem().len() && !(toff <= i < toff + 4 * table_size)
                        ==> s.mem()[i] == sa.mem()[i],
                forall|j: int| 0 <= j < b ==> #[trigger] bucket_at(*s, toff, j) == 0,
            decreases table_size - b,
        {
            let ghost sprev = *s;
            let rw = s.write_u32(toff + b * 4, 0);
            proof {
                if rw is Err {
                    assert(false);
                }
                assert forall|j: int| 0 <= j < b + 1 implies #[trigger] bucket_at(*s, toff, j)
                    == 0 by {
                    if j < b {
                        assert(bucket_at(sprev, toff, j) == 0);
                        assert(s.mem().subrange(toff + 4 * j, toff + 4 * j + 4)
                            =~= sprev.mem().subrange(toff + 4 * j, toff + 4 * j + 4));
                    } else {
                        assert(u32_at(s.mem(), toff + b * 4) == 0);
                        assert(toff + 4 * j == toff + b * 4);
                    }
                }
            }
            b = b + 1;
        }
        let ghost sz = *s;
        let hdr = Header::new::<K, V>(table_size, toff);
        write_hheader(s, h, &hdr);
        proof {
            K::lemma_plen_bounds();
            V::lemma_plen_bounds();
            assert forall|i: int|
                0 <= i < s0.wm() && !rec_touches(s0, Set::empty(), i) implies s.mem()[i]
                == s0.mem()[i] by {}
            assert(evolves(s0, *s, Set::<u32>::empty()));
            assert forall|j: int| 0 <= j < table_size implies #[trigger] bucket_at(*s, toff, j)
                == 0 by {
                assert(bucket_at(sz, toff, j) == 0);
                assert(s.mem().subrange(toff + 4 * j, toff + 4 * j + 4) =~= sz.mem().subrange(
                    toff + 4 * j,
                    toff + 4 * j + 4,
                ));
            }
            assert forall|b2: int|
                0 <= b2 < table_size implies #[trigger] bucket_ok::<K, V>(
                *s,
                h,
                toff,
                table_size,
                b2,
            ) by {}
            assert(ht_map_at::<K, V>(*s, h) =~= Map::<K, V>::empty());
        }
        Ok(StorageHashTable { header_offset: h, header: hdr, _phantom: PhantomData })
    }

    /// Loads the table whose header record is at `offset`, checking that
    /// the stored packed lengths match `K` and `V`; a disagreement is a
    /// `CodecMismatch`, the caller's declared types being wrong.
    pub fn load(s: &Storage, offset: Offset) -> (r: Result<Self, Error>)
        requires
            s.inv(),
        ensures
            match r {
                Ok(t) => {
                    &&& offset + 16 <= s.mem().len()
                    &&& t.spec_offset() == offset
                    &&& t.spec_header() == hhdr_at(*s, offset)
                    &&& hhdr_at(*s, offset).key_len == K::plen()
                    &&& hhdr_at(*s, offset).value_len == V::plen()
                    &&& (ht_valid_at::<K, V>(*s, offset) ==> t.wf(*s) && t.as_map(*s)
                        == ht_map_at::<K, V>(*s, offset))
                },
                Err(e) => (e == Error::OutOfBounds && offset + 16 > s.mem().len()) || (e
                    == Error::CodecMismatch && offset + 16 <= s.mem().len() && (hhdr_at(
                    *s,
                    offset,
                ).key_len != K::plen() || hhdr_at(*s, offset).value_len != V::plen())),
            },
    {
        if offset as u64 + 16 > s.size() as u64 {
            return Err(Error::OutOfBounds);
        }
        let hdr = read_hheader(s, offset);
        if hdr.key_len != K::packed_len() || hdr.value_len != V::packed_len() {
            return Err(Error::CodecMismatch);
        }
        Ok(StorageHashTable { header_offset: offset, header: hdr, _phantom: PhantomData })
    }

    /// The offset of this table's header, used to persist the handle.
    pub fn offset(&self) -> (r: Offset)
        ensures
            r == self.spec_offset(),
    {
        self.header_offset
    }

    /// The number of elements in the table.
    pub fn len(&self) -> (r: u32)
        ensures
            r == self.spec_len(),
    {
        self.header.items
    }

    /// Whether the table holds no elements.
    pub fn is_empty(&self) -> (r: bool)
        ensures
            r == (self.spec_len() == 0),
    {
        self.header.items == 0
    }

    /// Looks the key up in its bucket's tree; `None` when it is absent,
    /// which is not an error.
    pub fn find(&self, s: &Storage, key: &K) -> (r: Result<Option<V>, Error>)
        requires
            s.inv(),
            self.wf(*s),
        ensures
            r == Ok::<Option<V>, Error>(
                if self.as_map(*s).dom().contains(*key) {
                    Some(self.as_map(*s)[*key])
                } else {
                    None
                },
            ),
    {
        let ghost h = self.header_offset;
        let ghost m = self.header.table_size;
        if self.header.items == 0 {
            proof {
                if self.as_map(*s).dom().contains(*key) {
                    assert(bucket_at(*s, self.header.table_offset, bucket_of::<K>(*key, m) as int)
                        == 0);
                }
            }
            return Ok(None);
        }
        let hash = compute_hash::<K>(key);
        let bucket = hash % self.header.table_size;
        proof {
            assert(bucket_ok::<K, V>(*s, h, self.header.table_offset, m, bucket as int));
            assert(4 * (bucket as int) + 4 <= 4 * (m as int));
        }
        let bucket_offset = self.header.table_offset + bucket * OFFSET_SIZE;
        let bst_offset = match s.read_u32(bucket_offset) {
            Ok(v) => v,
            Err(_) => {
                proof {
                    assert(false);
                }
                0
            },
        };
        if bst_offset == 0 {
            return Ok(None);
        }
        let bst = match StorageBST::<K, V>::load(s, bst_offset) {
            Ok(b) => b,
            Err(_) => {
                proof {
                    assert(false);
                }
                return unreached();
            },
        };
        bst.find(s, key)
    }

    /// Inserts a key-value pair into the key's bucket, creating the
    /// bucket's tree when the bucket is empty. Returns the previous value
    /// when the key was present, `None` when the table grew. On failure
    /// the table's contents and length are unchanged, though storage
    /// above the old watermark may have been claimed.
    pub fn insert(&mut self, s: &mut Storage, key: K, value: V) -> (r: Result<Option<V>, Error>)
        requires
            old(s).inv(),
            old(self).wf(*old(s)),
        ensures
            final(s).inv(),
            final(s).mem().len() == old(s).mem().len(),
            final(self).spec_offset() == old(self).spec_offset(),
            evolves(*old(s), *final(s), ht_foot::<K, V>(*old(s), old(self).spec_offset())),
            match r {
                Ok(prev) => {
                    &&& final(self).wf(*final(s))
                    &&& final(self).as_map(*final(s)) == old(self).as_map(*old(s)).insert(
                        key,
                        value,
                    )
                    &&& match prev {
                        Some(pv) => old(self).as_map(*old(s)).dom().contains(key)
                            && pv == old(self).as_map(*old(s))[key]
                            && final(self).spec_len() == old(self).spec_len(),
                        None => !old(self).as_map(*old(s)).dom().contains(key)
                            && final(self).spec_len() == old(self).spec_len() + 1,
                    }
                },
                Err(e) => {
                    &&& e == Error::OutOfSpace
                    &&& *final(self) == *old(self)
                    &&& final(self).wf(*final(s))
                    &&& final(self).as_map(*final(s)) == old(self).as_map(*old(s))
                    &&& old(self).spec_len() == u32::MAX || {
                        let bo = bucket_at(
                            *old(s),
                            old(self).spec_header().table_offset,
                            bucket_of::<K>(key, old(self).spec_header().table_size) as int,
                        );
                        if bo == 0 {
                            old(s).wm() + 12 + nlen::<K, V>() > old(s).mem().len()
                        } else {
                            hdr_at(*old(s), bo).items == u32::MAX || (!old(self).as_map(
                                *old(s),
                            ).dom().contains(key) && old(s).wm() + nlen::<K, V>() > old(
                                s,
                            ).mem().len())
                        }
                    }
                },
            },
    {
        let ghost s0 = *old(s);
        let ghost h = self.header_offset;
        let ghost m = self.header.table_size;
        let ghost toff = self.header.table_offset;
        if self.header.items == u32::MAX {
            return Err(Error::OutOfSpace);
        }
        let hash = compute_hash::<K>(&key);
        let bucket = hash % self.header.table_size;
        proof {
            assert(bucket_ok::<K, V>(s0, h, toff, m, bucket as int));
            assert(4 * (bucket as int) + 4 <= 4 * (m as int));
        }
        let bucket_offset = self.header.table_offset + bucket * OFFSET_SIZE;
        let bst_offset = match s.read_u32(bucket_offset) {
            Ok(v) => v,
            Err(_) => {
                proof {
                    assert(false);
                }
                0
            },
        };
        if bst_offset == 0 {
            proof {
                if old(self).as_map(s0).dom().contains(key) {
                    assert(false);
                }
            }
            let mut bst = match StorageBST::<K, V>::create(s) {
                Ok(b) => b,
                Err(e) => {
                    proof {
                        lemma_ht_frame_below::<K, V>(s0, *s, h);
                        lemma_evolves_widen(s0, *s, Set::empty(), ht_foot::<K, V>(s0, h));
                    }
                    return Err(e);
                },
            };
            let ghost s1 = *s;
            match bst.insert(s, key, value) {
                Ok(_) => (),
                Err(e) => {
                    proof {
                        assert(*s == s1);
                        lemma_ht_frame_below::<K, V>(s0, *s, h);
                        lemma_evolves_widen(s0, *s, Set::empty(), ht_foot::<K, V>(s0, h));
                    }
                    return Err(e);
                },
            }
            let ghost s2 = *s;
            let rw = s.write_u32(bucket_offset, bst.offset());
            proof {
                if rw is Err {
                    assert(false);
                }
            }
            let ghost s3 = *s;
            self.header.items = self.header.items + 1;
            write_hheader(s, self.header_offset, &self.header);
            proof {
                let s4 = *s;
                let b0h = bst.spec_offset();
                let bkt = bucket as int;
                assert(h + 16 <= s0.wm());
                assert(toff + 4 * m <= s0.wm());
                // each write was a single-record evolution
                assert forall|i: int|
                    0 <= i < s2.wm() && !rec_touches(s2, set![toff], i) implies s3.mem()[i]
                    == s2.mem()[i] by {
                    if toff + 4 * bkt <= i < toff + 4 * bkt + 4 {
                        assert(set![toff].contains(toff));
                        assert(rec_touches(s2, set![toff], i));
                    }
                }
                assert(evolves(s2, s3, set![toff]));
                assert forall|i: int|
                    0 <= i < s3.wm() && !rec_touches(s3, set![h], i) implies s4.mem()[i]
                    == s3.mem()[i] by {
                    if h <= i < h + 16 {
                        assert(set![h].contains(h));
                        assert(rec_touches(s3, set![h], i));
                    }
                }
                assert(evolves(s3, s4, set![h]));
                lemma_evolves_trans(s0, s1, s2, Set::empty(), bst_foot::<K, V>(s1, b0h));
                lemma_evolves_trans(
                    s0,
                    s2,
                    s3,
                    Set::empty().union(bst_foot::<K, V>(s1, b0h)),
                    set![toff],
                );
                lemma_evolves_trans(
                    s0,
                    s3,
                    s4,
                    Set::empty().union(bst_foot::<K, V>(s1, b0h)).union(set![toff]),
                    set![h],
                );
                let t04 = Set::empty().union(bst_foot::<K, V>(s1, b0h)).union(set![toff]).union(
                    set![h],
                );
                // the new tree's records never reach below the old watermark
                assert forall|o: u32| bst_foot::<K, V>(s2, b0h).contains(o) implies o
                    >= s0.wm() by {
                    if bst_foot::<K, V>(s1, b0h).contains(o) {
                        assert(o == b0h);
                    } else {
                        assert(o >= s1.wm());
                    }
                }
                // it survived the slot and header writes
                assert(evolves(s2, s4, set![toff].union(set![h]))) by {
                    lemma_evolves_trans(s2, s3, s4, set![toff], set![h]);
                }
                assert forall|o: u32|
                    bst_foot::<K, V>(s2, b0h).contains(o) implies !(set![toff].union(
                    set![h],
                ).contains(o)) by {
                    assert(o >= s0.wm());
                }
                lemma_bst_frame::<K, V>(s2, s4, set![toff].union(set![h]), b0h);
                // the other buckets' slots kept their bytes
                assert forall|b2: int|
                    0 <= b2 < m && b2 != bkt implies #[trigger] bucket_at(s4, toff, b2)
                    == bucket_at(s0, toff, b2) by {
                    assert forall|i: int|
                        toff + 4 * b2 <= i < toff + 4 * b2 + 4 implies s4.mem()[i]
                        == s0.mem()[i] by {
                        assert(s1.mem()[i] == s0.mem()[i]);
                        assert(i < s1.wm());
                        if rec_touches(s1, bst_foot::<K, V>(s1, b0h), i) {
                            assert(false);
                        }
                        assert(s2.mem()[i] == s1.mem()[i]);
                        assert(s3.mem()[i] == s2.mem()[i]);
                        assert(s4.mem()[i] == s3.mem()[i]);
                    }
                    assert(s4.mem().subrange(toff + 4 * b2, toff + 4 * b2 + 4)
                        =~= s0.mem().subrange(toff + 4 * b2, toff + 4 * b2 + 4));
                }
                // and their trees their contents
                assert forall|b2: int|
                    0 <= b2 < m && b2 != bkt && #[trigger] bucket_at(s0, toff, b2)
                        != 0 implies bst_valid_at::<K, V>(s4, bucket_at(s0, toff, b2))
                    && bst_map_at::<K, V>(s4, bucket_at(s0, toff, b2)) == bst_map_at::<K, V>(
                    s0,
                    bucket_at(s0, toff, b2),
                ) && bst_foot::<K, V>(s4, bucket_at(s0, toff, b2)) == bst_foot::<K, V>(
                    s0,
                    bucket_at(s0, toff, b2),
                ) by {
                    let bo2 = bucket_at(s0, toff, b2);
                    assert(bucket_ok::<K, V>(s0, h, toff, m, b2));
                    lemma_bst_foot_live::<K, V>(s0, bo2);
                    assert forall|o: u32|
                        bst_foot::<K, V>(s0, bo2).contains(o) implies !t04.contains(o) by {
                        assert(o < s0.wm());
                        if bst_foot::<K, V>(s1, b0h).contains(o) {
                            if o == b0h {
                            } else {
                                assert(o >= s1.wm());
                            }
                            assert(false);
                        }
                    }
                    lemma_bst_frame::<K, V>(s0, s4, t04, bo2);
                }
                assert(bucket_at(s4, toff, bkt) == b0h) by {
                    assert(s4.mem().subrange(toff + 4 * bkt, toff + 4 * bkt + 4)
                        =~= s3.mem().subrange(toff + 4 * bkt, toff + 4 * bkt + 4));
                }
                assert(bst_map_at::<K, V>(s4, b0h) == Map::<K, V>::empty().insert(key, value));
                assert forall|o: u32| #[trigger]
                    bst_foot::<K, V>(s4, b0h).contains(o) implies o >= s0.wm() by {
                    assert(bst_foot::<K, V>(s2, b0h).contains(o));
                }
                lemma_ht_bucket_update::<K, V>(s0, s4, h, bkt, b0h, key, value);
                // everything written lay in the table's own footprint or
                // beyond the old watermark
                assert forall|i: int|
                    0 <= i < s0.wm() && !rec_touches(s0, ht_foot::<K, V>(s0, h), i) implies
                    s4.mem()[i] == s0.mem()[i] by {
                    assert(ht_foot::<K, V>(s0, h).contains(h));
                    assert(ht_foot::<K, V>(s0, h).contains(toff));
                    if rec_touches(s0, t04, i) {
                        let o = choose|o: u32|
                            #[trigger] t04.contains(o) && s0.recs().dom().contains(o) && o <= i
                                < o + s0.recs()[o];
                        if bst_foot::<K, V>(s1, b0h).contains(o) {
                            if o == b0h {
                                assert(o + s0.recs()[o] <= s0.wm());
                                assert(false);
                            } else {
                                assert(o >= s1.wm());
                                assert(o + s0.recs()[o] <= s0.wm());
                                assert(false);
                            }
                        } else {
                            assert(o == toff || o == h);
                            assert(rec_touches(s0, ht_foot::<K, V>(s0, h), i));
                        }
                        assert(false);
                    }
                }
                assert(evolves(s0, s4, ht_foot::<K, V>(s0, h)));
            }
            return Ok(None);
        }
        let mut bst = match StorageBST::<K, V>::load(s, bst_offset) {
            Ok(b) => b,
            Err(_) => {
                proof {
                    assert(false);
                }
                return unreached();
            },
        };
        let prev = match bst.insert(s, key, value) {
            Ok(p) => p,
            Err(e) => {
                proof {
                    if hdr_at(s0, bst_offset).items != u32::MAX && old(self).as_map(
                        s0,
                    ).dom().contains(key) {
                        assert(bst_map_at::<K, V>(s0, bst_offset).dom().contains(key));
                        assert(false);
                    }
                }
                return Err(e);
            },
        };
        let ghost s1 = *s;
        proof {
            if old(self).as_map(s0).dom().contains(key) {
                assert(bst_map_at::<K, V>(s0, bst_offset).dom().contains(key));
            }
            if bst_map_at::<K, V>(s0, bst_offset).dom().contains(key) {
                assert(bucket_of::<K>(key, m) == bucket);
                assert(old(self).as_map(s0).dom().contains(key));
            }
        }
        if prev.is_none() {
            self.header.items = self.header.items + 1;
            write_hheader(s, self.header_offset, &self.header);
        }
        proof {
            let s2 = *s;
            let bkt = bucket as int;
            let bo = bst_offset;
            let f0 = bst_foot::<K, V>(s0, bo);
            assert(bucket_ok::<K, V>(s0, h, toff, m, bkt));
            assert(h + 16 <= s0.wm());
            assert(toff + 4 * m <= s0.wm());
            assert(hhdr_at(s0, h).items != 0) by {
                if hhdr_at(s0, h).items == 0 {
                    assert(bucket_at(s0, toff, bkt) == 0);
                }
            }
            // the header record was outside the bucket tree's footprint
            lemma_rec_preserved(s0, s1, f0, h);
            assert(hhdr_at(s1, h) == hhdr_at(s0, h)) by {
                assert(s1.mem().subrange(h as int, h + 4) =~= s0.mem().subrange(h as int, h + 4));
                assert(s1.mem().subrange(h + 4, h + 6) =~= s0.mem().subrange(h + 4, h + 6));
                assert(s1.mem().subrange(h + 6, h + 8) =~= s0.mem().subrange(h + 6, h + 8));
                assert(s1.mem().subrange(h + 8, h + 12) =~= s0.mem().subrange(h + 8, h + 12));
                assert(s1.mem().subrange(h + 12, h + 16) =~= s0.mem().subrange(h + 12, h + 16));
            }
            // so was the bucket array
            lemma_rec_preserved(s0, s1, f0, toff);
            if prev is Some {
                assert(s2 == s1);
            } else {
                assert forall|i: int|
                    0 <= i < s1.wm() && !rec_touches(s1, set![h], i) implies s2.mem()[i]
                    == s1.mem()[i] by {
                    if h <= i < h + 16 {
                        assert(set![h].contains(h));
                        assert(rec_touches(s1, set![h], i));
                    }
                }
                assert(evolves(s1, s2, set![h]));
            }
            assert forall|b2: int|
                0 <= b2 < m implies #[trigger] bucket_at(s2, toff, b2) == bucket_at(
                s0,
                toff,
                b2,
            ) by {
                assert(s1.mem().subrange(toff + 4 * b2, toff + 4 * b2 + 4) =~= s0.mem().subrange(
                    toff + 4 * b2,
                    toff + 4 * b2 + 4,
                ));
                assert(s2.mem().subrange(toff + 4 * b2, toff + 4 * b2 + 4) =~= s1.mem().subrange(
                    toff + 4 * b2,
                    toff + 4 * b2 + 4,
                ));
            }
            // the updated bucket's tree survived the header rewrite
            assert forall|o: u32| bst_foot::<K, V>(s1, bo).contains(o) implies !(set![h].contains(
                o,
            )) by {
                if o == h {
                    if f0.contains(o) {
                        assert(!f0.contains(h));
                    } else {
                        assert(o >= s0.wm());
                    }
                }
            }
            if prev is None {
                lemma_bst_frame::<K, V>(s1, s2, set![h], bo);
            }
            // the other buckets' trees were outside everything touched
            lemma_evolves_trans(s0, s1, s2, f0, if prev is Some {
                Set::<u32>::empty()
            } else {
                set![h]
            });
            let t02 = f0.union(if prev is Some {
                Set::<u32>::empty()
            } else {
                set![h]
            });
            assert(evolves(s0, s2, t02)) by {
                if prev is Some {
                    crate::storage::lemma_evolves_widen(s0, s2, f0, t02);
                }
            }
            assert forall|b2: int|
                0 <= b2 < m && b2 != bkt && #[trigger] bucket_at(s0, toff, b2)
                    != 0 implies bst_valid_at::<K, V>(s2, bucket_at(s0, toff, b2))
                && bst_map_at::<K, V>(s2, bucket_at(s0, toff, b2)) == bst_map_at::<K, V>(
                s0,
                bucket_at(s0, toff, b2),
            ) && bst_foot::<K, V>(s2, bucket_at(s0, toff, b2)) == bst_foot::<K, V>(
                s0,
                bucket_at(s0, toff, b2),
            ) by {
                let bo2 = bucket_at(s0, toff, b2);
                assert(bucket_ok::<K, V>(s0, h, toff, m, b2));
                lemma_bst_foot_live::<K, V>(s0, bo2);
                assert forall|o: u32|
                    bst_foot::<K, V>(s0, bo2).contains(o) implies !t02.contains(o) by {
                    assert(o < s0.wm());
                    if f0.contains(o) {
                        assert(f0.disjoint(bst_foot::<K, V>(s0, bo2)));
                        assert(false);
                    }
                }
                lemma_bst_frame::<K, V>(s0, s2, t02, bo2);
            }
            assert(bst_map_at::<K, V>(s2, bo) == bst_map_at::<K, V>(s0, bo).insert(key, value));
            assert forall|o: u32| #[trigger]
                bst_foot::<K, V>(s2, bo).contains(o) implies (bucket_at(s0, toff, bkt) != 0
                && bst_foot::<K, V>(s0, bucket_at(s0, toff, bkt)).contains(o)) || o
                >= s0.wm() by {
                if prev is None {
                    assert(bst_foot::<K, V>(s2, bo) == bst_foot::<K, V>(s1, bo));
                }
                assert(bst_foot::<K, V>(s1, bo).contains(o));
            }
            lemma_ht_bucket_update::<K, V>(s0, s2, h, bkt, bo, key, value);
            // everything written lay in the table's own footprint
            lemma_buckets_foot_contains::<K, V>(s0, toff, bkt, m as int);
            assert(t02.subset_of(ht_foot::<K, V>(s0, h)));
            lemma_evolves_widen(s0, s2, t02, ht_foot::<K, V>(s0, h));
        }
        Ok(prev)
    }

    /// Whether the table holds a value for the key.
    pub fn contains_key(&self, s: &Storage, key: &K) -> (r: Result<bool, Error>)
        requires
            s.inv(),
            self.wf(*s),
        ensures
            r == Ok::<bool, Error>(self.as_map(*s).dom().contains(*key)),
    {
        let f = self.find(s, key)?;
        Ok(f.is_some())
    }
}

/// Law: the contents a table presents are a function of the storage bytes
/// and the header offset alone, so a handle loaded at the offset where a
/// table was built sees the builder's map and length. Two coherent
/// handles on one header agree.
pub proof fn lemma_reload_agrees<K: KeyCodec, V: Codec>(
    t1: StorageHashTable<K, V>,
    t2: StorageHashTable<K, V>,
    s: Storage,
)
    requires
        t1.wf(s),
        t2.wf(s),
        t1.spec_offset() == t2.spec_offset(),
    ensures
        t1.as_map(s) == t2.as_map(s),
        t1.spec_len() == t2.spec_len(),
{
}

/// A serialized table survives an evolution that touches nothing below
/// the watermark: header, bucket array, and every bucket's tree keep
/// their bytes.
proof fn lemma_ht_frame_below<K: KeyCodec, V: Codec>(s0: Storage, s1: Storage, h: u32)
    requires
        s0.inv(),
        s1.inv(),
        ht_valid_at::<K, V>(s0, h),
        evolves(s0, s1, Set::empty()),
    ensures
        ht_valid_at::<K, V>(s1, h),
        hhdr_at(s1, h) == hhdr_at(s0, h),
        ht_map_at::<K, V>(s1, h) == ht_map_at::<K, V>(s0, h),
{
    let toff = hhdr_at(s0, h).table_offset;
    let m = hhdr_at(s0, h).table_size;
    lemma_rec_preserved(s0, s1, Set::empty(), h);
    lemma_rec_preserved(s0, s1, Set::empty(), toff);
    assert(hhdr_at(s1, h) == hhdr_at(s0, h)) by {
        assert(s1.mem().subrange(h as int, h + 4) =~= s0.mem().subrange(h as int, h + 4));
        assert(s1.mem().subrange(h + 4, h + 6) =~= s0.mem().subrange(h + 4, h + 6));
        assert(s1.mem().subrange(h + 6, h + 8) =~= s0.mem().subrange(h + 6, h + 8));
        assert(s1.mem().subrange(h + 8, h + 12) =~= s0.mem().subrange(h + 8, h + 12));
        assert(s1.mem().subrange(h + 12, h + 16) =~= s0.mem().subrange(h + 12, h + 16));
    }
    assert forall|b: int| 0 <= b < m implies #[trigger] bucket_at(s1, toff, b) == bucket_at(
        s0,
        toff,
        b,
    ) by {
        assert(s1.mem().subrange(toff + 4 * b, toff + 4 * b + 4) =~= s0.mem().subrange(
            toff + 4 * b,
            toff + 4 * b + 4,
        ));
    }
    assert forall|b: int| 0 <= b < m implies #[trigger] bucket_ok::<K, V>(
        s1,
        h,
        toff,
        m,
        b,
    ) by {
        assert(bucket_ok::<K, V>(s0, h, toff, m, b));
        let bo = bucket_at(s0, toff, b);
        if bo != 0 {
            lemma_bst_frame::<K, V>(s0, s1, Set::empty(), bo);
        }
    }
    assert forall|b1: int, b2: int|
        0 <= b1 < m && 0 <= b2 < m && b1 != b2 && #[trigger] bucket_at(s1, toff, b1) != 0
            && #[trigger] bucket_at(s1, toff, b2) != 0 implies bst_foot::<K, V>(
        s1,
        bucket_at(s1, toff, b1),
    ).disjoint(bst_foot::<K, V>(s1, bucket_at(s1, toff, b2))) by {
        assert(bucket_ok::<K, V>(s0, h, toff, m, b1));
        assert(bucket_ok::<K, V>(s0, h, toff, m, b2));
        lemma_bst_frame::<K, V>(s0, s1, Set::empty(), bucket_at(s0, toff, b1));
        lemma_bst_frame::<K, V>(s0, s1, Set::empty(), bucket_at(s0, toff, b2));
    }
    assert(ht_valid_at::<K, V>(s1, h));
    assert forall|k: K| true implies #[trigger] ht_map_at::<K, V>(s1, h).dom().contains(k)
        == ht_map_at::<K, V>(s0, h).dom().contains(k) && (ht_map_at::<K, V>(
        s0,
        h,
    ).dom().contains(k) ==> ht_map_at::<K, V>(s1, h)[k] == ht_map_at::<K, V>(s0, h)[k]) by {
        let b = bucket_of::<K>(k, m) as int;
        assert(0 <= b < m);
        assert(bucket_at(s1, toff, b) == bucket_at(s0, toff, b));
        if bucket_at(s0, toff, b) != 0 {
            assert(bucket_ok::<K, V>(s0, h, toff, m, b));
            lemma_bst_frame::<K, V>(s0, s1, Set::empty(), bucket_at(s0, toff, b));
        }
    }
    assert(ht_map_at::<K, V>(s1, h) =~= ht_map_at::<K, V>(s0, h));
}

/// Reassembles table validity after bucket `bkt` gained or replaced its
/// tree: the new tree at `bo1` holds the bucket's old map with one more
/// binding, its fresh records lie beyond the old watermark, every other
/// bucket's tree is byte-identical, and the header carries the new count.
proof fn lemma_ht_bucket_update<K: KeyCodec, V: Codec>(
    s0: Storage,
    s2: Storage,
    h: u32,
    bkt: int,
    bo1: u32,
    key: K,
    value: V,
)
    requires
        s0.inv(),
        s2.inv(),
        ht_valid_at::<K, V>(s0, h),
        0 <= bkt < hhdr_at(s0, h).table_size,
        bucket_of::<K>(key, hhdr_at(s0, h).table_size) == bkt,
        s2.mem().len() == s0.mem().len(),
        s0.wm() <= s2.wm(),
        // header after
        hhdr_at(s2, h).key_len == hhdr_at(s0, h).key_len,
        hhdr_at(s2, h).value_len == hhdr_at(s0, h).value_len,
        hhdr_at(s2, h).table_offset == hhdr_at(s0, h).table_offset,
        hhdr_at(s2, h).table_size == hhdr_at(s0, h).table_size,
        hhdr_at(s2, h).items != 0,
        s2.recs().dom().contains(h),
        s2.recs()[h] == 16,
        s2.recs().dom().contains(hhdr_at(s0, h).table_offset),
        s2.recs()[hhdr_at(s0, h).table_offset] == 4 * hhdr_at(s0, h).table_size,
        // bucket array after
        forall|b2: int|
            0 <= b2 < hhdr_at(s0, h).table_size && b2 != bkt ==> #[trigger] bucket_at(
                s2,
                hhdr_at(s0, h).table_offset,
                b2,
            ) == bucket_at(s0, hhdr_at(s0, h).table_offset, b2),
        bucket_at(s2, hhdr_at(s0, h).table_offset, bkt) == bo1,
        bo1 != 0,
        // the updated bucket's tree
        bst_valid_at::<K, V>(s2, bo1),
        bst_map_at::<K, V>(s2, bo1) == (if bucket_at(s0, hhdr_at(s0, h).table_offset, bkt) != 0 {
            bst_map_at::<K, V>(s0, bucket_at(s0, hhdr_at(s0, h).table_offset, bkt))
        } else {
            Map::<K, V>::empty()
        }).insert(key, value),
        forall|o: u32| #[trigger]
            bst_foot::<K, V>(s2, bo1).contains(o) ==> (bucket_at(
                s0,
                hhdr_at(s0, h).table_offset,
                bkt,
            ) != 0 && bst_foot::<K, V>(
                s0,
                bucket_at(s0, hhdr_at(s0, h).table_offset, bkt),
            ).contains(o)) || o >= s0.wm(),
        // the other buckets' trees
        forall|b2: int|
            0 <= b2 < hhdr_at(s0, h).table_size && b2 != bkt && #[trigger] bucket_at(
                s0,
                hhdr_at(s0, h).table_offset,
                b2,
            ) != 0 ==> bst_valid_at::<K, V>(s2, bucket_at(s0, hhdr_at(s0, h).table_offset, b2))
                && bst_map_at::<K, V>(s2, bucket_at(s0, hhdr_at(s0, h).table_offset, b2))
                == bst_map_at::<K, V>(s0, bucket_at(s0, hhdr_at(s0, h).table_offset, b2))
                && bst_foot::<K, V>(s2, bucket_at(s0, hhdr_at(s0, h).table_offset, b2))
                == bst_foot::<K, V>(s0, bucket_at(s0, hhdr_at(s0, h).table_offset, b2)),
    ensures
        ht_valid_at::<K, V>(s2, h),
        ht_map_at::<K, V>(s2, h) == ht_map_at::<K, V>(s0, h).insert(key, value),
{
    let toff = hhdr_at(s0, h).table_offset;
    let m = hhdr_at(s0, h).table_size;
    let bo0 = bucket_at(s0, toff, bkt);
    // every bucket is sound in the new state
    assert forall|b: int| 0 <= b < m implies #[trigger] bucket_ok::<K, V>(
        s2,
        h,
        toff,
        m,
        b,
    ) by {
        assert(bucket_ok::<K, V>(s0, h, toff, m, b));
        if b == bkt {
            assert forall|k: K| #[trigger]
                bst_map_at::<K, V>(s2, bo1).dom().contains(k) implies bucket_of::<K>(k, m)
                == b by {
                if k != key {
                    assert(bst_map_at::<K, V>(s0, bo0).dom().contains(k));
                }
            }
            assert forall|o: u32| bst_foot::<K, V>(s2, bo1).contains(o) implies o != h && o
                != toff by {
                if bo0 != 0 && bst_foot::<K, V>(s0, bo0).contains(o) {
                } else {
                    assert(o >= s0.wm());
                    assert(h + 16 <= s0.wm());
                    assert(toff + 4 * m <= s0.wm());
                }
            }
        } else {
            let bo2 = bucket_at(s0, toff, b);
            if bo2 != 0 {
                lemma_bst_foot_live::<K, V>(s0, bo2);
            }
        }
    }
    // distinct buckets' trees still occupy disjoint records
    assert forall|b1: int, b2: int|
        0 <= b1 < m && 0 <= b2 < m && b1 != b2 && #[trigger] bucket_at(s2, toff, b1) != 0
            && #[trigger] bucket_at(s2, toff, b2) != 0 implies bst_foot::<K, V>(
        s2,
        bucket_at(s2, toff, b1),
    ).disjoint(bst_foot::<K, V>(s2, bucket_at(s2, toff, b2))) by {
        assert(bucket_ok::<K, V>(s0, h, toff, m, b1));
        assert(bucket_ok::<K, V>(s0, h, toff, m, b2));
        if b1 != bkt && b2 != bkt {
            assert(bst_foot::<K, V>(s2, bucket_at(s2, toff, b1)) == bst_foot::<K, V>(
                s0,
                bucket_at(s0, toff, b1),
            ));
            assert(bst_foot::<K, V>(s2, bucket_at(s2, toff, b2)) == bst_foot::<K, V>(
                s0,
                bucket_at(s0, toff, b2),
            ));
        } else {
            let other = if b1 == bkt {
                b2
            } else {
                b1
            };
            let boo = bucket_at(s0, toff, other);
            lemma_bst_foot_live::<K, V>(s0, boo);
            assert forall|o: u32|
                bst_foot::<K, V>(s2, bo1).contains(o) implies !bst_foot::<K, V>(
                s2,
                boo,
            ).contains(o) by {
                if bst_foot::<K, V>(s2, boo).contains(o) {
                    assert(bst_foot::<K, V>(s0, boo).contains(o));
                    assert(o < s0.wm());
                    if bo0 != 0 && bst_foot::<K, V>(s0, bo0).contains(o) {
                        assert(bst_foot::<K, V>(s0, bo0).disjoint(bst_foot::<K, V>(s0, boo)));
                        assert(false);
                    } else {
                        assert(o >= s0.wm());
                        assert(false);
                    }
                }
            }
        }
    }
    assert(ht_valid_at::<K, V>(s2, h));
    // the table's map gained exactly the one binding
    assert forall|k: K| true implies #[trigger] ht_map_at::<K, V>(s2, h).dom().contains(k)
        == ht_map_at::<K, V>(s0, h).insert(key, value).dom().contains(k) && (ht_map_at::<K, V>(
        s2,
        h,
    ).dom().contains(k) ==> ht_map_at::<K, V>(s2, h)[k] == ht_map_at::<K, V>(s0, h).insert(
        key,
        value,
    )[k]) by {
        let b = bucket_of::<K>(k, m) as int;
        assert(0 <= b < m);
        assert(bucket_ok::<K, V>(s0, h, toff, m, b));
        if k == key {
            assert(bst_map_at::<K, V>(s2, bo1).dom().contains(k));
        } else if b == bkt {
            if bo0 != 0 {
                assert(bst_map_at::<K, V>(s2, bo1).dom().contains(k) == bst_map_at::<K, V>(
                    s0,
                    bo0,
                ).dom().contains(k));
            }
        } else {
            assert(bucket_at(s2, toff, b) == bucket_at(s0, toff, b));
        }
    }
    assert(ht_map_at::<K, V>(s2, h) =~= ht_map_at::<K, V>(s0, h).insert(key, value));
}

} // verus!
