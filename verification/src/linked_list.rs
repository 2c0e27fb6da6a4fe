//! Storage singly linked list: an append-only FIFO sequence whose nodes
//! are packed records in the storage region, each holding the offset of
//! its successor (`0` at the tail). `push_back` rewrites only the old
//! tail, the fresh node, and the header; iteration walks forward from the
//! head.

use vstd::prelude::*;
use vstd::bytes::*;
use core::marker::PhantomData;
use crate::codec::Codec;
use crate::error::Error;
use crate::storage::{
    evolves, lemma_evolves_widen, lemma_rec_preserved, rec_touches, u16_at, u32_at, Offset,
    Storage,
};

verus! {

/// The list's header record: element count, the packed item length the
/// list was created with, and the head and tail node offsets (`0` when
/// the list is empty).
pub struct Header {
    /// Number of items in the list.
    pub items: u32,
    /// Packed byte length of an item.
    pub item_len: u16,
    /// Offset of the first node; `0` when the list is empty.
    pub head_offset: Offset,
    /// Offset of the last node; `0` when the list is empty.
    pub tail_offset: Offset,
}

impl Header {
    /// An empty header for a list of items `T`.
    pub fn new<T: Codec>() -> (h: Header)
        ensures
            h == (Header {
                items: 0,
                item_len: (T::plen() as u16),
                head_offset: 0,
                tail_offset: 0,
            }),
    {
        Header { items: 0, item_len: T::packed_len(), head_offset: 0, tail_offset: 0 }
    }
}

/// A list node as decoded from its packed record.
pub struct Node<T> {
    /// The node's item.
    pub item: T,
    /// Offset of the successor node, or `0` at the tail.
    pub next: Offset,
}

impl<T: Codec> Node<T> {
    /// A fresh tail node carrying `item`.
    pub fn new(item: T) -> (n: Node<T>)
        ensures
            n == (Node { item, next: 0u32 }),
    {
        Node { item, next: 0 }
    }
}

/// Packed length of a list node record.
pub open spec fn lnlen<T: Codec>() -> int {
    (T::plen() + 4) as int
}

/// What a list node record's bytes decode to.
pub open spec fn lnode_dec<T: Codec>(b: Seq<u8>) -> Option<Node<T>> {
    let tl = T::plen() as int;
    if b.len() == lnlen::<T>() && T::dec(b.subrange(0, tl)) is Some {
        Some(
            Node {
                item: T::dec(b.subrange(0, tl)).unwrap(),
                next: spec_u32_from_le_bytes(b.subrange(tl, tl + 4)),
            },
        )
    } else {
        None
    }
}

/// The list node stored at `off`, if its window lies in the region and
/// decodes.
pub open spec fn lnode_at<T: Codec>(s: Storage, off: u32) -> Option<Node<T>> {
    if off + lnlen::<T>() <= s.mem().len() {
        lnode_dec::<T>(s.mem().subrange(off as int, off + lnlen::<T>()))
    } else {
        None
    }
}

/// Well-formedness of the chain starting at `off`: each node is a live
/// allocated record that decodes, and each successor lies strictly beyond
/// its predecessor, so the walk terminates.
pub open spec fn lwf<T: Codec>(s: Storage, off: u32) -> bool
    decreases s.mem().len() - off,
{
    &&& off != 0
    &&& off + lnlen::<T>() <= s.mem().len()
    &&& s.recs().dom().contains(off)
    &&& s.recs()[off] == lnlen::<T>()
    &&& lnode_at::<T>(s, off) is Some
    &&& {
        let n = lnode_at::<T>(s, off).unwrap();
        n.next != 0 ==> off < n.next && n.next <= s.mem().len() && lwf::<T>(s, n.next)
    }
}

/// The items of the chain starting at `off`, in walk order.
pub open spec fn lseq<T: Codec>(s: Storage, off: u32) -> Seq<T>
    decreases s.mem().len() - off,
{
    if off + lnlen::<T>() <= s.mem().len() && lnode_at::<T>(s, off) is Some {
        let n = lnode_at::<T>(s, off).unwrap();
        if n.next != 0 && off < n.next && n.next <= s.mem().len() {
            seq![n.item] + lseq::<T>(s, n.next)
        } else {
            seq![n.item]
        }
    } else {
        Seq::empty()
    }
}

/// The node offsets of the chain starting at `off`.
pub open spec fn lfoot<T: Codec>(s: Storage, off: u32) -> Set<u32>
    decreases s.mem().len() - off,
{
    if off + lnlen::<T>() <= s.mem().len() && lnode_at::<T>(s, off) is Some {
        let n = lnode_at::<T>(s, off).unwrap();
        if n.next != 0 && off < n.next && n.next <= s.mem().len() {
            lfoot::<T>(s, n.next).insert(off)
        } else {
            set![off]
        }
    } else {
        Set::empty()
    }
}

/// The offset of the chain's last node.
pub open spec fn ltail<T: Codec>(s: Storage, off: u32) -> u32
    decreases s.mem().len() - off,
{
    if off + lnlen::<T>() <= s.mem().len() && lnode_at::<T>(s, off) is Some {
        let n = lnode_at::<T>(s, off).unwrap();
        if n.next != 0 && off < n.next && n.next <= s.mem().len() {
            ltail::<T>(s, n.next)
        } else {
            off
        }
    } else {
        0
    }
}

/// Every node of a well-formed chain lies at or beyond the chain's start
/// and is a live record of a node's length; the tail is one of them, its
/// successor is null, and the chain holds as many items as nodes.
pub proof fn lemma_lfoot_props<T: Codec>(s: Storage, off: u32)
    requires
        lwf::<T>(s, off),
    ensures
        lfoot::<T>(s, off).contains(off),
        lfoot::<T>(s, off).contains(ltail::<T>(s, off)),
        lnode_at::<T>(s, ltail::<T>(s, off)) is Some,
        lnode_at::<T>(s, ltail::<T>(s, off)).unwrap().next == 0,
        lseq::<T>(s, off).len() >= 1,
        forall|o: u32| #[trigger]
            lfoot::<T>(s, off).contains(o) ==> off <= o && s.recs().dom().contains(o)
                && s.recs()[o] == lnlen::<T>(),
    decreases s.mem().len() - off,
{
    let n = lnode_at::<T>(s, off).unwrap();
    if n.next != 0 {
        lemma_lfoot_props::<T>(s, n.next);
    }
}

/// Framing: a well-formed chain whose records an evolution does not touch
/// keeps its well-formedness, its items, its footprint, and its tail.
pub proof fn lemma_list_frame<T: Codec>(s0: Storage, s1: Storage, touched: Set<u32>, off: u32)
    requires
        s0.inv(),
        lwf::<T>(s0, off),
        evolves(s0, s1, touched),
        lfoot::<T>(s0, off).disjoint(touched),
    ensures
        lwf::<T>(s1, off),
        lseq::<T>(s1, off) == lseq::<T>(s0, off),
        lfoot::<T>(s1, off) == lfoot::<T>(s0, off),
        ltail::<T>(s1, off) == ltail::<T>(s0, off),
    decreases s0.mem().len() - off,
{
    lemma_lfoot_props::<T>(s0, off);
    assert(!touched.contains(off));
    lemma_rec_preserved(s0, s1, touched, off);
    assert(s1.mem().subrange(off as int, off + lnlen::<T>()) == s0.mem().subrange(
        off as int,
        off + lnlen::<T>(),
    ));
    assert(lnode_at::<T>(s1, off) == lnode_at::<T>(s0, off));
    let n = lnode_at::<T>(s0, off).unwrap();
    if n.next != 0 {
        assert forall|o: u32| lfoot::<T>(s0, n.next).contains(o) implies !touched.contains(o) by {
            assert(lfoot::<T>(s0, off).contains(o));
        }
        lemma_list_frame::<T>(s0, s1, touched, n.next);
    }
}

/// After the old tail's successor is pointed at a fresh node beyond the
/// old watermark, the chain is the old chain with the new item appended.
proof fn lemma_push_chain<T: Codec>(s0: Storage, s3: Storage, off: u32, t: u32, new_off: u32, item: T)
    requires
        s0.inv(),
        lwf::<T>(s0, off),
        t == ltail::<T>(s0, off),
        new_off >= s0.wm(),
        new_off + lnlen::<T>() <= s3.mem().len(),
        evolves(s0, s3, set![t]),
        s3.recs().dom().contains(new_off),
        s3.recs()[new_off] == lnlen::<T>(),
        lnode_at::<T>(s3, t) == Some(
            Node { item: lnode_at::<T>(s0, t).unwrap().item, next: new_off },
        ),
        lnode_at::<T>(s3, new_off) == Some(Node { item, next: 0u32 }),
    ensures
        lwf::<T>(s3, off),
        lseq::<T>(s3, off) == lseq::<T>(s0, off).push(item),
        lfoot::<T>(s3, off) == lfoot::<T>(s0, off).insert(new_off),
        ltail::<T>(s3, off) == new_off,
    decreases s0.mem().len() - off,
{
    lemma_lfoot_props::<T>(s0, off);
    let n = lnode_at::<T>(s0, off).unwrap();
    assert(off + lnlen::<T>() <= s0.wm());
    assert(off < new_off);
    assert(new_off != 0);
    if off == t {
        assert(n.next == 0);
        assert(lwf::<T>(s3, new_off));
        assert(lseq::<T>(s3, new_off) =~= seq![item]);
        assert(lfoot::<T>(s3, new_off) =~= set![new_off]);
        assert(ltail::<T>(s3, new_off) == new_off);
        assert(lwf::<T>(s3, off));
        assert(lseq::<T>(s3, off) =~= lseq::<T>(s0, off).push(item));
        assert(lfoot::<T>(s3, off) =~= lfoot::<T>(s0, off).insert(new_off));
        assert(ltail::<T>(s3, off) == new_off);
    } else {
        assert(lfoot::<T>(s0, off).contains(t));
        assert(n.next != 0);
        assert(!(set![t].contains(off)));
        lemma_rec_preserved(s0, s3, set![t], off);
        assert(s3.mem().subrange(off as int, off + lnlen::<T>()) == s0.mem().subrange(
            off as int,
            off + lnlen::<T>(),
        ));
        assert(lnode_at::<T>(s3, off) == Some(n));
        lemma_push_chain::<T>(s0, s3, n.next, t, new_off, item);
        assert(lwf::<T>(s3, off));
        assert(lseq::<T>(s3, off) =~= lseq::<T>(s0, off).push(item));
        assert(lfoot::<T>(s3, off) =~= lfoot::<T>(s0, off).insert(new_off));
        assert(ltail::<T>(s3, off) == ltail::<T>(s3, n.next));
    }
}

/// List node record length, computed.
fn lnode_len_exec<T: Codec>() -> (n: u32)
    ensures
        n == lnlen::<T>(),
        4 < n <= 0x1_0003,
{
    T::packed_len() as u32 + 4
}

/// Reads and decodes the list node record at `off`.
fn read_lnode<T: Codec>(s: &Storage, off: u32) -> (n: Node<T>)
    requires
        s.inv(),
        off + lnlen::<T>() <= s.mem().len(),
        lnode_at::<T>(*s, off) is Some,
    ensures
        n == lnode_at::<T>(*s, off).unwrap(),
{
    let ghost w = s.mem().subrange(off as int, off + lnlen::<T>());
    let tl = T::packed_len() as u32;
    proof {
        assert(w.subrange(0, tl as int) =~= s.mem().subrange(off as int, off + tl));
        assert(w.subrange(tl as int, tl + 4) =~= s.mem().subrange(off + tl, off + tl + 4));
    }
    let tb = match s.read_bytes(off, tl) {
        Ok(b) => b,
        Err(_) => {
            proof {
                assert(false);
            }
            Vec::new()
        },
    };
    let item = match T::decode(tb.as_slice()) {
        Ok(v) => v,
        Err(_) => {
            proof {
                assert(false);
            }
            return unreached();
        },
    };
    let next = match s.read_u32(off + tl) {
        Ok(v) => v,
        Err(_) => {
            proof {
                assert(false);
            }
            0
        },
    };
    Node { item, next }
}

/// Encodes and writes the list node record `n` at `off`. Touches exactly
/// the node's window.
fn write_lnode<T: Codec>(s: &mut Storage, off: u32, n: &Node<T>)
    requires
        old(s).inv(),
        off + lnlen::<T>() <= old(s).mem().len(),
    ensures
        final(s).wm() == old(s).wm(),
        final(s).recs() == old(s).recs(),
        final(s).mem().len() == old(s).mem().len(),
        forall|i: int|
            0 <= i < old(s).mem().len() && !(off <= i < off + lnlen::<T>()) ==> final(s).mem()[i]
                == old(s).mem()[i],
        lnode_at::<T>(*final(s), off) == Some(*n),
{
    let tl = T::packed_len() as u32;
    let r1 = s.write(off, &n.item);
    proof {
        if r1 is Err {
            assert(false);
        }
    }
    let ghost sa = *s;
    let r2 = s.write_u32(off + tl, n.next);
    proof {
        if r2 is Err {
            assert(false);
        }
        T::lemma_round_trip(n.item);
        lemma_auto_spec_u32_to_from_le_bytes();
        let w = s.mem().subrange(off as int, off + lnlen::<T>());
        assert(w.subrange(0, tl as int) =~= sa.mem().subrange(off as int, off + tl));
        assert(sa.mem().subrange(off as int, off + tl) =~= n.item.enc());
        assert(w.subrange(tl as int, tl + 4) =~= s.mem().subrange(off + tl, off + tl + 4));
        assert(u32_at(s.mem(), off + tl) == n.next);
        assert(lnode_at::<T>(*s, off) == Some(*n));
    }
}

/// The list header fields as stored at `h`.
pub open spec fn lhdr_at(s: Storage, h: u32) -> Header {
    Header {
        items: u32_at(s.mem(), h as int),
        item_len: u16_at(s.mem(), h + 4),
        head_offset: u32_at(s.mem(), h + 6),
        tail_offset: u32_at(s.mem(), h + 10),
    }
}

/// A serialized list for items `T` lives at header offset `h`.
pub open spec fn ll_valid_at<T: Codec>(s: Storage, h: u32) -> bool {
    &&& h + 14 <= s.mem().len()
    &&& s.recs().dom().contains(h)
    &&& s.recs()[h] == 14
    &&& lhdr_at(s, h).item_len == T::plen()
    &&& (lhdr_at(s, h).items == 0 <==> lhdr_at(s, h).head_offset == 0)
    &&& (lhdr_at(s, h).head_offset == 0 <==> lhdr_at(s, h).tail_offset == 0)
    &&& (lhdr_at(s, h).head_offset != 0 ==> lwf::<T>(s, lhdr_at(s, h).head_offset) && ltail::<T>(
        s,
        lhdr_at(s, h).head_offset,
    ) == lhdr_at(s, h).tail_offset && !lfoot::<T>(s, lhdr_at(s, h).head_offset).contains(h)
        && lhdr_at(s, h).items == lseq::<T>(s, lhdr_at(s, h).head_offset).len())
}

/// The items held by the list whose header is at `h`.
pub open spec fn ll_seq_at<T: Codec>(s: Storage, h: u32) -> Seq<T> {
    if lhdr_at(s, h).head_offset != 0 {
        lseq::<T>(s, lhdr_at(s, h).head_offset)
    } else {
        Seq::empty()
    }
}

/// The records of the list whose header is at `h`: its header and nodes.
pub open spec fn ll_foot<T: Codec>(s: Storage, h: u32) -> Set<u32> {
    (if lhdr_at(s, h).head_offset != 0 {
        lfoot::<T>(s, lhdr_at(s, h).head_offset)
    } else {
        Set::empty()
    }).insert(h)
}

/// Reads the 14-byte list header record at `off`.
fn read_lheader(s: &Storage, off: u32) -> (h: Header)
    requires
        s.inv(),
        off + 14 <= s.mem().len(),
    ensures
        h == lhdr_at(*s, off),
{
    let items = match s.read_u32(off) {
        Ok(v) => v,
        Err(_) => {
            proof {
                assert(false);
            }
            0
        },
    };
    let ib = match s.read_bytes(off + 4, 2) {
        Ok(b) => b,
        Err(_) => {
            proof {
                assert(false);
            }
            Vec::new()
        },
    };
    let head_offset = match s.read_u32(off + 6) {
        Ok(v) => v,
        Err(_) => {
            proof {
                assert(false);
            }
            0
        },
    };
    let tail_offset = match s.read_u32(off + 10) {
        Ok(v) => v,
        Err(_) => {
            proof {
                assert(false);
            }
            0
        },
    };
    Header { items, item_len: u16_from_le_bytes(ib.as_slice()), head_offset, tail_offset }
}

/// Encodes and writes the list header record `h` at `off`. Touches
/// exactly the header's window.
fn write_lheader(s: &mut Storage, off: u32, h: &Header)
    requires
        old(s).inv(),
        off + 14 <= old(s).mem().len(),
    ensures
        final(s).wm() == old(s).wm(),
        final(s).recs() == old(s).recs(),
        final(s).mem().len() == old(s).mem().len(),
        forall|i: int|
            0 <= i < old(s).mem().len() && !(off <= i < off + 14) ==> final(s).mem()[i]
                == old(s).mem()[i],
        lhdr_at(*final(s), off) == *h,
{
    let r1 = s.write_u32(off, h.items);
    proof {
        if r1 is Err {
            assert(false);
        }
    }
    let ghost sa = *s;
    let r2 = s.write(off + 4, &h.item_len);
    proof {
        if r2 is Err {
            assert(false);
        }
    }
    let ghost sb = *s;
    let r3 = s.write_u32(off + 6, h.head_offset);
    proof {
        if r3 is Err {
            assert(false);
        }
    }
    let ghost sc = *s;
    let r4 = s.write_u32(off + 10, h.tail_offset);
    proof {
        if r4 is Err {
            assert(false);
        }
        lemma_auto_spec_u16_to_from_le_bytes();
        lemma_auto_spec_u32_to_from_le_bytes();
        u16::lemma_round_trip(h.item_len);
        assert(s.mem().subrange(off as int, off + 4) =~= sa.mem().subrange(off as int, off + 4));
        assert(u32_at(sa.mem(), off as int) == h.items);
        assert(s.mem().subrange(off + 4, off + 6) =~= sb.mem().subrange(off + 4, off + 6));
        assert(sb.mem().subrange(off + 4, off + 6) =~= h.item_len.enc());
        assert(s.mem().subrange(off + 6, off + 10) =~= sc.mem().subrange(off + 6, off + 10));
        assert(u32_at(sc.mem(), off + 6) == h.head_offset);
        assert(u32_at(s.mem(), off + 10) == h.tail_offset);
    }
}

/// The persistent linked-list handle: the header offset and an in-memory
/// copy of the header, flushed to storage on every mutation.
pub struct StorageLinkedList<T>
where T: Codec {
    header_offset: Offset,
    header: Header,
    _phantom: PhantomData<T>,
}

impl<T: Codec> StorageLinkedList<T> {
    /// The offset of this list's header in the region.
    pub closed spec fn spec_offset(self) -> Offset {
        self.header_offset
    }

    /// The cached copy of the header.
    pub closed spec fn spec_header(self) -> Header {
        self.header
    }

    /// The number of items this handle believes the list holds.
    pub open spec fn spec_len(self) -> u32 {
        self.spec_header().items
    }

    /// The handle is coherent with the storage: a valid serialized list
    /// lives at its offset and the cached header matches the bytes.
    pub open spec fn wf(self, s: Storage) -> bool {
        &&& ll_valid_at::<T>(s, self.spec_offset())
        &&& self.spec_header() == lhdr_at(s, self.spec_offset())
    }

    /// The item sequence this list holds in the given storage.
    pub open spec fn as_seq(self, s: Storage) -> Seq<T> {
        ll_seq_at::<T>(s, self.spec_offset())
    }

    /// Creates a new empty list: allocates a header record and writes the
    /// empty header. Touches nothing below the old watermark.
    pub fn create(s: &mut Storage) -> (r: Result<Self, Error>)
        requires
            old(s).inv(),
        ensures
            final(s).inv(),
            final(s).mem().len() == old(s).mem().len(),
            match r {
                Ok(l) => {
                    &&& l.wf(*final(s))
                    &&& l.as_seq(*final(s)) == Seq::<T>::empty()
                    &&& l.spec_len() == 0
                    &&& l.spec_offset() == old(s).wm()
                    &&& evolves(*old(s), *final(s), Set::empty())
                    &&& final(s).recs() == old(s).recs().insert(l.spec_offset(), 14)
                    &&& final(s).wm() == old(s).wm() + 14
                },
                Err(e) => e == Error::OutOfSpace && *final(s) == *old(s)
                    && old(s).wm() + 14 > old(s).mem().len(),
            },
    {
        let ghost s0 = *old(s);
        let h = match s.allocate(14) {
            Ok(o) => o,
            Err(e) => {
                return Err(e);
            },
        };
        let hdr = Header::new::<T>();
        write_lheader(s, h, &hdr);
        proof {
            T::lemma_plen_bounds();
            assert forall|i: int|
                0 <= i < s0.wm() && !rec_touches(s0, Set::empty(), i) implies s.mem()[i]
                == s0.mem()[i] by {}
            assert(evolves(s0, *s, Set::<u32>::empty()));
        }
        Ok(StorageLinkedList { header_offset: h, header: hdr, _phantom: PhantomData })
    }

    /// Loads the list whose header record is at `offset`, checking that
    /// the stored packed length matches `T`; a disagreement is a
    /// `CodecMismatch`, the caller's declared type being wrong.
    pub fn load(s: &Storage, offset: Offset) -> (r: Result<Self, Error>)
        requires
            s.inv(),
        ensures
            match r {
                Ok(l) => {
                    &&& offset + 14 <= s.mem().len()
                    &&& l.spec_offset() == offset
                    &&& l.spec_header() == lhdr_at(*s, offset)
                    &&& lhdr_at(*s, offset).item_len == T::plen()
                    &&& (ll_valid_at::<T>(*s, offset) ==> l.wf(*s) && l.as_seq(*s) == ll_seq_at::<
                        T,
                    >(*s, offset))
                },
                Err(e) => (e == Error::OutOfBounds && offset + 14 > s.mem().len()) || (e
                    == Error::CodecMismatch && offset + 14 <= s.mem().len() && lhdr_at(
                    *s,
                    offset,
                ).item_len != T::plen()),
            },
    {
        if offset as u64 + 14 > s.size() as u64 {
            return Err(Error::OutOfBounds);
        }
        let hdr = read_lheader(s, offset);
        if hdr.item_len != T::packed_len() {
            return Err(Error::CodecMismatch);
        }
        Ok(StorageLinkedList { header_offset: offset, header: hdr, _phantom: PhantomData })
    }

    /// The offset of this list's header, used to persist the handle.
    pub fn offset(&self) -> (r: Offset)
        ensures
            r == self.spec_offset(),
    {
        self.header_offset
    }

    /// The number of elements in the list.
    pub fn len(&self) -> (r: u32)
        ensures
            r == self.spec_len(),
    {
        self.header.items
    }

    /// Whether the list holds no elements.
    pub fn is_empty(&self) -> (r: bool)
        ensures
            r == (self.spec_len() == 0),
    {
        self.header.items == 0
    }

    /// Appends an item at the end of the list: two or three small writes,
    /// no traversal. Fails with `OutOfSpace` exactly when the fresh node
    /// does not fit (or the item counter would overflow), leaving the
    /// list as it was.
    pub fn push_back(&mut self, s: &mut Storage, item: T) -> (r: Result<(), Error>)
        requires
            old(s).inv(),
            old(self).wf(*old(s)),
        ensures
            final(s).inv(),
            final(s).mem().len() == old(s).mem().len(),
            final(self).spec_offset() == old(self).spec_offset(),
            match r {
                Ok(()) => {
                    &&& final(self).wf(*final(s))
                    &&& final(self).as_seq(*final(s)) == old(self).as_seq(*old(s)).push(item)
                    &&& final(self).spec_len() == old(self).spec_len() + 1
                    &&& evolves(
                        *old(s),
                        *final(s),
                        ll_foot::<T>(*old(s), old(self).spec_offset()),
                    )
                    &&& old(s).wm() + lnlen::<T>() <= old(s).mem().len()
                    &&& old(self).spec_len() < u32::MAX
                },
                Err(e) => {
                    &&& e == Error::OutOfSpace
                    &&& *final(s) == *old(s)
                    &&& *final(self) == *old(self)
                    &&& old(self).spec_len() == u32::MAX || old(s).wm() + lnlen::<T>() > old(
                        s,
                    ).mem().len()
                },
            },
    {
        let ghost s0 = *old(s);
        let ghost h = self.header_offset;
        if self.header.items == u32::MAX {
            return Err(Error::OutOfSpace);
        }
        let nl = lnode_len_exec::<T>();
        let new_off = match s.allocate(nl) {
            Ok(o) => o,
            Err(e) => {
                return Err(e);
            },
        };
        let ghost s1 = *s;
        let node = Node::new(item);
        write_lnode::<T>(s, new_off, &node);
        let ghost s2 = *s;
        let ghost head = self.header.head_offset;
        let ghost t = self.header.tail_offset;
        if self.header.items == 0 {
            self.header.head_offset = new_off;
            self.header.items = 1;
            self.header.tail_offset = new_off;
            write_lheader(s, self.header_offset, &self.header);
            proof {
                assert(s.mem().subrange(new_off as int, new_off + lnlen::<T>())
                    =~= s2.mem().subrange(new_off as int, new_off + lnlen::<T>()));
                assert(lnode_at::<T>(*s, new_off) == Some(node));
                assert(lwf::<T>(*s, new_off));
                assert(lseq::<T>(*s, new_off) =~= seq![item]);
                assert(lfoot::<T>(*s, new_off) =~= set![new_off]);
                assert(ltail::<T>(*s, new_off) == new_off);
                assert forall|i: int|
                    0 <= i < s0.wm() && !rec_touches(s0, set![h], i) implies s.mem()[i]
                    == s0.mem()[i] by {
                    if h <= i < h + 14 {
                        assert(set![h].contains(h));
                        assert(rec_touches(s0, set![h], i));
                    }
                }
                assert(evolves(s0, *s, set![h]));
                lemma_evolves_widen(s0, *s, set![h], ll_foot::<T>(s0, h));
                assert(self.as_seq(*s) =~= old(self).as_seq(s0).push(item));
            }
            return Ok(());
        }
        proof {
            lemma_lfoot_props::<T>(s0, head);
            assert(t + lnlen::<T>() <= s0.wm());
            assert(s2.mem().subrange(t as int, t + lnlen::<T>()) =~= s0.mem().subrange(
                t as int,
                t + lnlen::<T>(),
            ));
            assert(lnode_at::<T>(s2, t) == lnode_at::<T>(s0, t));
        }
        let tail_node = read_lnode::<T>(s, self.header.tail_offset);
        let updated = Node { item: tail_node.item, next: new_off };
        write_lnode::<T>(s, self.header.tail_offset, &updated);
        let ghost s3 = *s;
        self.header.items = self.header.items + 1;
        self.header.tail_offset = new_off;
        write_lheader(s, self.header_offset, &self.header);
        proof {
            // the tail node the handle cached is the chain's real tail
            assert(t == ltail::<T>(s0, head));
            assert(lnode_at::<T>(s2, t) == lnode_at::<T>(s0, t)) by {
                assert(t + lnlen::<T>() <= s0.wm());
                assert(s2.mem().subrange(t as int, t + lnlen::<T>()) =~= s0.mem().subrange(
                    t as int,
                    t + lnlen::<T>(),
                ));
            }
            // after rewriting the tail, the chain grew by one node
            assert forall|i: int|
                0 <= i < s0.wm() && !rec_touches(s0, set![t], i) implies s3.mem()[i]
                == s0.mem()[i] by {
                if t <= i < t + lnlen::<T>() {
                    assert(set![t].contains(t));
                    assert(rec_touches(s0, set![t], i));
                }
            }
            assert(evolves(s0, s3, set![t]));
            assert(lnode_at::<T>(s3, new_off) == Some(node)) by {
                assert(s3.mem().subrange(new_off as int, new_off + lnlen::<T>())
                    =~= s2.mem().subrange(new_off as int, new_off + lnlen::<T>()));
            }
            lemma_push_chain::<T>(s0, s3, head, t, new_off, item);
            // the header rewrite touched no node record
            assert forall|i: int|
                0 <= i < s3.wm() && !rec_touches(s3, set![h], i) implies s.mem()[i]
                == s3.mem()[i] by {
                if h <= i < h + 14 {
                    assert(set![h].contains(h));
                    assert(rec_touches(s3, set![h], i));
                }
            }
            assert(evolves(s3, *s, set![h]));
            assert forall|o: u32| lfoot::<T>(s3, head).contains(o) implies !(set![h].contains(
                o,
            )) by {
                if o == h {
                    if lfoot::<T>(s0, head).contains(o) {
                        assert(!lfoot::<T>(s0, head).contains(h));
                    } else {
                        assert(o == new_off);
                        assert(h + 14 <= s0.wm());
                    }
                }
            }
            lemma_list_frame::<T>(s3, *s, set![h], head);
            assert(!lfoot::<T>(*s, head).contains(h));
            assert(self.wf(*s));
            assert(self.as_seq(*s) == old(self).as_seq(s0).push(item));
            // compose the two evolutions over the list's footprint
            assert forall|i: int|
                0 <= i < s0.wm() && !rec_touches(s0, ll_foot::<T>(s0, h), i) implies s.mem()[i]
                == s0.mem()[i] by {
                assert(ll_foot::<T>(s0, h).contains(h));
                assert(ll_foot::<T>(s0, h).contains(t));
                if t <= i < t + lnlen::<T>() {
                    assert(rec_touches(s0, ll_foot::<T>(s0, h), i));
                    assert(false);
                }
                if h <= i < h + 14 {
                    assert(rec_touches(s0, ll_foot::<T>(s0, h), i));
                    assert(false);
                }
                assert(s3.mem()[i] == s0.mem()[i]);
                assert(s.mem()[i] == s3.mem()[i]);
            }
            assert(evolves(s0, *s, ll_foot::<T>(s0, h)));
        }
        Ok(())
    }

    /// A forward iterator over the list's items, from the head.
    pub fn into_iter<'a>(&self, storage: &'a Storage) -> (it: StorageLinkedListIter<'a, T>)
        requires
            storage.inv(),
            self.wf(*storage),
        ensures
            it.wf(),
            it.elems() == self.as_seq(*storage),
            it.pos() == 0,
    {
        proof {
            let es = self.as_seq(*storage);
            assert(es.subrange(0, es.len() as int) =~= es);
        }
        StorageLinkedListIter {
            storage,
            cur_offset: self.header.head_offset,
            elems: Ghost(self.as_seq(*storage)),
            pos: Ghost(0),
        }
    }
}

/// An iterator over the elements of a `StorageLinkedList`: forward-only,
/// single-pass, non-restartable unless reconstructed from the list.
pub struct StorageLinkedListIter<'a, T>
where T: Codec {
    storage: &'a Storage,
    cur_offset: Offset,
    elems: Ghost<Seq<T>>,
    pos: Ghost<int>,
}

impl<'a, T: Codec> StorageLinkedListIter<'a, T> {
    /// The full item sequence being walked.
    pub closed spec fn elems(self) -> Seq<T> {
        self.elems@
    }

    /// How many items have been yielded so far.
    pub closed spec fn pos(self) -> int {
        self.pos@
    }

    /// The iterator is coherent: what remains of the chain holds exactly
    /// the items not yet yielded.
    pub closed spec fn wf(self) -> bool {
        &&& self.storage.inv()
        &&& 0 <= self.pos@ <= self.elems@.len()
        &&& if self.cur_offset == 0 {
            self.pos@ == self.elems@.len()
        } else {
            lwf::<T>(*self.storage, self.cur_offset) && lseq::<T>(*self.storage, self.cur_offset)
                == self.elems@.subrange(self.pos@, self.elems@.len() as int)
        }
    }

    /// Yields the next item, or `None` past the end.
    pub fn next(&mut self) -> (r: Option<T>)
        requires
            old(self).wf(),
        ensures
            final(self).wf(),
            final(self).elems() == old(self).elems(),
            if old(self).pos() < old(self).elems().len() {
                r == Some(old(self).elems()[old(self).pos()]) && final(self).pos() == old(
                    self,
                ).pos() + 1
            } else {
                r is None && final(self).pos() == old(self).pos()
            },
    {
        if self.cur_offset == 0 {
            return None;
        }
        let node = read_lnode::<T>(self.storage, self.cur_offset);
        proof {
            let es = self.elems@;
            let p = self.pos@;
            assert(lseq::<T>(*self.storage, self.cur_offset) == es.subrange(p, es.len() as int));
            if node.next != 0 {
                assert(lseq::<T>(*self.storage, self.cur_offset) == seq![node.item] + lseq::<T>(
                    *self.storage,
                    node.next,
                ));
                let tailseq = lseq::<T>(*self.storage, node.next);
                let whole = es.subrange(p, es.len() as int);
                assert(seq![node.item] + tailseq == whole);
                assert(tailseq =~= whole.subrange(1, whole.len() as int));
                assert(whole.subrange(1, whole.len() as int) =~= es.subrange(
                    p + 1,
                    es.len() as int,
                ));
            } else {
                assert(lseq::<T>(*self.storage, self.cur_offset) =~= seq![node.item]);
                assert(p + 1 == es.len());
            }
            assert(es.subrange(p, es.len() as int)[0] == es[p]);
            assert(es[p] == node.item);
            self.pos@ = self.pos@ + 1;
        }
        self.cur_offset = node.next;
        Some(node.item)
    }
}

/// Law: a coherent list reports exactly as many items as a full iteration
/// yields, the length of its item sequence.
pub proof fn lemma_len_counts_items<T: Codec>(l: StorageLinkedList<T>, s: Storage)
    requires
        l.wf(s),
    ensures
        l.spec_len() == l.as_seq(s).len(),
{
}

/// Law: the contents a list presents are a function of the storage bytes
/// and the header offset alone, so a handle loaded at the offset where a
/// list was built sees the builder's items. Two coherent handles on one
/// header agree.
pub proof fn lemma_reload_agrees<T: Codec>(
    l1: StorageLinkedList<T>,
    l2: StorageLinkedList<T>,
    s: Storage,
)
    requires
        l1.wf(s),
        l2.wf(s),
        l1.spec_offset() == l2.spec_offset(),
    ensures
        l1.as_seq(s) == l2.as_seq(s),
        l1.spec_len() == l2.spec_len(),
{
}

} // verus!
