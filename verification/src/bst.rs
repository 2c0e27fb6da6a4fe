//! Storage binary search tree: an ordered key-to-value map whose nodes are
//! packed records in the storage region, linked by byte offsets. The tree
//! descends left when the existing key is less than or equal to the probed
//! key and right otherwise, the rule both `insert` and `find` share.

use vstd::prelude::*;
use vstd::bytes::*;
use core::marker::PhantomData;
use crate::codec::{Codec, KeyCodec};
use crate::error::Error;
use crate::storage::{
    evolves, lemma_evolves_trans, lemma_evolves_widen, lemma_rec_preserved, rec_touches, u16_at,
    u32_at, Offset, Storage,
};

verus! {

/// The tree's header record: element count, the packed lengths the tree
/// was created with, and the root node's offset (`0` when empty).
pub struct Header {
    /// Number of items in the tree.
    pub items: u32,
    /// Packed byte length of a key.
    pub key_len: u16,
    /// Packed byte length of a value.
    pub value_len: u16,
    /// Offset of the root node; `0` when the tree is empty.
    pub root_offset: Offset,
}

impl Header {
    /// An empty header for a tree of keys `K` and values `V`.
    pub fn new<K: Codec, V: Codec>() -> (h: Header)
        ensures
            h == (Header {
                items: 0,
                key_len: (K::plen() as u16),
                value_len: (V::plen() as u16),
                root_offset: 0,
            }),
    {
        Header {
            items: 0,
            key_len: K::packed_len(),
            value_len: V::packed_len(),
            root_offset: 0,
        }
    }
}

/// A tree node as decoded from its packed record: key, value, and the
/// offsets of the two children (`0` meaning "no child").
pub struct Node<K, V> {
    /// The node's key.
    pub key: K,
    /// The node's value.
    pub value: V,
    /// Offset of the left child, or `0`.
    pub left: Offset,
    /// Offset of the right child, or `0`.
    pub right: Offset,
}

/// Packed length of a node record.
pub open spec fn nlen<K: Codec, V: Codec>() -> int {
    (K::plen() + V::plen() + 8) as int
}

/// What a node record's bytes decode to.
pub open spec fn node_dec<K: Codec, V: Codec>(b: Seq<u8>) -> Option<Node<K, V>> {
    let kl = K::plen() as int;
    let vl = V::plen() as int;
    if b.len() == nlen::<K, V>() && K::dec(b.subrange(0, kl)) is Some && V::dec(
        b.subrange(kl, kl + vl),
    ) is Some {
        Some(
            Node {
                key: K::dec(b.subrange(0, kl)).unwrap(),
                value: V::dec(b.subrange(kl, kl + vl)).unwrap(),
                left: spec_u32_from_le_bytes(b.subrange(kl + vl, kl + vl + 4)),
                right: spec_u32_from_le_bytes(b.subrange(kl + vl + 4, kl + vl + 8)),
            },
        )
    } else {
        None
    }
}

/// The node stored at `off`, if its window lies in the region and decodes.
pub open spec fn node_at<K: Codec, V: Codec>(s: Storage, off: u32) -> Option<Node<K, V>> {
    if off + nlen::<K, V>() <= s.mem().len() {
        node_dec::<K, V>(s.mem().subrange(off as int, off + nlen::<K, V>()))
    } else {
        None
    }
}

/// The set of node offsets of the subtree rooted at `off`.
pub open spec fn nfoot<K: KeyCodec, V: Codec>(s: Storage, off: u32) -> Set<u32>
    decreases s.mem().len() - off,
{
    if off + nlen::<K, V>() <= s.mem().len() && node_at::<K, V>(s, off) is Some {
        let n = node_at::<K, V>(s, off).unwrap();
        let lf = if n.left != 0 && off < n.left && n.left <= s.mem().len() {
            nfoot::<K, V>(s, n.left)
        } else {
            Set::empty()
        };
        let rf = if n.right != 0 && off < n.right && n.right <= s.mem().len() {
            nfoot::<K, V>(s, n.right)
        } else {
            Set::empty()
        };
        lf.union(rf).insert(off)
    } else {
        Set::empty()
    }
}

/// The key-to-value map held by the subtree rooted at `off`.
pub open spec fn nmap<K: KeyCodec, V: Codec>(s: Storage, off: u32) -> Map<K, V>
    decreases s.mem().len() - off,
{
    if off + nlen::<K, V>() <= s.mem().len() && node_at::<K, V>(s, off) is Some {
        let n = node_at::<K, V>(s, off).unwrap();
        let lm = if n.left != 0 && off < n.left && n.left <= s.mem().len() {
            nmap::<K, V>(s, n.left)
        } else {
            Map::empty()
        };
        let rm = if n.right != 0 && off < n.right && n.right <= s.mem().len() {
            nmap::<K, V>(s, n.right)
        } else {
            Map::empty()
        };
        lm.union_prefer_right(rm).insert(n.key, n.value)
    } else {
        Map::empty()
    }
}

/// Well-formedness of the subtree rooted at `off`: the node is a live
/// allocated record that decodes, children lie strictly beyond their
/// parent, keys in the left subtree are greater than the node's key and
/// keys in the right subtree smaller (the shared descent rule), and
/// the two subtrees occupy disjoint sets of records.
pub open spec fn nwf<K: KeyCodec, V: Codec>(s: Storage, off: u32) -> bool
    decreases s.mem().len() - off,
{
    &&& off != 0
    &&& off + nlen::<K, V>() <= s.mem().len()
    &&& s.recs().dom().contains(off)
    &&& s.recs()[off] == nlen::<K, V>()
    &&& node_at::<K, V>(s, off) is Some
    &&& {
        let n = node_at::<K, V>(s, off).unwrap();
        &&& (n.left != 0 ==> off < n.left && n.left <= s.mem().len() && nwf::<K, V>(s, n.left)
            && (forall|k: K| #[trigger]
                nmap::<K, V>(s, n.left).dom().contains(k) ==> K::key_le(n.key, k) && k != n.key))
        &&& (n.right != 0 ==> off < n.right && n.right <= s.mem().len() && nwf::<K, V>(s, n.right)
            && (forall|k: K| #[trigger]
                nmap::<K, V>(s, n.right).dom().contains(k) ==> K::key_le(k, n.key) && k != n.key))
        &&& (n.left != 0 && n.right != 0 ==> nfoot::<K, V>(s, n.left).disjoint(
            nfoot::<K, V>(s, n.right),
        ))
    }
}

/// Every node of a well-formed subtree lies at or beyond the subtree's
/// root and is a live record of a node's length.
pub proof fn lemma_foot_props<K: KeyCodec, V: Codec>(s: Storage, off: u32)
    requires
        nwf::<K, V>(s, off),
    ensures
        nfoot::<K, V>(s, off).contains(off),
        forall|o: u32| #[trigger]
            nfoot::<K, V>(s, off).contains(o) ==> off <= o && s.recs().dom().contains(o)
                && s.recs()[o] == nlen::<K, V>(),
    decreases s.mem().len() - off,
{
    let n = node_at::<K, V>(s, off).unwrap();
    if n.left != 0 {
        lemma_foot_props::<K, V>(s, n.left);
    }
    if n.right != 0 {
        lemma_foot_props::<K, V>(s, n.right);
    }
}

/// Framing: a well-formed subtree whose records an evolution does not
/// touch keeps its well-formedness, its map, and its footprint.
pub proof fn lemma_node_frame<K: KeyCodec, V: Codec>(
    s0: Storage,
    s1: Storage,
    touched: Set<u32>,
    off: u32,
)
    requires
        s0.inv(),
        nwf::<K, V>(s0, off),
        evolves(s0, s1, touched),
        nfoot::<K, V>(s0, off).disjoint(touched),
    ensures
        nwf::<K, V>(s1, off),
        nmap::<K, V>(s1, off) == nmap::<K, V>(s0, off),
        nfoot::<K, V>(s1, off) == nfoot::<K, V>(s0, off),
    decreases s0.mem().len() - off,
{
    lemma_foot_props::<K, V>(s0, off);
    assert(!touched.contains(off));
    lemma_rec_preserved(s0, s1, touched, off);
    assert(s1.mem().subrange(off as int, off + nlen::<K, V>()) == s0.mem().subrange(
        off as int,
        off + nlen::<K, V>(),
    ));
    assert(node_at::<K, V>(s1, off) == node_at::<K, V>(s0, off));
    let n = node_at::<K, V>(s0, off).unwrap();
    if n.left != 0 {
        assert forall|o: u32| nfoot::<K, V>(s0, n.left).contains(o) implies !touched.contains(
            o,
        ) by {
            assert(nfoot::<K, V>(s0, off).contains(o));
        }
        lemma_node_frame::<K, V>(s0, s1, touched, n.left);
    }
    if n.right != 0 {
        assert forall|o: u32| nfoot::<K, V>(s0, n.right).contains(o) implies !touched.contains(
            o,
        ) by {
            assert(nfoot::<K, V>(s0, off).contains(o));
        }
        lemma_node_frame::<K, V>(s0, s1, touched, n.right);
    }
    assert(nmap::<K, V>(s1, off) == nmap::<K, V>(s0, off));
    assert(nfoot::<K, V>(s1, off) == nfoot::<K, V>(s0, off));
}

/// Node record length, computed.
fn node_len_exec<K: Codec, V: Codec>() -> (n: u32)
    ensures
        n == nlen::<K, V>(),
        8 < n <= 0x2_0007,
{
    K::packed_len() as u32 + V::packed_len() as u32 + 8
}

/// Reads and decodes the node record at `off`.
fn read_node<K: Codec, V: Codec>(s: &Storage, off: u32) -> (n: Node<K, V>)
    requires
        s.inv(),
        off + nlen::<K, V>() <= s.mem().len(),
        node_at::<K, V>(*s, off) is Some,
    ensures
        n == node_at::<K, V>(*s, off).unwrap(),
{
    let ghost w = s.mem().subrange(off as int, off + nlen::<K, V>());
    let kl = K::packed_len() as u32;
    let vl = V::packed_len() as u32;
    proof {
        assert(w.subrange(0, kl as int) =~= s.mem().subrange(off as int, off + kl));
        assert(w.subrange(kl as int, kl + vl) =~= s.mem().subrange(off + kl, off + kl + vl));
        assert(w.subrange(kl + vl, kl + vl + 4) =~= s.mem().subrange(
            off + kl + vl,
            off + kl + vl + 4,
        ));
        assert(w.subrange(kl + vl + 4, kl + vl + 8) =~= s.mem().subrange(
            off + kl + vl + 4,
            off + kl + vl + 8,
        ));
    }
    let kb = match s.read_bytes(off, kl) {
        Ok(b) => b,
        Err(_) => {
            proof {
                assert(false);
            }
            Vec::new()
        },
    };
    let key = match K::decode(kb.as_slice()) {
        Ok(v) => v,
        Err(_) => {
            proof {
                assert(false);
            }
            return unreached();
        },
    };
    let vb = match s.read_bytes(off + kl, vl) {
        Ok(b) => b,
        Err(_) => {
            proof {
                assert(false);
            }
            Vec::new()
        },
    };
    let value = match V::decode(vb.as_slice()) {
        Ok(v) => v,
        Err(_) => {
            proof {
                assert(false);
            }
            return unreached();
        },
    };
    let left = match s.read_u32(off + kl + vl) {
        Ok(v) => v,
        Err(_) => {
            proof {
                assert(false);
            }
            0
        },
    };
    let right = match s.read_u32(off + kl + vl + 4) {
        Ok(v) => v,
        Err(_) => {
            proof {
                assert(false);
            }
            0
        },
    };
    Node { key, value, left, right }
}

/// Encodes and writes the node record `n` at `off`. Touches exactly the
/// node's window.
fn write_node<K: Codec, V: Codec>(s: &mut Storage, off: u32, n: &Node<K, V>)
    requires
        old(s).inv(),
        off + nlen::<K, V>() <= old(s).mem().len(),
    ensures
        final(s).wm() == old(s).wm(),
        final(s).recs() == old(s).recs(),
        final(s).mem().len() == old(s).mem().len(),
        forall|i: int|
            0 <= i < old(s).mem().len() && !(off <= i < off + nlen::<K, V>())
                ==> final(s).mem()[i] == old(s).mem()[i],
        node_at::<K, V>(*final(s), off) == Some(*n),
{
    let kl = K::packed_len() as u32;
    let vl = V::packed_len() as u32;
    let r1 = s.write(off, &n.key);
    proof {
        if r1 is Err {
            assert(false);
        }
    }
    let r2 = s.write(off + kl, &n.value);
    proof {
        if r2 is Err {
            assert(false);
        }
    }
    let r3 = s.write_u32(off + kl + vl, n.left);
    proof {
        if r3 is Err {
            assert(false);
        }
    }
    let ghost s3 = *s;
    let r4 = s.write_u32(off + kl + vl + 4, n.right);
    proof {
        if r4 is Err {
            assert(false);
        }
        K::lemma_round_trip(n.key);
        V::lemma_round_trip(n.value);
        lemma_auto_spec_u32_to_from_le_bytes();
        let w = s.mem().subrange(off as int, off + nlen::<K, V>());
        assert(w.subrange(0, kl as int) =~= n.key.enc());
        assert(w.subrange(kl as int, kl + vl) =~= n.value.enc());
        assert(w.subrange(kl + vl, kl + vl + 4) =~= s.mem().subrange(
            off + kl + vl,
            off + kl + vl + 4,
        ));
        assert(w.subrange(kl + vl + 4, kl + vl + 8) =~= s.mem().subrange(
            off + kl + vl + 4,
            off + kl + vl + 8,
        ));
        assert(s.mem().subrange(off + kl + vl, off + kl + vl + 4) =~= s3.mem().subrange(
            off + kl + vl,
            off + kl + vl + 4,
        ));
        assert(u32_at(s.mem(), off + kl + vl) == n.left);
        assert(u32_at(s.mem(), off + kl + vl + 4) == n.right);
        assert(node_at::<K, V>(*s, off) == Some(*n));
    }
}

/// Walks the subtree at `off` for `key`, by the shared descent rule.
fn find_at<K: KeyCodec, V: Codec>(s: &Storage, off: u32, key: &K) -> (r: Option<V>)
    requires
        s.inv(),
        nwf::<K, V>(*s, off),
    ensures
        r == (if nmap::<K, V>(*s, off).dom().contains(*key) {
            Some(nmap::<K, V>(*s, off)[*key])
        } else {
            None::<V>
        }),
    decreases s.mem().len() - off,
{
    let n = read_node::<K, V>(s, off);
    let ghost lm = if n.left != 0 {
        nmap::<K, V>(*s, n.left)
    } else {
        Map::<K, V>::empty()
    };
    let ghost rm = if n.right != 0 {
        nmap::<K, V>(*s, n.right)
    } else {
        Map::<K, V>::empty()
    };
    proof {
        assert(nmap::<K, V>(*s, off) == lm.union_prefer_right(rm).insert(n.key, n.value));
    }
    if n.key.key_eq(key) {
        Some(n.value)
    } else if n.key.key_lte(key) {
        proof {
            if rm.dom().contains(*key) {
                K::lemma_le_antisym(n.key, *key);
                assert(false);
            }
        }
        if n.left == 0 {
            None
        } else {
            find_at::<K, V>(s, n.left, key)
        }
    } else {
        proof {
            K::lemma_le_total(*key, n.key);
            if lm.dom().contains(*key) {
                assert(K::key_le(n.key, *key));
                assert(false);
            }
        }
        if n.right == 0 {
            None
        } else {
            find_at::<K, V>(s, n.right, key)
        }
    }
}

/// After allocating a fresh node and pointing the parent's empty child
/// slot at it, the parent's subtree is well formed and holds the updated
/// map: the fresh record lies beyond every old one, and the two writes
/// touched only the fresh record and the parent's own record.
proof fn lemma_insert_leaf<K: KeyCodec, V: Codec>(
    s0: Storage,
    s1: Storage,
    s2: Storage,
    s3: Storage,
    off: u32,
    new_off: u32,
    key: K,
    value: V,
    go_left: bool,
)
    requires
        s0.inv(),
        s1.inv(),
        nwf::<K, V>(s0, off),
        key != node_at::<K, V>(s0, off).unwrap().key,
        go_left ==> K::key_le(node_at::<K, V>(s0, off).unwrap().key, key) && node_at::<K, V>(
            s0,
            off,
        ).unwrap().left == 0,
        !go_left ==> !K::key_le(node_at::<K, V>(s0, off).unwrap().key, key) && node_at::<K, V>(
            s0,
            off,
        ).unwrap().right == 0,
        // what allocating the fresh node ensured
        new_off == s0.wm(),
        s0.wm() + nlen::<K, V>() <= s0.mem().len(),
        s1.mem() == s0.mem(),
        s1.wm() == new_off + nlen::<K, V>(),
        s1.recs() == s0.recs().insert(new_off, nlen::<K, V>() as u32),
        // what writing the fresh node ensured
        s2.wm() == s1.wm(),
        s2.recs() == s1.recs(),
        s2.mem().len() == s1.mem().len(),
        forall|i: int|
            0 <= i < s1.mem().len() && !(new_off <= i < new_off + nlen::<K, V>())
                ==> s2.mem()[i] == s1.mem()[i],
        node_at::<K, V>(s2, new_off) == Some(Node { key, value, left: 0u32, right: 0u32 }),
        // what rewriting the parent ensured
        s3.wm() == s2.wm(),
        s3.recs() == s2.recs(),
        s3.mem().len() == s2.mem().len(),
        forall|i: int|
            0 <= i < s2.mem().len() && !(off <= i < off + nlen::<K, V>()) ==> s3.mem()[i]
                == s2.mem()[i],
        node_at::<K, V>(s3, off) == Some(
            Node {
                key: node_at::<K, V>(s0, off).unwrap().key,
                value: node_at::<K, V>(s0, off).unwrap().value,
                left: if go_left {
                    new_off
                } else {
                    node_at::<K, V>(s0, off).unwrap().left
                },
                right: if go_left {
                    node_at::<K, V>(s0, off).unwrap().right
                } else {
                    new_off
                },
            },
        ),
    ensures
        s3.inv(),
        evolves(s0, s3, nfoot::<K, V>(s0, off)),
        nwf::<K, V>(s3, off),
        nmap::<K, V>(s3, off) == nmap::<K, V>(s0, off).insert(key, value),
        forall|o: u32| #[trigger]
            nfoot::<K, V>(s3, off).contains(o) ==> nfoot::<K, V>(s0, off).contains(o) || o
                >= s0.wm(),
        !nmap::<K, V>(s0, off).dom().contains(key),
{
    let nn = node_at::<K, V>(s0, off).unwrap();
    let sib = if go_left {
        nn.right
    } else {
        nn.left
    };
    let sm = if sib != 0 {
        nmap::<K, V>(s0, sib)
    } else {
        Map::<K, V>::empty()
    };
    let sf = if sib != 0 {
        nfoot::<K, V>(s0, sib)
    } else {
        Set::<u32>::empty()
    };
    lemma_foot_props::<K, V>(s0, off);
    if sib != 0 {
        lemma_foot_props::<K, V>(s0, sib);
    }
    assert(s3.inv());
    // the probed key lives on the empty side, so it is not in the tree
    if sm.dom().contains(key) {
        if go_left {
            K::lemma_le_antisym(key, nn.key);
        } else {
            K::lemma_le_total(key, nn.key);
        }
        assert(false);
    }
    assert(!nmap::<K, V>(s0, off).dom().contains(key));
    // only the parent's record changed below the old watermark
    assert(off + nlen::<K, V>() <= s0.wm());
    assert forall|i: int|
        0 <= i < s0.wm() && !rec_touches(s0, set![off], i) implies s3.mem()[i] == s0.mem()[
        i
    ] by {
        if off <= i < off + nlen::<K, V>() {
            assert(set![off].contains(off));
            assert(rec_touches(s0, set![off], i));
        }
    }
    assert(evolves(s0, s3, set![off]));
    // the fresh node survived the parent rewrite
    assert(s3.mem().subrange(new_off as int, new_off + nlen::<K, V>()) =~= s2.mem().subrange(
        new_off as int,
        new_off + nlen::<K, V>(),
    ));
    assert(node_at::<K, V>(s3, new_off) == Some(Node { key, value, left: 0u32, right: 0u32 }));
    assert(nwf::<K, V>(s3, new_off));
    assert(nmap::<K, V>(s3, new_off) =~= Map::<K, V>::empty().insert(key, value));
    assert(nfoot::<K, V>(s3, new_off) =~= Set::<u32>::empty().insert(new_off));
    // the sibling's subtree was untouched
    if sib != 0 {
        assert forall|o: u32| sf.contains(o) implies !(set![off].contains(o)) by {
            assert(o >= sib);
        }
        lemma_node_frame::<K, V>(s0, s3, set![off], sib);
    }
    if !go_left {
        K::lemma_le_total(key, nn.key);
    }
    assert forall|k: K| #[trigger]
        nmap::<K, V>(s3, new_off).dom().contains(k) implies (if go_left {
        K::key_le(nn.key, k) && k != nn.key
    } else {
        K::key_le(k, nn.key) && k != nn.key
    }) by {
        assert(k == key);
    }
    // the fresh record is beyond the sibling's whole footprint
    assert forall|o: u32| nfoot::<K, V>(s3, new_off).contains(o) implies !sf.contains(o) by {
        assert(o == new_off);
        if sf.contains(o) {
            assert(o + nlen::<K, V>() <= s0.wm());
        }
    }
    assert(nwf::<K, V>(s3, off));
    assert(nmap::<K, V>(s3, off) =~= nmap::<K, V>(s0, off).insert(key, value));
    assert forall|o: u32| #[trigger]
        nfoot::<K, V>(s3, off).contains(o) implies nfoot::<K, V>(s0, off).contains(o) || o
        >= s0.wm() by {
        if o != off && !sf.contains(o) {
            assert(nfoot::<K, V>(s3, new_off).contains(o));
            assert(o == new_off);
        }
    }
}

/// After a recursive insertion into one child's subtree, the parent's
/// subtree is well formed again and holds the updated map: the other child
/// and the parent's own record were outside the touched footprint.
proof fn lemma_insert_step<K: KeyCodec, V: Codec>(
    s0: Storage,
    s1: Storage,
    off: u32,
    child: u32,
    key: K,
    value: V,
    go_left: bool,
    was_some: bool,
)
    requires
        s0.inv(),
        s1.inv(),
        nwf::<K, V>(s0, off),
        key != node_at::<K, V>(s0, off).unwrap().key,
        go_left ==> K::key_le(node_at::<K, V>(s0, off).unwrap().key, key),
        !go_left ==> !K::key_le(node_at::<K, V>(s0, off).unwrap().key, key),
        child == if go_left {
            node_at::<K, V>(s0, off).unwrap().left
        } else {
            node_at::<K, V>(s0, off).unwrap().right
        },
        child != 0,
        evolves(s0, s1, nfoot::<K, V>(s0, child)),
        nwf::<K, V>(s1, child),
        nmap::<K, V>(s1, child) == nmap::<K, V>(s0, child).insert(key, value),
        forall|o: u32| #[trigger]
            nfoot::<K, V>(s1, child).contains(o) ==> nfoot::<K, V>(s0, child).contains(o) || o
                >= s0.wm(),
        was_some ==> nmap::<K, V>(s0, child).dom().contains(key) && nfoot::<K, V>(s1, child)
            == nfoot::<K, V>(s0, child),
        !was_some ==> !nmap::<K, V>(s0, child).dom().contains(key),
    ensures
        evolves(s0, s1, nfoot::<K, V>(s0, off)),
        nwf::<K, V>(s1, off),
        nmap::<K, V>(s1, off) == nmap::<K, V>(s0, off).insert(key, value),
        forall|o: u32| #[trigger]
            nfoot::<K, V>(s1, off).contains(o) ==> nfoot::<K, V>(s0, off).contains(o) || o
                >= s0.wm(),
        was_some ==> nmap::<K, V>(s0, off).dom().contains(key) && nmap::<K, V>(s0, off)[key]
            == nmap::<K, V>(s0, child)[key] && nfoot::<K, V>(s1, off) == nfoot::<K, V>(s0, off),
        !was_some ==> !nmap::<K, V>(s0, off).dom().contains(key),
{
    let nn = node_at::<K, V>(s0, off).unwrap();
    let sib = if go_left {
        nn.right
    } else {
        nn.left
    };
    let cm0 = nmap::<K, V>(s0, child);
    let cf0 = nfoot::<K, V>(s0, child);
    let sm = if sib != 0 {
        nmap::<K, V>(s0, sib)
    } else {
        Map::<K, V>::empty()
    };
    let sf = if sib != 0 {
        nfoot::<K, V>(s0, sib)
    } else {
        Set::<u32>::empty()
    };
    lemma_foot_props::<K, V>(s0, off);
    lemma_foot_props::<K, V>(s0, child);
    if sib != 0 {
        lemma_foot_props::<K, V>(s0, sib);
    }
    // the probed key cannot live on the sibling's side
    if sm.dom().contains(key) {
        if go_left {
            K::lemma_le_antisym(key, nn.key);
        } else {
            K::lemma_le_total(key, nn.key);
        }
        assert(false);
    }
    // the parent's own record was outside the touched footprint
    assert forall|o: u32| cf0.contains(o) implies o != off by {
        assert(o >= child);
    }
    assert(!cf0.contains(off));
    lemma_rec_preserved(s0, s1, cf0, off);
    assert(s1.mem().subrange(off as int, off + nlen::<K, V>()) == s0.mem().subrange(
        off as int,
        off + nlen::<K, V>(),
    ));
    assert(node_at::<K, V>(s1, off) == Some(nn));
    // the sibling's subtree was outside it too
    if sib != 0 {
        assert(sf.disjoint(cf0)) by {
            if go_left {
                assert(nfoot::<K, V>(s0, nn.left).disjoint(nfoot::<K, V>(s0, nn.right)));
                assert forall|o: u32| sf.contains(o) implies !cf0.contains(o) by {
                    assert(!nfoot::<K, V>(s0, nn.right).contains(o) || !nfoot::<K, V>(
                        s0,
                        nn.left,
                    ).contains(o));
                }
            }
        }
        lemma_node_frame::<K, V>(s0, s1, cf0, sib);
    }
    // ordering below the child still holds with the one new key
    assert forall|k: K| #[trigger]
        nmap::<K, V>(s1, child).dom().contains(k) implies (if go_left {
        K::key_le(nn.key, k) && k != nn.key
    } else {
        K::key_le(k, nn.key) && k != nn.key
    }) by {
        if k != key {
            assert(cm0.dom().contains(k));
        } else {
            if !go_left {
                K::lemma_le_total(key, nn.key);
            }
        }
    }
    // the child's new records are fresh, so the subtrees stay disjoint
    assert forall|o: u32| nfoot::<K, V>(s1, child).contains(o) implies !sf.contains(o) by {
        if cf0.contains(o) {
            assert(!sf.contains(o));
        } else {
            assert(o >= s0.wm());
            if sf.contains(o) {
                assert(o + nlen::<K, V>() <= s0.wm());
            }
        }
    }
    assert(nwf::<K, V>(s1, off));
    assert(nmap::<K, V>(s1, off) =~= nmap::<K, V>(s0, off).insert(key, value));
    assert(cf0.subset_of(nfoot::<K, V>(s0, off)));
    lemma_evolves_widen(s0, s1, cf0, nfoot::<K, V>(s0, off));
    assert forall|o: u32| #[trigger]
        nfoot::<K, V>(s1, off).contains(o) implies nfoot::<K, V>(s0, off).contains(o) || o
        >= s0.wm() by {
        if o != off && !sf.contains(o) {
            assert(nfoot::<K, V>(s1, child).contains(o));
        }
    }
    if was_some {
        assert(nmap::<K, V>(s0, off).dom().contains(key));
        assert(nmap::<K, V>(s0, off)[key] == cm0[key]);
        assert(nfoot::<K, V>(s1, off) =~= nfoot::<K, V>(s0, off));
    }
}

/// Inserts into the non-empty subtree rooted at `off`: overwrites the
/// value in place on a key match, otherwise descends by the shared rule
/// and hangs a fresh node off the node where the walk falls off the tree.
fn insert_at<K: KeyCodec, V: Codec>(s: &mut Storage, off: u32, key: K, value: V) -> (r: Result<
    Option<V>,
    Error,
>)
    requires
        old(s).inv(),
        nwf::<K, V>(*old(s), off),
    ensures
        final(s).inv(),
        match r {
            Ok(prev) => {
                &&& evolves(*old(s), *final(s), nfoot::<K, V>(*old(s), off))
                &&& nwf::<K, V>(*final(s), off)
                &&& nmap::<K, V>(*final(s), off) == nmap::<K, V>(*old(s), off).insert(key, value)
                &&& forall|o: u32| #[trigger]
                    nfoot::<K, V>(*final(s), off).contains(o) ==> nfoot::<K, V>(
                        *old(s),
                        off,
                    ).contains(o) || o >= old(s).wm()
                &&& match prev {
                    Some(pv) => nmap::<K, V>(*old(s), off).dom().contains(key) && pv == nmap::<
                        K,
                        V,
                    >(*old(s), off)[key] && final(s).recs() == old(s).recs() && final(s).wm()
                        == old(s).wm() && nfoot::<K, V>(*final(s), off) == nfoot::<K, V>(
                        *old(s),
                        off,
                    ),
                    None => !nmap::<K, V>(*old(s), off).dom().contains(key) && old(s).wm()
                        + nlen::<K, V>() <= old(s).mem().len(),
                }
            },
            Err(e) => e == Error::OutOfSpace && *final(s) == *old(s) && old(s).wm() + nlen::<
                K,
                V,
            >() > old(s).mem().len() && !nmap::<K, V>(*old(s), off).dom().contains(key),
        },
    decreases old(s).mem().len() - off,
{
    let ghost s0 = *old(s);
    let n = read_node::<K, V>(s, off);
    let ghost nn = node_at::<K, V>(s0, off).unwrap();
    let ghost lm = if nn.left != 0 {
        nmap::<K, V>(s0, nn.left)
    } else {
        Map::<K, V>::empty()
    };
    let ghost rm = if nn.right != 0 {
        nmap::<K, V>(s0, nn.right)
    } else {
        Map::<K, V>::empty()
    };
    let ghost lf = if nn.left != 0 {
        nfoot::<K, V>(s0, nn.left)
    } else {
        Set::<u32>::empty()
    };
    let ghost rf = if nn.right != 0 {
        nfoot::<K, V>(s0, nn.right)
    } else {
        Set::<u32>::empty()
    };
    proof {
        assert(nmap::<K, V>(s0, off) == lm.union_prefer_right(rm).insert(nn.key, nn.value));
        assert(nfoot::<K, V>(s0, off) == lf.union(rf).insert(off));
        lemma_foot_props::<K, V>(s0, off);
        if nn.left != 0 {
            lemma_foot_props::<K, V>(s0, nn.left);
        }
        if nn.right != 0 {
            lemma_foot_props::<K, V>(s0, nn.right);
        }
    }
    if n.key.key_eq(&key) {
        let n2 = Node { key, value, left: n.left, right: n.right };
        write_node::<K, V>(s, off, &n2);
        proof {
            assert forall|i: int|
                0 <= i < s0.wm() && !rec_touches(s0, set![off], i) implies s.mem()[i]
                == s0.mem()[i] by {
                if off <= i < off + nlen::<K, V>() {
                    assert(set![off].contains(off));
                    assert(rec_touches(s0, set![off], i));
                }
            }
            assert(evolves(s0, *s, set![off]));
            if nn.left != 0 {
                assert(nfoot::<K, V>(s0, nn.left).disjoint(set![off])) by {
                    assert forall|o: u32|
                        nfoot::<K, V>(s0, nn.left).contains(o) implies !(set![off].contains(
                        o,
                    )) by {
                        assert(o >= nn.left);
                    }
                }
                lemma_node_frame::<K, V>(s0, *s, set![off], nn.left);
            }
            if nn.right != 0 {
                assert(nfoot::<K, V>(s0, nn.right).disjoint(set![off])) by {
                    assert forall|o: u32|
                        nfoot::<K, V>(s0, nn.right).contains(o) implies !(set![off].contains(
                        o,
                    )) by {
                        assert(o >= nn.right);
                    }
                }
                lemma_node_frame::<K, V>(s0, *s, set![off], nn.right);
            }
            assert(nwf::<K, V>(*s, off));
            assert(nmap::<K, V>(*s, off) =~= nmap::<K, V>(s0, off).insert(key, value));
            assert(nfoot::<K, V>(*s, off) =~= nfoot::<K, V>(s0, off));
        }
        return Ok(Some(n.value));
    }
    let nl = node_len_exec::<K, V>();
    if n.key.key_lte(&key) {
        proof {
            if rm.dom().contains(key) {
                K::lemma_le_antisym(key, nn.key);
                assert(false);
            }
        }
        if n.left == 0 {
            let new_off = match s.allocate(nl) {
                Ok(o) => o,
                Err(e) => {
                    return Err(e);
                },
            };
            let ghost s1 = *s;
            let n_new = Node { key, value, left: 0, right: 0 };
            write_node::<K, V>(s, new_off, &n_new);
            let ghost s2 = *s;
            let n2 = Node { key: n.key, value: n.value, left: new_off, right: n.right };
            write_node::<K, V>(s, off, &n2);
            proof {
                lemma_insert_leaf::<K, V>(s0, s1, s2, *s, off, new_off, key, value, true);
            }
            return Ok(None);
        }
        let rr = insert_at::<K, V>(s, n.left, key, value);
        match rr {
            Ok(prev) => {
                proof {
                    lemma_insert_step::<K, V>(s0, *s, off, n.left, key, value, true, prev is Some);
                }
                Ok(prev)
            },
            Err(e) => Err(e),
        }
    } else {
        proof {
            K::lemma_le_total(key, nn.key);
            if lm.dom().contains(key) {
                assert(false);
            }
        }
        if n.right == 0 {
            let new_off = match s.allocate(nl) {
                Ok(o) => o,
                Err(e) => {
                    return Err(e);
                },
            };
            let ghost s1 = *s;
            let n_new = Node { key, value, left: 0, right: 0 };
            write_node::<K, V>(s, new_off, &n_new);
            let ghost s2 = *s;
            let n2 = Node { key: n.key, value: n.value, left: n.left, right: new_off };
            write_node::<K, V>(s, off, &n2);
            proof {
                lemma_insert_leaf::<K, V>(s0, s1, s2, *s, off, new_off, key, value, false);
            }
            return Ok(None);
        }
        let rr = insert_at::<K, V>(s, n.right, key, value);
        match rr {
            Ok(prev) => {
                proof {
                    lemma_insert_step::<K, V>(
                        s0,
                        *s,
                        off,
                        n.right,
                        key,
                        value,
                        false,
                        prev is Some,
                    );
                }
                Ok(prev)
            },
            Err(e) => Err(e),
        }
    }
}

/// The header fields as stored at `h`.
pub open spec fn hdr_at(s: Storage, h: u32) -> Header {
    Header {
        items: u32_at(s.mem(), h as int),
        key_len: u16_at(s.mem(), h + 4),
        value_len: u16_at(s.mem(), h + 6),
        root_offset: u32_at(s.mem(), h + 8),
    }
}

/// A serialized tree for keys `K` and values `V` lives at header offset
/// `h`: the header is a live record whose packed lengths match the types,
/// the tree is empty exactly when the root offset is null, and a non-null
/// root heads a well-formed subtree that does not cover the header.
pub open spec fn bst_valid_at<K: KeyCodec, V: Codec>(s: Storage, h: u32) -> bool {
    &&& h + 12 <= s.mem().len()
    &&& s.recs().dom().contains(h)
    &&& s.recs()[h] == 12
    &&& hdr_at(s, h).key_len == K::plen()
    &&& hdr_at(s, h).value_len == V::plen()
    &&& (hdr_at(s, h).items == 0 <==> hdr_at(s, h).root_offset == 0)
    &&& (hdr_at(s, h).root_offset != 0 ==> nwf::<K, V>(s, hdr_at(s, h).root_offset) && !nfoot::<
        K,
        V,
    >(s, hdr_at(s, h).root_offset).contains(h))
}

/// The map held by the tree whose header is at `h`.
pub open spec fn bst_map_at<K: KeyCodec, V: Codec>(s: Storage, h: u32) -> Map<K, V> {
    if hdr_at(s, h).root_offset != 0 {
        nmap::<K, V>(s, hdr_at(s, h).root_offset)
    } else {
        Map::empty()
    }
}

/// The records of the tree whose header is at `h`: its header and nodes.
pub open spec fn bst_foot<K: KeyCodec, V: Codec>(s: Storage, h: u32) -> Set<u32> {
    (if hdr_at(s, h).root_offset != 0 {
        nfoot::<K, V>(s, hdr_at(s, h).root_offset)
    } else {
        Set::empty()
    }).insert(h)
}

/// Reads the 12-byte header record at `off`.
fn read_header(s: &Storage, off: u32) -> (h: Header)
    requires
        s.inv(),
        off + 12 <= s.mem().len(),
    ensures
        h == hdr_at(*s, off),
{
    let items = match s.read_u32(off) {
        Ok(v) => v,
        Err(_) => {
            proof {
                assert(false);
            }
            0
        },
    };
    let kb = match s.read_bytes(off + 4, 2) {
        Ok(b) => b,
        Err(_) => {
            proof {
                assert(false);
            }
            Vec::new()
        },
    };
    let vb = match s.read_bytes(off + 6, 2) {
        Ok(b) => b,
        Err(_) => {
            proof {
                assert(false);
            }
            Vec::new()
        },
    };
    let root_offset = match s.read_u32(off + 8) {
        Ok(v) => v,
        Err(_) => {
            proof {
                assert(false);
            }
            0
        },
    };
    Header { items, key_len: u16_from_le_bytes(kb.as_slice()), value_len: u16_from_le_bytes(
        vb.as_slice(),
    ), root_offset }
}

/// Encodes and writes the header record `h` at `off`. Touches exactly the
/// header's window.
fn write_header(s: &mut Storage, off: u32, h: &Header)
    requires
        old(s).inv(),
        off + 12 <= old(s).mem().len(),
    ensures
        final(s).wm() == old(s).wm(),
        final(s).recs() == old(s).recs(),
        final(s).mem().len() == old(s).mem().len(),
        forall|i: int|
            0 <= i < old(s).mem().len() && !(off <= i < off + 12) ==> final(s).mem()[i]
                == old(s).mem()[i],
        hdr_at(*final(s), off) == *h,
{
    let r1 = s.write_u32(off, h.items);
    proof {
        if r1 is Err {
            assert(false);
        }
    }
    let ghost sa = *s;
    let r2 = s.write(off + 4, &h.key_len);
    proof {
        if r2 is Err {
            assert(false);
        }
    }
    let ghost sb = *s;
    let r3 = s.write(off + 6, &h.value_len);
    proof {
        if r3 is Err {
            assert(false);
        }
    }
    let ghost s3 = *s;
    let r4 = s.write_u32(off + 8, h.root_offset);
    proof {
        if r4 is Err {
            assert(false);
        }
        lemma_auto_spec_u16_to_from_le_bytes();
        lemma_auto_spec_u32_to_from_le_bytes();
        u16::lemma_round_trip(h.key_len);
        u16::lemma_round_trip(h.value_len);
        assert(s.mem().subrange(off as int, off + 4) =~= sa.mem().subrange(off as int, off + 4));
        assert(u32_at(sa.mem(), off as int) == h.items);
        assert(s.mem().subrange(off + 4, off + 6) =~= sb.mem().subrange(off + 4, off + 6));
        assert(sb.mem().subrange(off + 4, off + 6) =~= h.key_len.enc());
        assert(s.mem().subrange(off + 6, off + 8) =~= s3.mem().subrange(off + 6, off + 8));
        assert(s3.mem().subrange(off + 6, off + 8) =~= h.value_len.enc());
        assert(u32_at(s.mem(), off as int) == h.items);
        assert(u16_at(s.mem(), off + 4) == h.key_len);
        assert(u16_at(s.mem(), off + 6) == h.value_len);
        assert(u32_at(s.mem(), off + 8) == h.root_offset);
    }
}

/// The persistent binary search tree handle: the header offset and an
/// in-memory copy of the header, flushed to storage on every mutation.
pub struct StorageBST<K, V>
where K: KeyCodec, V: Codec {
    header_offset: Offset,
    header: Header,
    _phantom: PhantomData<(K, V)>,
}

impl<K: KeyCodec, V: Codec> StorageBST<K, V> {
    /// The offset of this tree's header in the region.
    pub closed spec fn spec_offset(self) -> Offset {
        self.header_offset
    }

    /// The cached copy of the header.
    pub closed spec fn spec_header(self) -> Header {
        self.header
    }

    /// The number of items this handle believes the tree holds.
    pub open spec fn spec_len(self) -> u32 {
        self.spec_header().items
    }

    /// The handle is coherent with the storage: a valid serialized tree
    /// lives at its offset and the cached header matches the bytes.
    pub open spec fn wf(self, s: Storage) -> bool {
        &&& bst_valid_at::<K, V>(s, self.spec_offset())
        &&& self.spec_header() == hdr_at(s, self.spec_offset())
    }

    /// The map this tree holds in the given storage.
    pub open spec fn as_map(self, s: Storage) -> Map<K, V> {
        bst_map_at::<K, V>(s, self.spec_offset())
    }

    /// Creates a new empty tree: allocates a header record and writes the
    /// empty header. Touches nothing below the old watermark.
    pub fn create(s: &mut Storage) -> (r: Result<Self, Error>)
        requires
            old(s).inv(),
        ensures
            final(s).inv(),
            final(s).mem().len() == old(s).mem().len(),
            match r {
                Ok(b) => {
                    &&& b.wf(*final(s))
                    &&& b.as_map(*final(s)) == Map::<K, V>::empty()
                    &&& b.spec_len() == 0
                    &&& b.spec_offset() == old(s).wm()
                    &&& evolves(*old(s), *final(s), Set::empty())
                    &&& final(s).recs() == old(s).recs().insert(b.spec_offset(), 12)
                    &&& final(s).wm() == old(s).wm() + 12
                    &&& bst_foot::<K, V>(*final(s), b.spec_offset()) == set![b.spec_offset()]
                },
                Err(e) => e == Error::OutOfSpace && *final(s) == *old(s)
                    && old(s).wm() + 12 > old(s).mem().len(),
            },
    {
        let ghost s0 = *old(s);
        let h = match s.allocate(12) {
            Ok(o) => o,
            Err(e) => {
                return Err(e);
            },
        };
        let hdr = Header::new::<K, V>();
        write_header(s, h, &hdr);
        proof {
            K::lemma_plen_bounds();
            V::lemma_plen_bounds();
            assert forall|i: int|
                0 <= i < s0.wm() && !rec_touches(s0, Set::empty(), i) implies s.mem()[i]
                == s0.mem()[i] by {}
            assert(evolves(s0, *s, Set::<u32>::empty()));
            assert(bst_foot::<K, V>(*s, h) =~= set![h]);
        }
        Ok(StorageBST { header_offset: h, header: hdr, _phantom: PhantomData })
    }

    /// Loads the tree whose header record is at `offset`, checking that
    /// the stored packed lengths match `K` and `V`; a disagreement is a
    /// `CodecMismatch`, the caller's declared types being wrong.
    pub fn load(s: &Storage, offset: Offset) -> (r: Result<Self, Error>)
        requires
            s.inv(),
        ensures
            match r {
                Ok(b) => {
                    &&& offset + 12 <= s.mem().len()
                    &&& b.spec_offset() == offset
                    &&& b.spec_header() == hdr_at(*s, offset)
                    &&& hdr_at(*s, offset).key_len == K::plen()
                    &&& hdr_at(*s, offset).value_len == V::plen()
                    &&& (bst_valid_at::<K, V>(*s, offset) ==> b.wf(*s) && b.as_map(*s)
                        == bst_map_at::<K, V>(*s, offset))
                },
                Err(e) => (e == Error::OutOfBounds && offset + 12 > s.mem().len()) || (e
                    == Error::CodecMismatch && offset + 12 <= s.mem().len() && (hdr_at(
                    *s,
                    offset,
                ).key_len != K::plen() || hdr_at(*s, offset).value_len != V::plen())),
            },
    {
        if offset as u64 + 12 > s.size() as u64 {
            return Err(Error::OutOfBounds);
        }
        let hdr = read_header(s, offset);
        if hdr.key_len != K::packed_len() || hdr.value_len != V::packed_len() {
            return Err(Error::CodecMismatch);
        }
        Ok(StorageBST { header_offset: offset, header: hdr, _phantom: PhantomData })
    }

    /// The offset of this tree's header, used to persist the handle.
    pub fn offset(&self) -> (r: Offset)
        ensures
            r == self.spec_offset(),
    {
        self.header_offset
    }

    /// The number of elements in the tree.
    pub fn len(&self) -> (r: u32)
        ensures
            r == self.spec_len(),
    {
        self.header.items
    }

    /// Whether the tree holds no elements.
    pub fn is_empty(&self) -> (r: bool)
        ensures
            r == (self.spec_len() == 0),
    {
        self.header.items == 0
    }

    /// Looks the key up; `None` when it is absent, which is not an error.
    pub fn find(&self, s: &Storage, key: &K) -> (r: Result<Option<V>, Error>)
        requires
            s.inv(),
            self.wf(*s),
        ensures
            r == Ok::<Option<V>, Error>(
                if self.as_map(*s).dom().contains(*key) {
                    Some(self.as_map(*s)[*key])
                } else {
                    None
                },
            ),
    {
        if self.header.items == 0 {
            return Ok(None);
        }
        Ok(find_at::<K, V>(s, self.header.root_offset, key))
    }

    /// Whether the tree holds a value for the key.
    pub fn contains_key(&self, s: &Storage, key: &K) -> (r: Result<bool, Error>)
        requires
            s.inv(),
            self.wf(*s),
        ensures
            r == Ok::<bool, Error>(self.as_map(*s).dom().contains(*key)),
    {
        let f = self.find(s, key)?;
        Ok(f.is_some())
    }

    /// Inserts a key-value pair. Returns the previous value when the key
    /// was present (updating in place, no allocation), `None` when a node
    /// was added. Fails with `OutOfSpace` exactly when a needed node does
    /// not fit (or the item counter would overflow), leaving the tree as
    /// it was.
    pub fn insert(&mut self, s: &mut Storage, key: K, value: V) -> (r: Result<Option<V>, Error>)
        requires
            old(s).inv(),
            old(self).wf(*old(s)),
        ensures
            final(s).inv(),
            final(s).mem().len() == old(s).mem().len(),
            final(self).spec_offset() == old(self).spec_offset(),
            match r {
                Ok(prev) => {
                    &&& final(self).wf(*final(s))
                    &&& final(self).as_map(*final(s)) == old(self).as_map(*old(s)).insert(
                        key,
                        value,
                    )
                    &&& evolves(
                        *old(s),
                        *final(s),
                        bst_foot::<K, V>(*old(s), old(self).spec_offset()),
                    )
                    &&& forall|o: u32| #[trigger]
                        bst_foot::<K, V>(*final(s), final(self).spec_offset()).contains(o)
                            ==> bst_foot::<K, V>(*old(s), old(self).spec_offset()).contains(o)
                            || o >= old(s).wm()
                    &&& old(self).spec_len() < u32::MAX
                    &&& match prev {
                        Some(pv) => old(self).as_map(*old(s)).dom().contains(key)
                            && pv == old(self).as_map(*old(s))[key]
                            && final(self).spec_len() == old(self).spec_len(),
                        None => !old(self).as_map(*old(s)).dom().contains(key)
                            && final(self).spec_len() == old(self).spec_len() + 1
                            && old(s).wm() + nlen::<K, V>() <= old(s).mem().len(),
                    }
                },
                Err(e) => {
                    &&& e == Error::OutOfSpace
                    &&& *final(s) == *old(s)
                    &&& *final(self) == *old(self)
                    &&& old(self).spec_len() == u32::MAX || (!old(self).as_map(
                        *old(s),
                    ).dom().contains(key) && old(s).wm() + nlen::<K, V>() > old(s).mem().len())
                },
            },
    {
        let ghost s0 = *old(s);
        let ghost h = self.header_offset;
        if self.header.items == u32::MAX {
            return Err(Error::OutOfSpace);
        }
        if self.header.items == 0 {
            let nl = node_len_exec::<K, V>();
            let new_off = match s.allocate(nl) {
                Ok(o) => o,
                Err(e) => {
                    return Err(e);
                },
            };
            let ghost s1 = *s;
            let n_new = Node { key, value, left: 0, right: 0 };
            write_node::<K, V>(s, new_off, &n_new);
            let ghost s2 = *s;
            self.header.items = 1;
            self.header.root_offset = new_off;
            write_header(s, self.header_offset, &self.header);
            proof {
                assert(s.mem().subrange(new_off as int, new_off + nlen::<K, V>())
                    =~= s2.mem().subrange(new_off as int, new_off + nlen::<K, V>()));
                assert(node_at::<K, V>(*s, new_off) == Some(n_new));
                assert(nwf::<K, V>(*s, new_off));
                assert(nmap::<K, V>(*s, new_off) =~= Map::<K, V>::empty().insert(key, value));
                assert(nfoot::<K, V>(*s, new_off) =~= Set::<u32>::empty().insert(new_off));
                assert forall|i: int|
                    0 <= i < s0.wm() && !rec_touches(s0, set![h], i) implies s.mem()[i]
                    == s0.mem()[i] by {
                    if h <= i < h + 12 {
                        assert(set![h].contains(h));
                        assert(rec_touches(s0, set![h], i));
                    }
                }
                assert(evolves(s0, *s, set![h]));
                lemma_evolves_widen(s0, *s, set![h], bst_foot::<K, V>(s0, h));
                assert(self.as_map(*s) =~= old(self).as_map(s0).insert(key, value));
                assert forall|o: u32| #[trigger]
                    bst_foot::<K, V>(*s, h).contains(o) implies bst_foot::<K, V>(
                    s0,
                    h,
                ).contains(o) || o >= s0.wm() by {
                    if o != h {
                        assert(nfoot::<K, V>(*s, new_off).contains(o));
                        assert(o == new_off);
                    }
                }
            }
            return Ok(None);
        }
        let ghost root = self.header.root_offset;
        let prev = match insert_at::<K, V>(s, self.header.root_offset, key, value) {
            Ok(p) => p,
            Err(e) => {
                return Err(e);
            },
        };
        let ghost s1 = *s;
        proof {
            lemma_foot_props::<K, V>(s0, root);
            assert forall|o: u32| nfoot::<K, V>(s0, root).contains(o) implies o != h by {
                assert(!nfoot::<K, V>(s0, root).contains(h));
            }
            lemma_rec_preserved(s0, s1, nfoot::<K, V>(s0, root), h);
            assert(s1.mem().subrange(h as int, h + 12) == s0.mem().subrange(h as int, h + 12));
            assert(hdr_at(s1, h).items == hdr_at(s0, h).items) by {
                assert(s1.mem().subrange(h as int, h + 4) =~= s0.mem().subrange(
                    h as int,
                    h + 4,
                ));
            }
            assert(hdr_at(s1, h).key_len == hdr_at(s0, h).key_len) by {
                assert(s1.mem().subrange(h + 4, h + 6) =~= s0.mem().subrange(h + 4, h + 6));
            }
            assert(hdr_at(s1, h).value_len == hdr_at(s0, h).value_len) by {
                assert(s1.mem().subrange(h + 6, h + 8) =~= s0.mem().subrange(h + 6, h + 8));
            }
            assert(hdr_at(s1, h).root_offset == hdr_at(s0, h).root_offset) by {
                assert(s1.mem().subrange(h + 8, h + 12) =~= s0.mem().subrange(h + 8, h + 12));
            }
            assert(hdr_at(s1, h) == hdr_at(s0, h));
        }
        if prev.is_none() {
            self.header.items = self.header.items + 1;
            write_header(s, self.header_offset, &self.header);
            proof {
                lemma_finish_insert::<K, V>(s0, s1, *s, h, root, key, value, prev is Some);
            }
        } else {
            proof {
                lemma_finish_insert::<K, V>(s0, s1, s1, h, root, key, value, prev is Some);
                assert(*s == s1);
            }
        }
        Ok(prev)
    }
}

/// After the root subtree absorbed the insertion and the header was
/// rewritten (or kept, on an in-place update), the whole container is
/// well formed again: the header record is outside every node record.
proof fn lemma_finish_insert<K: KeyCodec, V: Codec>(
    s0: Storage,
    s1: Storage,
    s2: Storage,
    h: u32,
    root: u32,
    key: K,
    value: V,
    was_some: bool,
)
    requires
        s0.inv(),
        s1.inv(),
        bst_valid_at::<K, V>(s0, h),
        hdr_at(s0, h).root_offset == root,
        root != 0,
        hdr_at(s1, h) == hdr_at(s0, h),
        // what the subtree insertion ensured
        evolves(s0, s1, nfoot::<K, V>(s0, root)),
        nwf::<K, V>(s1, root),
        nmap::<K, V>(s1, root) == nmap::<K, V>(s0, root).insert(key, value),
        forall|o: u32| #[trigger]
            nfoot::<K, V>(s1, root).contains(o) ==> nfoot::<K, V>(s0, root).contains(o) || o
                >= s0.wm(),
        was_some ==> nfoot::<K, V>(s1, root) == nfoot::<K, V>(s0, root),
        // what rewriting the header ensured (s2 == s1 when it was kept)
        s2.wm() == s1.wm(),
        s2.recs() == s1.recs(),
        s2.mem().len() == s1.mem().len(),
        forall|i: int|
            0 <= i < s1.mem().len() && !(h <= i < h + 12) ==> s2.mem()[i] == s1.mem()[i],
        hdr_at(s2, h).key_len == hdr_at(s0, h).key_len,
        hdr_at(s2, h).value_len == hdr_at(s0, h).value_len,
        hdr_at(s2, h).root_offset == root,
        hdr_at(s2, h).items != 0,
    ensures
        s2.inv(),
        bst_valid_at::<K, V>(s2, h),
        bst_map_at::<K, V>(s2, h) == bst_map_at::<K, V>(s0, h).insert(key, value),
        evolves(s0, s2, bst_foot::<K, V>(s0, h)),
        forall|o: u32| #[trigger]
            bst_foot::<K, V>(s2, h).contains(o) ==> bst_foot::<K, V>(s0, h).contains(o) || o
                >= s0.wm(),
{
    assert(s2.inv());
    lemma_foot_props::<K, V>(s0, root);
    lemma_foot_props::<K, V>(s1, root);
    // the header rewrite touched no node record
    assert forall|i: int|
        0 <= i < s1.wm() && !rec_touches(s1, set![h], i) implies s2.mem()[i] == s1.mem()[i] by {
        if h <= i < h + 12 {
            assert(set![h].contains(h));
            assert(rec_touches(s1, set![h], i));
        }
    }
    assert(evolves(s1, s2, set![h]));
    assert forall|o: u32| nfoot::<K, V>(s1, root).contains(o) implies !(set![h].contains(
        o,
    )) by {
        if o == h {
            if nfoot::<K, V>(s0, root).contains(o) {
                assert(!nfoot::<K, V>(s0, root).contains(h));
            } else {
                assert(o >= s0.wm());
                assert(h + 12 <= s0.wm());
            }
        }
    }
    lemma_node_frame::<K, V>(s1, s2, set![h], root);
    assert(!nfoot::<K, V>(s2, root).contains(h));
    assert(bst_valid_at::<K, V>(s2, h));
    assert(bst_map_at::<K, V>(s2, h) == bst_map_at::<K, V>(s0, h).insert(key, value));
    // compose the two evolutions over the container's footprint
    assert forall|i: int|
        0 <= i < s0.wm() && !rec_touches(s0, bst_foot::<K, V>(s0, h), i) implies s2.mem()[i]
        == s0.mem()[i] by {
        assert(bst_foot::<K, V>(s0, h).contains(h));
        if rec_touches(s0, nfoot::<K, V>(s0, root), i) {
            let o = choose|o: u32|
                #[trigger] nfoot::<K, V>(s0, root).contains(o) && s0.recs().dom().contains(o)
                    && o <= i < o + s0.recs()[o];
            assert(bst_foot::<K, V>(s0, h).contains(o));
            assert(rec_touches(s0, bst_foot::<K, V>(s0, h), i));
            assert(false);
        }
        if h <= i < h + 12 {
            assert(rec_touches(s0, bst_foot::<K, V>(s0, h), i));
            assert(false);
        }
        assert(s1.mem()[i] == s0.mem()[i]);
        assert(s2.mem()[i] == s1.mem()[i]);
    }
    assert(evolves(s0, s2, bst_foot::<K, V>(s0, h)));
    assert forall|o: u32| #[trigger]
        bst_foot::<K, V>(s2, h).contains(o) implies bst_foot::<K, V>(s0, h).contains(o) || o
        >= s0.wm() by {
        if o != h {
            assert(nfoot::<K, V>(s2, root).contains(o));
            assert(nfoot::<K, V>(s1, root).contains(o));
        }
    }
}

/// Every record of a valid serialized tree is live and lies below the
/// watermark.
pub proof fn lemma_bst_foot_live<K: KeyCodec, V: Codec>(s: Storage, h: u32)
    requires
        s.inv(),
        bst_valid_at::<K, V>(s, h),
    ensures
        bst_foot::<K, V>(s, h).contains(h),
        forall|o: u32| #[trigger]
            bst_foot::<K, V>(s, h).contains(o) ==> s.recs().dom().contains(o) && o < s.wm(),
{
    let root = hdr_at(s, h).root_offset;
    if root != 0 {
        lemma_foot_props::<K, V>(s, root);
    }
}

/// Framing at the container level: a valid serialized tree whose records
/// an evolution does not touch keeps its validity, its header, its map,
/// and its footprint.
pub proof fn lemma_bst_frame<K: KeyCodec, V: Codec>(
    s0: Storage,
    s1: Storage,
    touched: Set<u32>,
    h: u32,
)
    requires
        s0.inv(),
        bst_valid_at::<K, V>(s0, h),
        evolves(s0, s1, touched),
        bst_foot::<K, V>(s0, h).disjoint(touched),
    ensures
        bst_valid_at::<K, V>(s1, h),
        hdr_at(s1, h) == hdr_at(s0, h),
        bst_map_at::<K, V>(s1, h) == bst_map_at::<K, V>(s0, h),
        bst_foot::<K, V>(s1, h) == bst_foot::<K, V>(s0, h),
{
    assert(bst_foot::<K, V>(s0, h).contains(h));
    assert(!touched.contains(h));
    lemma_rec_preserved(s0, s1, touched, h);
    assert(s1.mem().subrange(h as int, h + 12) == s0.mem().subrange(h as int, h + 12));
    assert(hdr_at(s1, h).items == hdr_at(s0, h).items) by {
        assert(s1.mem().subrange(h as int, h + 4) =~= s0.mem().subrange(h as int, h + 4));
    }
    assert(hdr_at(s1, h).key_len == hdr_at(s0, h).key_len) by {
        assert(s1.mem().subrange(h + 4, h + 6) =~= s0.mem().subrange(h + 4, h + 6));
    }
    assert(hdr_at(s1, h).value_len == hdr_at(s0, h).value_len) by {
        assert(s1.mem().subrange(h + 6, h + 8) =~= s0.mem().subrange(h + 6, h + 8));
    }
    assert(hdr_at(s1, h).root_offset == hdr_at(s0, h).root_offset) by {
        assert(s1.mem().subrange(h + 8, h + 12) =~= s0.mem().subrange(h + 8, h + 12));
    }
    let root = hdr_at(s0, h).root_offset;
    if root != 0 {
        assert forall|o: u32| nfoot::<K, V>(s0, root).contains(o) implies !touched.contains(
            o,
        ) by {
            assert(bst_foot::<K, V>(s0, h).contains(o));
        }
        lemma_node_frame::<K, V>(s0, s1, touched, root);
    }
    assert(bst_foot::<K, V>(s1, h) =~= bst_foot::<K, V>(s0, h));
}

/// Law: the contents a tree presents are a function of the storage bytes
/// and the header offset alone, so a handle loaded at the offset where a
/// tree was built sees the builder's map and length. Two coherent handles
/// on one header agree.
pub proof fn lemma_reload_agrees<K: KeyCodec, V: Codec>(
    b1: StorageBST<K, V>,
    b2: StorageBST<K, V>,
    s: Storage,
)
    requires
        b1.wf(s),
        b2.wf(s),
        b1.spec_offset() == b2.spec_offset(),
    ensures
        b1.as_map(s) == b2.as_map(s),
        b1.spec_len() == b2.spec_len(),
{
}

/// Law: after an insertion the inserted key maps to the inserted value,
/// whatever the tree held before.
pub proof fn lemma_insert_find<K: KeyCodec, V: Codec>(
    b: StorageBST<K, V>,
    s: Storage,
    m0: Map<K, V>,
    key: K,
    value: V,
)
    requires
        b.wf(s),
        b.as_map(s) == m0.insert(key, value),
    ensures
        b.as_map(s).dom().contains(key),
        b.as_map(s)[key] == value,
{
}

} // verus!
