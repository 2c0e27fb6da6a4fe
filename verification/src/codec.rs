//! Fixed-size packed encodings: the contract between a type and its byte
//! representation. A packed record has a compile-time constant byte length,
//! two encodings of the same value are bit-identical, and decoding is the
//! exact inverse of encoding.

use vstd::prelude::*;
use vstd::bytes::*;
use crate::error::Error;

verus! {

/// A type storable in a fixed byte window. Encoding is little-endian with
/// no padding; `dec` inverts `enc`, which every implementation proves as
/// the round-trip law.
pub trait Codec: Sized {
    /// The packed byte length, as a specification-level quantity.
    spec fn plen() -> nat;

    /// The packed bytes of a value.
    spec fn enc(self) -> Seq<u8>;

    /// What a byte window of length `plen` decodes to; `None` when the
    /// bytes are rejected.
    spec fn dec(b: Seq<u8>) -> Option<Self>;

    /// The packed byte length fits a 16-bit header field and is nonzero.
    proof fn lemma_plen_bounds()
        ensures
            1 <= Self::plen() <= 0xffff,
    ;

    /// Round-trip law: decoding an encoding yields the value back, and the
    /// encoding has the packed length.
    proof fn lemma_round_trip(v: Self)
        ensures
            v.enc().len() == Self::plen(),
            Self::dec(v.enc()) == Some(v),
    ;

    /// The packed byte length.
    fn packed_len() -> (n: u16)
        ensures
            n as nat == Self::plen(),
            1 <= n,
    ;

    /// Encodes a value into exactly `plen` bytes.
    fn encode(&self) -> (b: Vec<u8>)
        ensures
            b@ == self.enc(),
            b@.len() == Self::plen(),
    ;

    /// Decodes a byte window of exactly `plen` bytes.
    fn decode(b: &[u8]) -> (r: Result<Self, Error>)
        requires
            b@.len() == Self::plen(),
        ensures
            match r {
                Ok(v) => Self::dec(b@) == Some(v),
                Err(e) => Self::dec(b@) is None && e == Error::InvalidEncoding,
            },
    ;
}

impl Codec for u8 {
    open spec fn plen() -> nat {
        1
    }

    open spec fn enc(self) -> Seq<u8> {
        seq![self]
    }

    open spec fn dec(b: Seq<u8>) -> Option<u8> {
        if b.len() == 1 {
            Some(b[0])
        } else {
            None
        }
    }

    proof fn lemma_plen_bounds() {
    }

    proof fn lemma_round_trip(v: u8) {
        assert(v.enc() =~= seq![v]);
    }

    fn packed_len() -> (n: u16) {
        1
    }

    fn encode(&self) -> (b: Vec<u8>) {
        let mut b: Vec<u8> = Vec::new();
        b.push(*self);
        b
    }

    fn decode(b: &[u8]) -> (r: Result<u8, Error>) {
        Ok(b[0])
    }
}

impl Codec for i8 {
    open spec fn plen() -> nat {
        1
    }

    open spec fn enc(self) -> Seq<u8> {
        seq![self as u8]
    }

    open spec fn dec(b: Seq<u8>) -> Option<i8> {
        if b.len() == 1 {
            Some(b[0] as i8)
        } else {
            None
        }
    }

    proof fn lemma_plen_bounds() {
    }

    proof fn lemma_round_trip(v: i8) {
        assert((v as u8) as i8 == v) by (bit_vector);
    }

    fn packed_len() -> (n: u16) {
        1
    }

    fn encode(&self) -> (b: Vec<u8>) {
        let mut b: Vec<u8> = Vec::new();
        b.push(*self as u8);
        b
    }

    fn decode(b: &[u8]) -> (r: Result<i8, Error>) {
        Ok(b[0] as i8)
    }
}

impl Codec for u16 {
    open spec fn plen() -> nat {
        2
    }

    open spec fn enc(self) -> Seq<u8> {
        spec_u16_to_le_bytes(self)
    }

    open spec fn dec(b: Seq<u8>) -> Option<u16> {
        if b.len() == 2 {
            Some(spec_u16_from_le_bytes(b))
        } else {
            None
        }
    }

    proof fn lemma_plen_bounds() {
    }

    proof fn lemma_round_trip(v: u16) {
        lemma_auto_spec_u16_to_from_le_bytes();
    }

    fn packed_len() -> (n: u16) {
        2
    }

    fn encode(&self) -> (b: Vec<u8>) {
        u16_to_le_bytes(*self)
    }

    fn decode(b: &[u8]) -> (r: Result<u16, Error>) {
        Ok(u16_from_le_bytes(b))
    }
}

impl Codec for i16 {
    open spec fn plen() -> nat {
        2
    }

    open spec fn enc(self) -> Seq<u8> {
        spec_u16_to_le_bytes(self as u16)
    }

    open spec fn dec(b: Seq<u8>) -> Option<i16> {
        if b.len() == 2 {
            Some(spec_u16_from_le_bytes(b) as i16)
        } else {
            None
        }
    }

    proof fn lemma_plen_bounds() {
    }

    proof fn lemma_round_trip(v: i16) {
        lemma_auto_spec_u16_to_from_le_bytes();
        assert((v as u16) as i16 == v) by (bit_vector);
    }

    fn packed_len() -> (n: u16) {
        2
    }

    fn encode(&self) -> (b: Vec<u8>) {
        u16_to_le_bytes(*self as u16)
    }

    fn decode(b: &[u8]) -> (r: Result<i16, Error>) {
        Ok(u16_from_le_bytes(b) as i16)
    }
}

impl Codec for u32 {
    open spec fn plen() -> nat {
        4
    }

    open spec fn enc(self) -> Seq<u8> {
        spec_u32_to_le_bytes(self)
    }

    open spec fn dec(b: Seq<u8>) -> Option<u32> {
        if b.len() == 4 {
            Some(spec_u32_from_le_bytes(b))
        } else {
            None
        }
    }

    proof fn lemma_plen_bounds() {
    }

    proof fn lemma_round_trip(v: u32) {
        lemma_auto_spec_u32_to_from_le_bytes();
    }

    fn packed_len() -> (n: u16) {
        4
    }

    fn encode(&self) -> (b: Vec<u8>) {
        u32_to_le_bytes(*self)
    }

    fn decode(b: &[u8]) -> (r: Result<u32, Error>) {
        Ok(u32_from_le_bytes(b))
    }
}

impl Codec for i32 {
    open spec fn plen() -> nat {
        4
    }

    open spec fn enc(self) -> Seq<u8> {
        spec_u32_to_le_bytes(self as u32)
    }

    open spec fn dec(b: Seq<u8>) -> Option<i32> {
        if b.len() == 4 {
            Some(spec_u32_from_le_bytes(b) as i32)
        } else {
            None
        }
    }

    proof fn lemma_plen_bounds() {
    }

    proof fn lemma_round_trip(v: i32) {
        lemma_auto_spec_u32_to_from_le_bytes();
        assert((v as u32) as i32 == v) by (bit_vector);
    }

    fn packed_len() -> (n: u16) {
        4
    }

    fn encode(&self) -> (b: Vec<u8>) {
        u32_to_le_bytes(*self as u32)
    }

    fn decode(b: &[u8]) -> (r: Result<i32, Error>) {
        Ok(u32_from_le_bytes(b) as i32)
    }
}

impl Codec for u64 {
    open spec fn plen() -> nat {
        8
    }

    open spec fn enc(self) -> Seq<u8> {
        spec_u64_to_le_bytes(self)
    }

    open spec fn dec(b: Seq<u8>) -> Option<u64> {
        if b.len() == 8 {
            Some(spec_u64_from_le_bytes(b))
        } else {
            None
        }
    }

    proof fn lemma_plen_bounds() {
    }

    proof fn lemma_round_trip(v: u64) {
        lemma_auto_spec_u64_to_from_le_bytes();
    }

    fn packed_len() -> (n: u16) {
        8
    }

    fn encode(&self) -> (b: Vec<u8>) {
        u64_to_le_bytes(*self)
    }

    fn decode(b: &[u8]) -> (r: Result<u64, Error>) {
        Ok(u64_from_le_bytes(b))
    }
}

impl Codec for i64 {
    open spec fn plen() -> nat {
        8
    }

    open spec fn enc(self) -> Seq<u8> {
        spec_u64_to_le_bytes(self as u64)
    }

    open spec fn dec(b: Seq<u8>) -> Option<i64> {
        if b.len() == 8 {
            Some(spec_u64_from_le_bytes(b) as i64)
        } else {
            None
        }
    }

    proof fn lemma_plen_bounds() {
    }

    proof fn lemma_round_trip(v: i64) {
        lemma_auto_spec_u64_to_from_le_bytes();
        assert((v as u64) as i64 == v) by (bit_vector);
    }

    fn packed_len() -> (n: u16) {
        8
    }

    fn encode(&self) -> (b: Vec<u8>) {
        u64_to_le_bytes(*self as u64)
    }

    fn decode(b: &[u8]) -> (r: Result<i64, Error>) {
        Ok(u64_from_le_bytes(b) as i64)
    }
}

impl Codec for bool {
    open spec fn plen() -> nat {
        1
    }

    open spec fn enc(self) -> Seq<u8> {
        seq![if self { 1u8 } else { 0u8 }]
    }

    open spec fn dec(b: Seq<u8>) -> Option<bool> {
        if b.len() == 1 && (b[0] == 0 || b[0] == 1) {
            Some(b[0] == 1)
        } else {
            None
        }
    }

    proof fn lemma_plen_bounds() {
    }

    proof fn lemma_round_trip(v: bool) {
    }

    fn packed_len() -> (n: u16) {
        1
    }

    fn encode(&self) -> (b: Vec<u8>) {
        let mut b: Vec<u8> = Vec::new();
        if *self {
            b.push(1);
        } else {
            b.push(0);
        }
        b
    }

    fn decode(b: &[u8]) -> (r: Result<bool, Error>) {
        if b[0] == 0 {
            Ok(false)
        } else if b[0] == 1 {
            Ok(true)
        } else {
            Err(Error::InvalidEncoding)
        }
    }
}

/// A key that can live in an ordered container: a codec whose values carry
/// a total order, with an executable comparison that agrees with it.
pub trait KeyCodec: Codec {
    /// The order the container sorts by.
    spec fn key_le(a: Self, b: Self) -> bool;

    /// The order is total.
    proof fn lemma_le_total(a: Self, b: Self)
        ensures
            Self::key_le(a, b) || Self::key_le(b, a),
    ;

    /// The order is antisymmetric.
    proof fn lemma_le_antisym(a: Self, b: Self)
        requires
            Self::key_le(a, b),
            Self::key_le(b, a),
        ensures
            a == b,
    ;

    /// The order is transitive.
    proof fn lemma_le_trans(a: Self, b: Self, c: Self)
        requires
            Self::key_le(a, b),
            Self::key_le(b, c),
        ensures
            Self::key_le(a, c),
    ;

    /// Executable equality test.
    fn key_eq(&self, other: &Self) -> (r: bool)
        ensures
            r == (*self == *other),
    ;

    /// Executable order test.
    fn key_lte(&self, other: &Self) -> (r: bool)
        ensures
            r == Self::key_le(*self, *other),
    ;
}

impl KeyCodec for u8 {
    open spec fn key_le(a: u8, b: u8) -> bool {
        a <= b
    }

    proof fn lemma_le_total(a: u8, b: u8) {
    }

    proof fn lemma_le_antisym(a: u8, b: u8) {
    }

    proof fn lemma_le_trans(a: u8, b: u8, c: u8) {
    }

    fn key_eq(&self, other: &u8) -> (r: bool) {
        *self == *other
    }

    fn key_lte(&self, other: &u8) -> (r: bool) {
        *self <= *other
    }
}

impl KeyCodec for u16 {
    open spec fn key_le(a: u16, b: u16) -> bool {
        a <= b
    }

    proof fn lemma_le_total(a: u16, b: u16) {
    }

    proof fn lemma_le_antisym(a: u16, b: u16) {
    }

    proof fn lemma_le_trans(a: u16, b: u16, c: u16) {
    }

    fn key_eq(&self, other: &u16) -> (r: bool) {
        *self == *other
    }

    fn key_lte(&self, other: &u16) -> (r: bool) {
        *self <= *other
    }
}

impl KeyCodec for u32 {
    open spec fn key_le(a: u32, b: u32) -> bool {
        a <= b
    }

    proof fn lemma_le_total(a: u32, b: u32) {
    }

    proof fn lemma_le_antisym(a: u32, b: u32) {
    }

    proof fn lemma_le_trans(a: u32, b: u32, c: u32) {
    }

    fn key_eq(&self, other: &u32) -> (r: bool) {
        *self == *other
    }

    fn key_lte(&self, other: &u32) -> (r: bool) {
        *self <= *other
    }
}

impl KeyCodec for u64 {
    open spec fn key_le(a: u64, b: u64) -> bool {
        a <= b
    }

    proof fn lemma_le_total(a: u64, b: u64) {
    }

    proof fn lemma_le_antisym(a: u64, b: u64) {
    }

    proof fn lemma_le_trans(a: u64, b: u64, c: u64) {
    }

    fn key_eq(&self, other: &u64) -> (r: bool) {
        *self == *other
    }

    fn key_lte(&self, other: &u64) -> (r: bool) {
        *self <= *other
    }
}

impl KeyCodec for i32 {
    open spec fn key_le(a: i32, b: i32) -> bool {
        a <= b
    }

    proof fn lemma_le_total(a: i32, b: i32) {
    }

    proof fn lemma_le_antisym(a: i32, b: i32) {
    }

    proof fn lemma_le_trans(a: i32, b: i32, c: i32) {
    }

    fn key_eq(&self, other: &i32) -> (r: bool) {
        *self == *other
    }

    fn key_lte(&self, other: &i32) -> (r: bool) {
        *self <= *other
    }
}

impl KeyCodec for i64 {
    open spec fn key_le(a: i64, b: i64) -> bool {
        a <= b
    }

    proof fn lemma_le_total(a: i64, b: i64) {
    }

    proof fn lemma_le_antisym(a: i64, b: i64) {
    }

    proof fn lemma_le_trans(a: i64, b: i64, c: i64) {
    }

    fn key_eq(&self, other: &i64) -> (r: bool) {
        *self == *other
    }

    fn key_lte(&self, other: &i64) -> (r: bool) {
        *self <= *other
    }
}

} // verus!
