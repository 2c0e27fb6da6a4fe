//! Storage string: a length-prefixed UTF-8 blob stored at an offset. A
//! string is not a packed record; containers refer to it by its offset.

use vstd::prelude::*;
use crate::error::Error;
use crate::storage::{evolves, rec_touches, u32_at, Offset, Storage};

verus! {

/// What the UTF-8 encoding of a character sequence is: a function of the
/// characters alone.
pub uninterp spec fn utf8_of(chars: Seq<char>) -> Seq<u8>;

/// What a byte sequence decodes to as UTF-8, `None` when it is invalid.
pub uninterp spec fn utf8_dec(bytes: Seq<u8>) -> Option<Seq<char>>;

/// Relies on str::as_bytes: the UTF-8 bytes of the string, which decode
/// back to the same characters (String::from_utf8 inverts it).
#[verifier::external_body]
fn str_to_bytes(text: &str) -> (r: Vec<u8>)
    ensures
        r@ == utf8_of(text@),
        utf8_dec(r@) == Some(text@),
{
    text.as_bytes().to_vec()
}

/// Relies on String::from_utf8: decodes the bytes as UTF-8, `None` when
/// they are invalid.
#[verifier::external_body]
fn bytes_to_string(bytes: Vec<u8>) -> (r: Option<String>)
    ensures
        match r {
            Some(text) => utf8_dec(bytes@) == Some(text@),
            None => utf8_dec(bytes@) is None,
        },
{
    String::from_utf8(bytes).ok()
}

/// A serialized string lives at `off`: a live record of its length plus
/// the 4-byte prefix holding that length.
pub open spec fn str_valid_at(s: Storage, off: u32) -> bool {
    &&& off + 4 <= s.mem().len()
    &&& s.recs().dom().contains(off)
    &&& s.recs()[off] == 4 + u32_at(s.mem(), off as int)
}

/// The bytes the string at `off` holds.
pub open spec fn str_bytes_at(s: Storage, off: u32) -> Seq<u8> {
    s.mem().subrange(off + 4, off + 4 + u32_at(s.mem(), off as int))
}

/// The persistent string handle: the blob's offset and its byte length.
pub struct StorageString {
    offset: Offset,
    length: u32,
}

impl StorageString {
    /// The offset of this string's record in the region.
    pub closed spec fn spec_offset(self) -> Offset {
        self.offset
    }

    /// The byte length the string was created with.
    pub closed spec fn spec_length(self) -> u32 {
        self.length
    }

    /// The handle is coherent with the storage.
    pub open spec fn wf(self, s: Storage) -> bool {
        &&& str_valid_at(s, self.spec_offset())
        &&& self.spec_length() == u32_at(s.mem(), self.spec_offset() as int)
    }

    /// The bytes this string holds in the given storage.
    pub open spec fn as_bytes(self, s: Storage) -> Seq<u8> {
        str_bytes_at(s, self.spec_offset())
    }

    /// Allocates room for a string of `length` bytes and writes the
    /// length prefix; the content starts out unspecified until
    /// `set_string` fills it.
    pub fn create(s: &mut Storage, length: u32) -> (r: Result<StorageString, Error>)
        requires
            old(s).inv(),
        ensures
            final(s).inv(),
            final(s).mem().len() == old(s).mem().len(),
            evolves(*old(s), *final(s), Set::empty()),
            match r {
                Ok(ss) => {
                    &&& ss.wf(*final(s))
                    &&& ss.spec_length() == length
                    &&& ss.spec_offset() == old(s).wm()
                    &&& old(s).wm() + 4 + length <= old(s).mem().len()
                },
                Err(e) => e == Error::OutOfSpace && old(s).wm() + 4 + length > old(
                    s,
                ).mem().len(),
            },
    {
        let ghost s0 = *old(s);
        if length > u32::MAX - 4 {
            return Err(Error::OutOfSpace);
        }
        let off = match s.allocate(4 + length) {
            Ok(o) => o,
            Err(e) => {
                return Err(e);
            },
        };
        let rw = s.write_u32(off, length);
        proof {
            if rw is Err {
                assert(false);
            }
            assert forall|i: int|
                0 <= i < s0.wm() && !rec_touches(s0, Set::empty(), i) implies s.mem()[i]
                == s0.mem()[i] by {}
            assert(evolves(s0, *s, Set::<u32>::empty()));
        }
        Ok(StorageString { offset: off, length })
    }

    /// Loads the string whose record is at `offset`.
    pub fn load(s: &Storage, offset: Offset) -> (r: Result<StorageString, Error>)
        requires
            s.inv(),
        ensures
            match r {
                Ok(ss) => {
                    &&& offset + 4 <= s.mem().len()
                    &&& ss.spec_offset() == offset
                    &&& ss.spec_length() == u32_at(s.mem(), offset as int)
                    &&& (str_valid_at(*s, offset) ==> ss.wf(*s))
                },
                Err(e) => e == Error::OutOfBounds && offset + 4 > s.mem().len(),
            },
    {
        let length = s.read_u32(offset)?;
        Ok(StorageString { offset, length })
    }

    /// The offset of this string's record, used to persist the handle.
    pub fn offset(&self) -> (r: Offset)
        ensures
            r == self.spec_offset(),
    {
        self.offset
    }

    /// Writes the string's bytes after the length prefix. The text must
    /// have the byte length the string was created with — the record
    /// holds exactly that many bytes — else nothing is written.
    pub fn set_string(&mut self, s: &mut Storage, text: &str) -> (r: Result<(), Error>)
        requires
            old(s).inv(),
            old(self).wf(*old(s)),
        ensures
            final(s).inv(),
            final(s).mem().len() == old(s).mem().len(),
            *final(self) == *old(self),
            final(self).wf(*final(s)),
            evolves(*old(s), *final(s), set![old(self).spec_offset()]),
            match r {
                Ok(()) => {
                    &&& utf8_of(text@).len() == old(self).spec_length()
                    &&& final(self).as_bytes(*final(s)) == utf8_of(text@)
                    &&& utf8_dec(final(self).as_bytes(*final(s))) == Some(text@)
                },
                Err(e) => {
                    &&& e == Error::OutOfBounds
                    &&& utf8_of(text@).len() != old(self).spec_length()
                    &&& *final(s) == *old(s)
                },
            },
    {
        let ghost s0 = *old(s);
        let ghost off = self.offset;
        let bytes = str_to_bytes(text);
        if bytes.len() != self.length as usize {
            return Err(Error::OutOfBounds);
        }
        let rw = s.write_bytes(self.offset + 4, bytes.as_slice());
        proof {
            if rw is Err {
                assert(false);
            }
            assert(s.mem().subrange(off as int, off + 4) =~= s0.mem().subrange(
                off as int,
                off + 4,
            ));
            assert(u32_at(s.mem(), off as int) == u32_at(s0.mem(), off as int));
            assert(self.as_bytes(*s) =~= bytes@);
            assert forall|i: int|
                0 <= i < s0.wm() && !rec_touches(s0, set![off], i) implies s.mem()[i]
                == s0.mem()[i] by {
                if off + 4 <= i < off + 4 + self.length {
                    assert(set![off].contains(off));
                    assert(rec_touches(s0, set![off], i));
                }
            }
            assert(evolves(s0, *s, set![off]));
        }
        Ok(())
    }

    /// Reads the string's bytes and decodes them as UTF-8; bytes that are
    /// not UTF-8 are an invalid encoding.
    pub fn get_string(&self, s: &Storage) -> (r: Result<String, Error>)
        requires
            s.inv(),
            self.wf(*s),
        ensures
            match r {
                Ok(text) => utf8_dec(self.as_bytes(*s)) == Some(text@),
                Err(e) => e == Error::InvalidEncoding && utf8_dec(self.as_bytes(*s)) is None,
            },
    {
        let bytes = match s.read_bytes(self.offset + 4, self.length) {
            Ok(b) => b,
            Err(_) => {
                proof {
                    assert(false);
                }
                Vec::new()
            },
        };
        match bytes_to_string(bytes) {
            Some(text) => Ok(text),
            None => Err(Error::InvalidEncoding),
        }
    }
}

} // verus!
