//! Fixed-size byte pages with bounds-checked, big-endian typed accessors.
//!
//! A [`Page`] holds a fixed-length byte buffer. Integers are stored as
//! 32-bit big-endian values; byte strings are stored with a 4-byte
//! big-endian length prefix; text strings are byte strings whose payload
//! is UTF-8. Every setter either succeeds and leaves the buffer in the
//! new state, or fails and leaves it byte-for-byte unchanged.

use vstd::prelude::*;
use vstd::slice::slice_subrange;
use vstd::utf8::{decode_utf8, encode_utf8, valid_utf8};
use vstd::utf8::{encode_utf8_decode_utf8, encode_utf8_valid_utf8};

verus! {

/// Errors from page accessors.
#[derive(Debug, PartialEq, Eq, Structural)]
pub enum PageError {
    /// Attempted to access data outside the bounds of the page.
    OutOfBounds,
    /// Data format is invalid for the requested operation.
    InvalidData,
    /// Requested data size exceeds the available page size.
    SizeExceeded { requested: usize, available: usize },
}

/// Result type for page operations.
pub type PageResult<T> = Result<T, PageError>;

/// The four bytes of `x` in big-endian order.
pub open spec fn spec_u32_to_be_bytes(x: u32) -> Seq<u8> {
    seq![
        ((x >> 24) & 0xff) as u8,
        ((x >> 16) & 0xff) as u8,
        ((x >> 8) & 0xff) as u8,
        (x & 0xff) as u8,
    ]
}

/// The value of four big-endian bytes.
pub open spec fn spec_u32_from_be_bytes(s: Seq<u8>) -> u32
    recommends
        s.len() == 4,
{
    ((s[0] as u32) << 24) | ((s[1] as u32) << 16) | ((s[2] as u32) << 8) | (s[3] as u32)
}

/// The four bytes of `x` (two's complement) in big-endian order.
pub open spec fn spec_i32_to_be_bytes(x: i32) -> Seq<u8> {
    spec_u32_to_be_bytes(x as u32)
}

/// The signed value of four big-endian bytes (two's complement).
pub open spec fn spec_i32_from_be_bytes(s: Seq<u8>) -> i32
    recommends
        s.len() == 4,
{
    spec_u32_from_be_bytes(s) as i32
}

pub proof fn lemma_u32_be_round_trip(x: u32)
    ensures
        spec_u32_from_be_bytes(spec_u32_to_be_bytes(x)) == x,
{
    assert(((((x >> 24) & 0xff) as u8 as u32) << 24) | ((((x >> 16) & 0xff) as u8 as u32) << 16)
        | ((((x >> 8) & 0xff) as u8 as u32) << 8) | ((x & 0xff) as u8 as u32) == x)
        by (bit_vector);
}

pub proof fn lemma_i32_be_round_trip(x: i32)
    ensures
        spec_i32_from_be_bytes(spec_i32_to_be_bytes(x)) == x,
{
    lemma_u32_be_round_trip(x as u32);
    assert(x as u32 as i32 == x) by (bit_vector);
}

/// The signed 32-bit value stored in big-endian order at `off` in `s`.
pub open spec fn spec_read_i32(s: Seq<u8>, off: int) -> i32
    recommends
        0 <= off,
        off + 4 <= s.len(),
{
    spec_i32_from_be_bytes(s.subrange(off, off + 4))
}

/// `s` with the four bytes at `off` replaced by the big-endian bytes of `v`.
pub open spec fn spec_write_i32(s: Seq<u8>, off: int, v: i32) -> Seq<u8>
    recommends
        0 <= off,
        off + 4 <= s.len(),
{
    s.take(off) + spec_i32_to_be_bytes(v) + s.skip(off + 4)
}

/// The stored length prefix at `off`, as an integer.
pub open spec fn spec_read_len(s: Seq<u8>, off: int) -> int {
    spec_read_i32(s, off) as int
}

/// True when `off` holds a well-formed length-prefixed byte string that
/// lies entirely within `s`.
pub open spec fn spec_bytes_readable(s: Seq<u8>, off: int) -> bool {
    &&& 0 <= off
    &&& off + 4 <= s.len()
    &&& 0 <= spec_read_len(s, off)
    &&& off + 4 + spec_read_len(s, off) <= s.len()
}

/// The payload of the length-prefixed byte string at `off`.
pub open spec fn spec_read_bytes(s: Seq<u8>, off: int) -> Seq<u8>
    recommends
        spec_bytes_readable(s, off),
{
    s.subrange(off + 4, off + 4 + spec_read_len(s, off))
}

/// `s` with a length-prefixed byte string `data` written at `off`.
pub open spec fn spec_write_bytes(s: Seq<u8>, off: int, data: Seq<u8>) -> Seq<u8>
    recommends
        0 <= off,
        off + 4 + data.len() <= s.len(),
        data.len() <= i32::MAX as int,
{
    s.take(off) + spec_i32_to_be_bytes(data.len() as i32) + data + s.skip(off + 4 + data.len())
}

/// A fixed-size block of bytes that can be read from or written to disk.
pub struct Page {
    content: Vec<u8>,
}

impl View for Page {
    type V = Seq<u8>;

    closed spec fn view(&self) -> Seq<u8> {
        self.content@
    }
}

impl Page {
    /// Creates a new page with the provided byte content.
    pub fn with_bytes(bytes: Vec<u8>) -> (p: Self)
        ensures
            p@ == bytes@,
    {
        Self { content: bytes }
    }

    /// Creates a new page of `size` bytes, initialized with zeros.
    pub fn with_size(size: usize) -> (p: Self)
        ensures
            p@.len() == size,
            forall|i: int| 0 <= i < size ==> p@[i] == 0u8,
    {
        Self { content: vec![0u8; size] }
    }

    /// Returns the size of the page in bytes.
    pub fn len(&self) -> (n: usize)
        ensures
            n == self@.len(),
    {
        self.content.len()
    }

    /// Returns an immutable reference to the page's byte content.
    pub fn content(&self) -> (bytes: &[u8])
        ensures
            bytes@ == self@,
    {
        self.content.as_slice()
    }

    /// Returns a mutable reference to the page's byte content.
    pub fn content_mut(&mut self) -> (bytes: &mut [u8])
        ensures
            bytes@ == old(self)@,
            final (self)@ == final (bytes)@,
    {
        self.content.as_mut_slice()
    }

    /// Checks that `size` bytes starting at `offset` lie within the page.
    fn assert_offset_within_bounds(&self, offset: usize, size: usize) -> (r: PageResult<()>)
        ensures
            match r {
                Ok(_) => offset + size <= self@.len(),
                Err(e) => e == PageError::OutOfBounds && offset + size > self@.len(),
            },
    {
        if offset > self.content.len() || size > self.content.len() - offset {
            Err(PageError::OutOfBounds)
        } else {
            Ok(())
        }
    }

    /// Reads the 32-bit big-endian signed integer at `offset`.
    ///
    /// Fails with `OutOfBounds` exactly when the four bytes do not fit
    /// within the page.
    pub fn get_integer(&self, offset: usize) -> (r: PageResult<i32>)
        ensures
            match r {
                Ok(v) => offset + 4 <= self@.len() && v == spec_read_i32(self@, offset as int),
                Err(e) => e == PageError::OutOfBounds && offset + 4 > self@.len(),
            },
    {
        match self.assert_offset_within_bounds(offset, 4) {
            Err(e) => Err(e),
            Ok(_) => {
                // The page length is a machine word, so offset + 4, being
                // at most that length, cannot overflow.
                let n = self.content.len();
                let b0 = self.content[offset];
                let b1 = self.content[offset + 1];
                let b2 = self.content[offset + 2];
                let b3 = self.content[offset + 3];
                let u: u32 = ((b0 as u32) << 24) | ((b1 as u32) << 16) | ((b2 as u32) << 8) | (
                b3 as u32);
                proof {
                    let s4 = self@.subrange(offset as int, offset as int + 4);
                    assert(s4[0] == b0 && s4[1] == b1 && s4[2] == b2 && s4[3] == b3);
                }
                Ok(#[verifier::truncate] (u as i32))
            },
        }
    }

    /// Writes `value` as a 32-bit big-endian signed integer at `offset`.
    ///
    /// Fails with `OutOfBounds`, leaving the page unchanged, exactly when
    /// the four bytes do not fit within the page.
    pub fn set_integer(&mut self, offset: usize, value: i32) -> (r: PageResult<()>)
        ensures
            match r {
                Ok(_) => offset + 4 <= old(self)@.len() && final (self)@ == spec_write_i32(
                    old(self)@,
                    offset as int,
                    value,
                ),
                Err(e) => e == PageError::OutOfBounds && offset + 4 > old(self)@.len() && final (
                self)@ == old(self)@,
            },
    {
        match self.assert_offset_within_bounds(offset, 4) {
            Err(e) => Err(e),
            Ok(_) => {
                // The page length is a machine word, so offset + 4, being
                // at most that length, cannot overflow.
                let n = self.content.len();
                let u = #[verifier::truncate] (value as u32);
                self.content[offset] = #[verifier::truncate] (((u >> 24) & 0xff) as u8);
                self.content[offset + 1] = #[verifier::truncate] (((u >> 16) & 0xff) as u8);
                self.content[offset + 2] = #[verifier::truncate] (((u >> 8) & 0xff) as u8);
                self.content[offset + 3] = #[verifier::truncate] ((u & 0xff) as u8);
                proof {
                    assert(self@ =~= spec_write_i32(old(self)@, offset as int, value));
                }
                Ok(())
            },
        }
    }

    /// Reads the length-prefixed byte string at `offset`.
    ///
    /// Fails with `OutOfBounds` when the length prefix itself does not fit
    /// within the page, and with `InvalidData` when the stored length is
    /// negative or reaches past the page end.
    pub fn get_bytes(&self, offset: usize) -> (r: PageResult<&[u8]>)
        ensures
            match r {
                Ok(b) => spec_bytes_readable(self@, offset as int) && b@ == spec_read_bytes(
                    self@,
                    offset as int,
                ),
                Err(PageError::OutOfBounds) => offset + 4 > self@.len(),
                Err(PageError::InvalidData) => offset + 4 <= self@.len()
                    && !spec_bytes_readable(self@, offset as int),
                Err(_) => false,
            },
    {
        match self.assert_offset_within_bounds(offset, 4) {
            Err(e) => Err(e),
            Ok(_) => {
                let n = self.content.len();
                let length_i = match self.get_integer(offset) {
                    Ok(v) => v,
                    Err(e) => {
                        return Err(e);
                    },
                };
                if length_i < 0 {
                    return Err(PageError::InvalidData);
                }
                let length = length_i as usize;
                if length > n - (offset + 4) {
                    return Err(PageError::InvalidData);
                }
                let start = offset + 4;
                let end = start + length;
                Ok(slice_subrange(self.content.as_slice(), start, end))
            },
        }
    }

    /// Writes `bytes` at `offset` as a 4-byte big-endian length prefix
    /// followed by the bytes themselves.
    ///
    /// Fails with `OutOfBounds` when the length prefix does not fit, and
    /// with `SizeExceeded` when the prefix fits but the payload would reach
    /// past the page end; either way the page is unchanged.
    pub fn set_bytes(&mut self, offset: usize, bytes: &[u8]) -> (r: PageResult<()>)
        requires
            old(self)@.len() <= i32::MAX as usize,
            offset + 4 + bytes@.len() <= usize::MAX,
        ensures
            match r {
                Ok(_) => offset + 4 + bytes@.len() <= old(self)@.len() && final (self)@
                    == spec_write_bytes(old(self)@, offset as int, bytes@),
                Err(PageError::OutOfBounds) => offset + 4 > old(self)@.len() && final (self)@ == old(
                    self,
                )@,
                Err(PageError::SizeExceeded { requested, available }) => offset + 4 <= old(
                    self,
                )@.len() && offset + 4 + bytes@.len() > old(self)@.len() && requested == offset + 4
                    + bytes@.len() && available == old(self)@.len() && final (self)@ == old(self)@,
                Err(_) => false,
            },
    {
        match self.assert_offset_within_bounds(offset, 4) {
            Err(e) => Err(e),
            Ok(_) => {
                let n = self.content.len();
                let length = bytes.len();
                if offset + 4 + length > n {
                    return Err(PageError::SizeExceeded {
                        requested: offset + 4 + length,
                        available: n,
                    });
                }
                let length_result = self.set_integer(offset, length as i32);
                proof {
                    assert(length_result is Ok);
                }
                let mut i: usize = 0;
                while i < length
                    invariant
                        0 <= i <= length,
                        length == bytes@.len(),
                        offset + 4 + length <= self@.len(),
                        offset + 4 + length <= usize::MAX,
                        self@.len() == old(self)@.len(),
                        forall|j: int|
                            0 <= j < self@.len() && !(offset + 4 <= j < offset + 4 + i)
                                ==> self@[j] == spec_write_i32(
                                old(self)@,
                                offset as int,
                                length as i32,
                            )[j],
                        forall|j: int|
                            offset + 4 <= j < offset + 4 + i ==> self@[j] == bytes@[j - (offset
                                + 4)],
                    decreases length - i,
                {
                    self.content[offset + 4 + i] = bytes[i];
                    i = i + 1;
                }
                proof {
                    assert(self@ =~= spec_write_bytes(old(self)@, offset as int, bytes@));
                }
                Ok(())
            },
        }
    }

    /// Reads the length-prefixed UTF-8 string at `offset`.
    ///
    /// Fails as `get_bytes` does, and additionally with `InvalidData` when
    /// the stored payload is not valid UTF-8.
    pub fn get_string(&self, offset: usize) -> (r: PageResult<String>)
        ensures
            match r {
                Ok(s) => spec_bytes_readable(self@, offset as int) && valid_utf8(
                    spec_read_bytes(self@, offset as int),
                ) && s@ == decode_utf8(spec_read_bytes(self@, offset as int)),
                Err(PageError::OutOfBounds) => offset + 4 > self@.len(),
                Err(PageError::InvalidData) => offset + 4 <= self@.len() && (!spec_bytes_readable(
                    self@,
                    offset as int,
                ) || !valid_utf8(spec_read_bytes(self@, offset as int))),
                Err(_) => false,
            },
    {
        match self.get_bytes(offset) {
            Err(e) => Err(e),
            Ok(bytes) => match bytes_to_string(bytes) {
                Some(s) => Ok(s),
                None => Err(PageError::InvalidData),
            },
        }
    }

    /// Writes `s` at `offset` as a length-prefixed UTF-8 byte string.
    ///
    /// Fails exactly as `set_bytes` does on the UTF-8 bytes of `s`.
    pub fn set_string(&mut self, offset: usize, s: &str) -> (r: PageResult<()>)
        requires
            old(self)@.len() <= i32::MAX as usize,
            offset + 4 + encode_utf8(s@).len() <= usize::MAX,
        ensures
            match r {
                Ok(_) => offset + 4 + encode_utf8(s@).len() <= old(self)@.len() && final (self)@
                    == spec_write_bytes(old(self)@, offset as int, encode_utf8(s@)),
                Err(PageError::OutOfBounds) => offset + 4 > old(self)@.len() && final (self)@ == old(
                    self,
                )@,
                Err(PageError::SizeExceeded { requested, available }) => offset + 4 <= old(
                    self,
                )@.len() && offset + 4 + encode_utf8(s@).len() > old(self)@.len() && requested
                    == offset + 4 + encode_utf8(s@).len() && available == old(self)@.len() && final (
                self)@ == old(self)@,
                Err(_) => false,
            },
    {
        self.set_bytes(offset, s.as_bytes())
    }

    /// The exact space a string occupies on a page: the 4-byte length
    /// prefix plus the string's UTF-8 byte length.
    pub fn max_length(s: &str) -> (n: usize)
        requires
            4 + encode_utf8(s@).len() <= usize::MAX,
        ensures
            n == 4 + encode_utf8(s@).len(),
    {
        4 + s.len()
    }
}

/// Relies on `core::str::from_utf8` and `str::to_owned`: decoding returns
/// the characters of the byte string exactly when the bytes are valid
/// UTF-8, and fails otherwise.
#[verifier::external_body]
fn bytes_to_string(bytes: &[u8]) -> (r: Option<String>)
    ensures
        r is Some <==> valid_utf8(bytes@),
        r matches Some(s) ==> s@ == decode_utf8(bytes@),
{
    match core::str::from_utf8(bytes) {
        Ok(s) => Some(s.to_owned()),
        Err(_) => None,
    }
}

/// Round trip: reading an integer back from where `spec_write_i32` put it
/// yields the written value, and the page keeps its length.
pub proof fn lemma_integer_round_trip(s: Seq<u8>, off: int, v: i32)
    requires
        0 <= off,
        off + 4 <= s.len(),
    ensures
        spec_write_i32(s, off, v).len() == s.len(),
        spec_read_i32(spec_write_i32(s, off, v), off) == v,
{
    lemma_i32_be_round_trip(v);
    assert(spec_write_i32(s, off, v).subrange(off, off + 4) =~= spec_i32_to_be_bytes(v));
}

/// Round trip: reading a byte string back from where `spec_write_bytes`
/// put it yields the written payload.
pub proof fn lemma_bytes_round_trip(s: Seq<u8>, off: int, data: Seq<u8>)
    requires
        0 <= off,
        off + 4 + data.len() <= s.len(),
        s.len() <= i32::MAX as int,
    ensures
        spec_write_bytes(s, off, data).len() == s.len(),
        spec_bytes_readable(spec_write_bytes(s, off, data), off),
        spec_read_bytes(spec_write_bytes(s, off, data), off) == data,
{
    let w = spec_write_bytes(s, off, data);
    lemma_i32_be_round_trip(data.len() as i32);
    assert(w.subrange(off, off + 4) =~= spec_i32_to_be_bytes(data.len() as i32));
    assert(spec_read_len(w, off) == data.len());
    assert(w.subrange(off + 4, off + 4 + data.len()) =~= data);
}

/// Round trip: decoding the string written by `spec_write_bytes` of its
/// UTF-8 encoding yields the original characters.
pub proof fn lemma_string_round_trip(s: Seq<u8>, off: int, text: Seq<char>)
    requires
        0 <= off,
        off + 4 + encode_utf8(text).len() <= s.len(),
        s.len() <= i32::MAX as int,
    ensures
        spec_bytes_readable(spec_write_bytes(s, off, encode_utf8(text)), off),
        valid_utf8(spec_read_bytes(spec_write_bytes(s, off, encode_utf8(text)), off)),
        decode_utf8(spec_read_bytes(spec_write_bytes(s, off, encode_utf8(text)), off)) == text,
{
    lemma_bytes_round_trip(s, off, encode_utf8(text));
    encode_utf8_valid_utf8(text);
    encode_utf8_decode_utf8(text);
}

} // verus!
