//! The bytes of a font table, and the big-endian scalars in them.

use vstd::prelude::*;
use vstd::slice::slice_subrange;

verus! {

/// What can go wrong when a table is read.
#[derive(Clone, Copy, Debug, PartialEq, Eq, Structural)]
pub enum ReadError {
    /// The data ends before the value that is looked for.
    OutOfBounds,
    /// An array has not the length that is asked for.
    InvalidArrayLen,
    /// The data contradicts itself.
    MalformedData,
}

/// The unsigned 16-bit number in two bytes, high byte first.
pub open spec fn be_u16(bytes: Seq<u8>, at: int) -> u16 {
    (bytes[at] * 0x100 + bytes[at + 1]) as u16
}

/// The signed number with the bits of `u`.
pub open spec fn as_i16(u: u16) -> i16 {
    if u < 0x8000 {
        u as i16
    } else {
        (u - 0x1_0000) as i16
    }
}

/// The signed 16-bit number in two bytes, high byte first.
pub open spec fn be_i16(bytes: Seq<u8>, at: int) -> i16 {
    as_i16(be_u16(bytes, at))
}

/// The unsigned 32-bit number in four bytes, highest byte first.
pub open spec fn be_u32(bytes: Seq<u8>, at: int) -> u32 {
    (bytes[at] * 0x100_0000 + bytes[at + 1] * 0x1_0000 + bytes[at + 2] * 0x100 + bytes[at + 3]) as u32
}

/// The signed number with the bits of `u`.
pub open spec fn as_i32(u: u32) -> i32 {
    if u < 0x8000_0000 {
        u as i32
    } else {
        (u - 0x1_0000_0000) as i32
    }
}

/// The signed 32-bit number in four bytes, highest byte first.
pub open spec fn be_i32(bytes: Seq<u8>, at: int) -> i32 {
    as_i32(be_u32(bytes, at))
}

/// The signed number with the bits of the two halves of a 64-bit number.
pub open spec fn as_i64(high: u32, low: u32) -> i64 {
    (as_i32(high) * 0x1_0000_0000 + low) as i64
}

/// The signed 64-bit number in eight bytes, highest byte first.
pub open spec fn be_i64(bytes: Seq<u8>, at: int) -> i64 {
    as_i64(be_u32(bytes, at), be_u32(bytes, at + 4))
}

/// The signed 8-bit number with the bits of `u`.
pub open spec fn as_i8(u: u8) -> i8 {
    if u < 0x80 {
        u as i8
    } else {
        (u - 0x100) as i8
    }
}

/// The signed number with the bits of `u`.
pub fn i16_of(u: u16) -> (r: i16)
    ensures
        r == as_i16(u),
{
    if u < 0x8000 {
        u as i16
    } else {
        (u as i32 - 0x1_0000) as i16
    }
}

/// The signed number with the bits of `u`.
pub fn i8_of(u: u8) -> (r: i8)
    ensures
        r == as_i8(u),
{
    if u < 0x80 {
        u as i8
    } else {
        (u as i16 - 0x100) as i8
    }
}

/// The signed number with the bits of `u`.
pub fn i32_of(u: u32) -> (r: i32)
    ensures
        r == as_i32(u),
{
    if u < 0x8000_0000 {
        u as i32
    } else {
        (u as i64 - 0x1_0000_0000) as i32
    }
}

/// Bytes of a font, read by offset.
#[derive(Clone, Copy, Debug)]
pub struct FontData<'a> {
    bytes: &'a [u8],
}

impl<'a> View for FontData<'a> {
    type V = Seq<u8>;

    closed spec fn view(&self) -> Seq<u8> {
        self.bytes@
    }
}

impl<'a> FontData<'a> {
    /// The data of the given bytes.
    pub fn new(bytes: &'a [u8]) -> (r: FontData<'a>)
        ensures
            r@ == bytes@,
    {
        FontData { bytes }
    }

    /// The number of bytes.
    pub fn len(&self) -> (n: usize)
        ensures
            n == self@.len(),
    {
        self.bytes.len()
    }

    /// Whether there are no bytes.
    pub fn is_empty(&self) -> (b: bool)
        ensures
            b == (self@.len() == 0),
    {
        self.bytes.len() == 0
    }

    /// The bytes.
    pub fn as_bytes(&self) -> (r: &'a [u8])
        ensures
            r@ == self@,
    {
        self.bytes
    }

    /// The unsigned 16-bit number at `at`, which lies within the data.
    pub fn u16_at(&self, at: usize) -> (r: u16)
        requires
            at + 2 <= self@.len(),
        ensures
            r == be_u16(self@, at as int),
    {
        (self.bytes[at] as u16) * 0x100 + self.bytes[at + 1] as u16
    }

    /// The signed 16-bit number at `at`, which lies within the data.
    pub fn i16_at(&self, at: usize) -> (r: i16)
        requires
            at + 2 <= self@.len(),
        ensures
            r == be_i16(self@, at as int),
    {
        i16_of(self.u16_at(at))
    }

    /// The unsigned 32-bit number at `at`, which lies within the data.
    pub fn u32_at(&self, at: usize) -> (r: u32)
        requires
            at + 4 <= self@.len(),
        ensures
            r == be_u32(self@, at as int),
    {
        (self.bytes[at] as u32) * 0x100_0000 + (self.bytes[at + 1] as u32) * 0x1_0000 + (
        self.bytes[at + 2] as u32) * 0x100 + self.bytes[at + 3] as u32
    }

    /// The signed 32-bit number at `at`, which lies within the data.
    pub fn i32_at(&self, at: usize) -> (r: i32)
        requires
            at + 4 <= self@.len(),
        ensures
            r == be_i32(self@, at as int),
    {
        i32_of(self.u32_at(at))
    }

    /// The signed 64-bit number at `at`, which lies within the data.
    pub fn i64_at(&self, at: usize) -> (r: i64)
        requires
            at + 8 <= self@.len(),
        ensures
            r == be_i64(self@, at as int),
    {
        let n = self.bytes.len();
        let high: u32 = self.u32_at(at);
        let low: u32 = self.u32_at(at + 4);
        (i32_of(high) as i64) * 0x1_0000_0000 + low as i64
    }

    /// The byte at `at`.
    pub fn read_u8(&self, at: usize) -> (r: Result<u8, ReadError>)
        ensures
            r == if at < self@.len() {
                Ok::<u8, ReadError>(self@[at as int])
            } else {
                Err::<u8, ReadError>(ReadError::OutOfBounds)
            },
    {
        if at < self.bytes.len() {
            Ok(self.bytes[at])
        } else {
            Err(ReadError::OutOfBounds)
        }
    }

    /// The signed byte at `at`.
    pub fn read_i8(&self, at: usize) -> (r: Result<i8, ReadError>)
        ensures
            r == if at < self@.len() {
                Ok::<i8, ReadError>(as_i8(self@[at as int]))
            } else {
                Err::<i8, ReadError>(ReadError::OutOfBounds)
            },
    {
        if at < self.bytes.len() {
            Ok(i8_of(self.bytes[at]))
        } else {
            Err(ReadError::OutOfBounds)
        }
    }

    /// The unsigned 16-bit number at `at`.
    pub fn read_u16(&self, at: usize) -> (r: Result<u16, ReadError>)
        ensures
            r == if at + 2 <= self@.len() {
                Ok::<u16, ReadError>(be_u16(self@, at as int))
            } else {
                Err::<u16, ReadError>(ReadError::OutOfBounds)
            },
    {
        let n = self.bytes.len();
        if n >= 2 && at <= n - 2 {
            Ok(self.u16_at(at))
        } else {
            Err(ReadError::OutOfBounds)
        }
    }

    /// The signed 16-bit number at `at`.
    pub fn read_i16(&self, at: usize) -> (r: Result<i16, ReadError>)
        ensures
            r == if at + 2 <= self@.len() {
                Ok::<i16, ReadError>(be_i16(self@, at as int))
            } else {
                Err::<i16, ReadError>(ReadError::OutOfBounds)
            },
    {
        match self.read_u16(at) {
            Ok(u) => Ok(i16_of(u)),
            Err(e) => Err(e),
        }
    }

    /// The unsigned 32-bit number at `at`.
    pub fn read_u32(&self, at: usize) -> (r: Result<u32, ReadError>)
        ensures
            r == if at + 4 <= self@.len() {
                Ok::<u32, ReadError>(be_u32(self@, at as int))
            } else {
                Err::<u32, ReadError>(ReadError::OutOfBounds)
            },
    {
        let n = self.bytes.len();
        if n >= 4 && at <= n - 4 {
            Ok(self.u32_at(at))
        } else {
            Err(ReadError::OutOfBounds)
        }
    }

    /// The signed 32-bit number at `at`.
    pub fn read_i32(&self, at: usize) -> (r: Result<i32, ReadError>)
        ensures
            r == if at + 4 <= self@.len() {
                Ok::<i32, ReadError>(be_i32(self@, at as int))
            } else {
                Err::<i32, ReadError>(ReadError::OutOfBounds)
            },
    {
        match self.read_u32(at) {
            Ok(u) => Ok(i32_of(u)),
            Err(e) => Err(e),
        }
    }

    /// The signed 64-bit number at `at`.
    pub fn read_i64(&self, at: usize) -> (r: Result<i64, ReadError>)
        ensures
            r == if at + 8 <= self@.len() {
                Ok::<i64, ReadError>(be_i64(self@, at as int))
            } else {
                Err::<i64, ReadError>(ReadError::OutOfBounds)
            },
    {
        let n = self.bytes.len();
        if n >= 8 && at <= n - 8 {
            Ok(self.i64_at(at))
        } else {
            Err(ReadError::OutOfBounds)
        }
    }

    /// The bytes from `start` up to but not including `end`.
    pub fn read_array(&self, start: usize, end: usize) -> (r: Result<&'a [u8], ReadError>)
        ensures
            match r {
                Ok(bytes) => start <= end <= self@.len() && bytes@ == self@.subrange(
                    start as int,
                    end as int,
                ),
                Err(e) => e == ReadError::OutOfBounds && !(start <= end <= self@.len()),
            },
    {
        if start <= end && end <= self.bytes.len() {
            Ok(slice_subrange(self.bytes, start, end))
        } else {
            Err(ReadError::OutOfBounds)
        }
    }
}

} // verus!
