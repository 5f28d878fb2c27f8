//! The scalar types of font tables, each kept as the integer that a font file
//! holds for it.

use vstd::prelude::*;

verus! {

/// A signed fixed-point number with 2 integer bits and 14 fraction bits.
#[derive(Clone, Copy, PartialEq, Eq, Structural, Debug, Hash)]
pub struct F2Dot14 {
    pub bits: i16,
}

impl F2Dot14 {
    /// The bits of the number one.
    pub const ONE_BITS: i16 = 0x4000;

    /// The number with the given bits.
    pub fn from_bits(bits: i16) -> (r: Self)
        ensures
            r.bits == bits,
    {
        F2Dot14 { bits }
    }

    /// The bits of the number.
    pub fn to_bits(self) -> (r: i16)
        ensures
            r == self.bits,
    {
        self.bits
    }

    /// The number zero.
    pub fn zero() -> (r: Self)
        ensures
            r.bits == 0,
    {
        F2Dot14 { bits: 0 }
    }

    /// The number one.
    pub fn one() -> (r: Self)
        ensures
            r.bits == Self::ONE_BITS,
    {
        F2Dot14 { bits: Self::ONE_BITS }
    }
}

/// A signed fixed-point number with 16 integer bits and 16 fraction bits.
#[derive(Clone, Copy, PartialEq, Eq, Structural, Debug, Hash)]
pub struct Fixed {
    pub bits: i32,
}

impl Fixed {
    /// The number with the given bits.
    pub fn from_bits(bits: i32) -> (r: Self)
        ensures
            r.bits == bits,
    {
        Fixed { bits }
    }

    /// The bits of the number.
    pub fn to_bits(self) -> (r: i32)
        ensures
            r == self.bits,
    {
        self.bits
    }
}

/// A version number in two parts.
#[derive(Clone, Copy, PartialEq, Eq, Structural, Debug, Hash)]
pub struct MajorMinor {
    pub major: u16,
    pub minor: u16,
}

impl MajorMinor {
    /// The version `major.minor`.
    pub fn new(major: u16, minor: u16) -> (r: Self)
        ensures
            r.major == major,
            r.minor == minor,
    {
        MajorMinor { major, minor }
    }
}

/// A date and time, as seconds since the first hour of 1904.
#[derive(Clone, Copy, PartialEq, Eq, Structural, Debug, Hash)]
pub struct LongDateTime {
    pub seconds: i64,
}

impl LongDateTime {
    /// The time that lies `seconds` after the first hour of 1904.
    pub fn new(seconds: i64) -> (r: Self)
        ensures
            r.seconds == seconds,
    {
        LongDateTime { seconds }
    }

    /// The seconds since the first hour of 1904.
    pub fn as_secs(self) -> (r: i64)
        ensures
            r == self.seconds,
    {
        self.seconds
    }
}

/// The number of a glyph, in 16 bits.
#[derive(Clone, Copy, PartialEq, Eq, Structural, Debug, Hash)]
pub struct GlyphId16 {
    pub id: u16,
}

impl GlyphId16 {
    /// The glyph with the given number.
    pub fn new(id: u16) -> (r: Self)
        ensures
            r.id == id,
    {
        GlyphId16 { id }
    }

    /// The number of the glyph.
    pub fn to_u16(self) -> (r: u16)
        ensures
            r == self.id,
    {
        self.id
    }
}

} // verus!
