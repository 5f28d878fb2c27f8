//! Flags of a point of a simple glyph.

use vstd::prelude::*;

verus! {

/// Flags of a point of a simple glyph.
///
/// The value is a set of flags, kept as the bits of one `u8`.
#[derive(Clone, Copy, PartialEq, Eq, PartialOrd, Ord, Hash, Debug)]
pub struct SimpleGlyphFlags {
    bits: u8,
}

impl Default for SimpleGlyphFlags {
    /// The set without flags.
    fn default() -> (r: Self)
        ensures
            r.spec_bits() == 0,
    {
        Self { bits: 0 }
    }
}

impl SimpleGlyphFlags {
    /// The bits of all flags that are defined.
    pub const ALL_BITS: u8 = 0x7f;

    /// The bits of this set of flags.
    pub closed spec fn spec_bits(&self) -> u8 {
        self.bits
    }

    /// The set with the given bits.
    pub closed spec fn with_bits(bits: u8) -> Self {
        Self { bits }
    }

    /// A set of flags is its bits.
    pub proof fn lemma_bits(self)
        ensures
            self == Self::with_bits(self.spec_bits()),
            forall|bits: u8| (#[trigger] Self::with_bits(bits)).spec_bits() == bits,
    {
    }

    /// Bit 0: the point is on the curve.
    pub fn on_curve_point() -> (r: Self)
        ensures
            r.spec_bits() == 0x01,
    {
        Self { bits: 0x01 }
    }

    /// Bit 1: the x coordinate is one byte long.
    pub fn x_short_vector() -> (r: Self)
        ensures
            r.spec_bits() == 0x02,
    {
        Self { bits: 0x02 }
    }

    /// Bit 2: the y coordinate is one byte long.
    pub fn y_short_vector() -> (r: Self)
        ensures
            r.spec_bits() == 0x04,
    {
        Self { bits: 0x04 }
    }

    /// Bit 3: the next byte says how many more times this flag byte counts.
    pub fn repeat_flag() -> (r: Self)
        ensures
            r.spec_bits() == 0x08,
    {
        Self { bits: 0x08 }
    }

    /// Bit 4: a short x coordinate is positive; a long one is left out, being the same as the one before.
    pub fn x_is_same_or_positive_x_short_vector() -> (r: Self)
        ensures
            r.spec_bits() == 0x10,
    {
        Self { bits: 0x10 }
    }

    /// Bit 5: a short y coordinate is positive; a long one is left out, being the same as the one before.
    pub fn y_is_same_or_positive_y_short_vector() -> (r: Self)
        ensures
            r.spec_bits() == 0x20,
    {
        Self { bits: 0x20 }
    }

    /// Bit 6: the contours of the glyph may overlap.
    pub fn overlap_simple() -> (r: Self)
        ensures
            r.spec_bits() == 0x40,
    {
        Self { bits: 0x40 }
    }

    /// The set without flags.
    pub fn empty() -> (r: Self)
        ensures
            r.spec_bits() == 0,
    {
        Self { bits: 0 }
    }

    /// The set of all flags that are defined.
    pub fn all() -> (r: Self)
        ensures
            r.spec_bits() == Self::ALL_BITS,
    {
        Self { bits: Self::ALL_BITS }
    }

    /// The bits of this set.
    #[verifier::when_used_as_spec(spec_bits)]
    pub fn bits(&self) -> (r: u8)
        ensures
            r == self.spec_bits(),
    {
        self.bits
    }

    /// The set with the given bits, unless a bit is set that stands for no
    /// flag.
    pub fn from_bits(bits: u8) -> (r: Option<Self>)
        ensures
            match r {
                Some(flags) => flags.spec_bits() == bits && bits & !Self::ALL_BITS == 0,
                None => bits & !Self::ALL_BITS != 0,
            },
    {
        if (bits & !Self::ALL_BITS) == 0 {
            Some(Self { bits })
        } else {
            None
        }
    }

    /// The set with the given bits, without those that stand for no flag.
    pub fn from_bits_truncate(bits: u8) -> (r: Self)
        ensures
            r.spec_bits() == bits & Self::ALL_BITS,
    {
        Self { bits: bits & Self::ALL_BITS }
    }

    /// Whether the set holds no flag.
    pub fn is_empty(&self) -> (r: bool)
        ensures
            r == (self.spec_bits() == 0),
    {
        self.bits == 0
    }

    /// Whether the two sets share a flag.
    pub fn intersects(&self, other: Self) -> (r: bool)
        ensures
            r == (self.spec_bits() & other.spec_bits() != 0),
    {
        (self.bits & other.bits) != 0
    }

    /// Whether every flag of `other` is in this set.
    pub fn contains(&self, other: Self) -> (r: bool)
        ensures
            r == (self.spec_bits() & other.spec_bits() == other.spec_bits()),
    {
        (self.bits & other.bits) == other.bits
    }

    /// Adds the flags of `other`.
    pub fn insert(&mut self, other: Self)
        ensures
            final(self).spec_bits() == old(self).spec_bits() | other.spec_bits(),
    {
        self.bits = self.bits | other.bits;
    }

    /// Takes the flags of `other` out.
    pub fn remove(&mut self, other: Self)
        ensures
            final(self).spec_bits() == old(self).spec_bits() & !other.spec_bits(),
    {
        self.bits = self.bits & !other.bits;
    }

    /// Turns every flag of `other` over.
    pub fn toggle(&mut self, other: Self)
        ensures
            final(self).spec_bits() == old(self).spec_bits() ^ other.spec_bits(),
    {
        self.bits = self.bits ^ other.bits;
    }

    /// The flags that are in both sets.
    #[must_use]
    pub fn intersection(self, other: Self) -> (r: Self)
        ensures
            r.spec_bits() == self.spec_bits() & other.spec_bits(),
    {
        Self { bits: self.bits & other.bits }
    }

    /// The flags that are in one of the sets or in both.
    #[must_use]
    pub fn union(self, other: Self) -> (r: Self)
        ensures
            r.spec_bits() == self.spec_bits() | other.spec_bits(),
    {
        Self { bits: self.bits | other.bits }
    }

    /// The flags of this set that are not in `other`.
    #[must_use]
    pub fn difference(self, other: Self) -> (r: Self)
        ensures
            r.spec_bits() == self.spec_bits() & !other.spec_bits(),
    {
        Self { bits: self.bits & !other.bits }
    }
}

impl core::ops::BitOr for SimpleGlyphFlags {
    type Output = Self;

    /// The union of the two sets.
    fn bitor(self, other: SimpleGlyphFlags) -> (r: Self)
        ensures
            r.spec_bits() == self.spec_bits() | other.spec_bits(),
    {
        Self { bits: self.bits | other.bits }
    }
}

impl vstd::std_specs::ops::BitOrSpecImpl for SimpleGlyphFlags {
    open spec fn obeys_bitor_spec() -> bool {
        true
    }

    open spec fn bitor_req(self, other: SimpleGlyphFlags) -> bool {
        true
    }

    closed spec fn bitor_spec(self, other: SimpleGlyphFlags) -> SimpleGlyphFlags {
        SimpleGlyphFlags { bits: self.bits | other.bits }
    }
}

impl core::ops::BitAnd for SimpleGlyphFlags {
    type Output = Self;

    /// The flags that are in both sets.
    fn bitand(self, other: SimpleGlyphFlags) -> (r: Self)
        ensures
            r.spec_bits() == self.spec_bits() & other.spec_bits(),
    {
        Self { bits: self.bits & other.bits }
    }
}

impl vstd::std_specs::ops::BitAndSpecImpl for SimpleGlyphFlags {
    open spec fn obeys_bitand_spec() -> bool {
        true
    }

    open spec fn bitand_req(self, other: SimpleGlyphFlags) -> bool {
        true
    }

    closed spec fn bitand_spec(self, other: SimpleGlyphFlags) -> SimpleGlyphFlags {
        SimpleGlyphFlags { bits: self.bits & other.bits }
    }
}

impl core::ops::BitXor for SimpleGlyphFlags {
    type Output = Self;

    /// This set with the flags of the other turned over.
    fn bitxor(self, other: SimpleGlyphFlags) -> (r: Self)
        ensures
            r.spec_bits() == self.spec_bits() ^ other.spec_bits(),
    {
        Self { bits: self.bits ^ other.bits }
    }
}

impl vstd::std_specs::ops::BitXorSpecImpl for SimpleGlyphFlags {
    open spec fn obeys_bitxor_spec() -> bool {
        true
    }

    open spec fn bitxor_req(self, other: SimpleGlyphFlags) -> bool {
        true
    }

    closed spec fn bitxor_spec(self, other: SimpleGlyphFlags) -> SimpleGlyphFlags {
        SimpleGlyphFlags { bits: self.bits ^ other.bits }
    }
}

impl core::ops::Sub for SimpleGlyphFlags {
    type Output = Self;

    /// The flags of this set that are not in the other.
    fn sub(self, other: SimpleGlyphFlags) -> (r: Self)
        ensures
            r.spec_bits() == self.spec_bits() & !other.spec_bits(),
    {
        Self { bits: self.bits & !other.bits }
    }
}

impl vstd::std_specs::ops::SubSpecImpl for SimpleGlyphFlags {
    open spec fn obeys_sub_spec() -> bool {
        true
    }

    open spec fn sub_req(self, other: SimpleGlyphFlags) -> bool {
        true
    }

    closed spec fn sub_spec(self, other: SimpleGlyphFlags) -> SimpleGlyphFlags {
        SimpleGlyphFlags { bits: self.bits & !other.bits }
    }
}

impl core::ops::Not for SimpleGlyphFlags {
    type Output = Self;

    /// The flags that are defined and not in this set.
    fn not(self) -> (r: Self)
        ensures
            r.spec_bits() == !self.spec_bits() & Self::ALL_BITS,
    {
        Self { bits: !self.bits & Self::ALL_BITS }
    }
}

impl vstd::std_specs::ops::NotSpecImpl for SimpleGlyphFlags {
    open spec fn obeys_not_spec() -> bool {
        true
    }

    open spec fn not_req(self) -> bool {
        true
    }

    closed spec fn not_spec(self) -> SimpleGlyphFlags {
        SimpleGlyphFlags { bits: !self.bits & Self::ALL_BITS }
    }
}

} // verus!
