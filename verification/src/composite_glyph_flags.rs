//! Flags of a component of a composite glyph.

use vstd::prelude::*;

verus! {

/// Flags of a component of a composite glyph.
///
/// The value is a set of flags, kept as the bits of one `u16`.
#[derive(Clone, Copy, PartialEq, Eq, PartialOrd, Ord, Hash, Debug)]
pub struct CompositeGlyphFlags {
    bits: u16,
}

impl Default for CompositeGlyphFlags {
    /// The set without flags.
    fn default() -> (r: Self)
        ensures
            r.spec_bits() == 0,
    {
        Self { bits: 0 }
    }
}

impl CompositeGlyphFlags {
    /// The bits of all flags that are defined.
    pub const ALL_BITS: u16 = 0x1fef;

    /// The bits of this set of flags.
    pub closed spec fn spec_bits(&self) -> u16 {
        self.bits
    }

    /// The set with the given bits.
    pub closed spec fn with_bits(bits: u16) -> Self {
        Self { bits }
    }

    /// A set of flags is its bits.
    pub proof fn lemma_bits(self)
        ensures
            self == Self::with_bits(self.spec_bits()),
            forall|bits: u16| (#[trigger] Self::with_bits(bits)).spec_bits() == bits,
    {
    }

    /// Bit 0: the two arguments are 16 bits wide, else 8.
    pub fn arg_1_and_2_are_words() -> (r: Self)
        ensures
            r.spec_bits() == 0x0001,
    {
        Self { bits: 0x0001 }
    }

    /// Bit 1: the arguments are a signed offset, else two point numbers.
    pub fn args_are_xy_values() -> (r: Self)
        ensures
            r.spec_bits() == 0x0002,
    {
        Self { bits: 0x0002 }
    }

    /// Bit 2: the offset is rounded to the grid.
    pub fn round_xy_to_grid() -> (r: Self)
        ensures
            r.spec_bits() == 0x0004,
    {
        Self { bits: 0x0004 }
    }

    /// Bit 3: one scale for both directions follows.
    pub fn we_have_a_scale() -> (r: Self)
        ensures
            r.spec_bits() == 0x0008,
    {
        Self { bits: 0x0008 }
    }

    /// Bit 5: another component follows this one.
    pub fn more_components() -> (r: Self)
        ensures
            r.spec_bits() == 0x0020,
    {
        Self { bits: 0x0020 }
    }

    /// Bit 6: a scale for each direction follows.
    pub fn we_have_an_x_and_y_scale() -> (r: Self)
        ensures
            r.spec_bits() == 0x0040,
    {
        Self { bits: 0x0040 }
    }

    /// Bit 7: a two by two transformation follows.
    pub fn we_have_a_two_by_two() -> (r: Self)
        ensures
            r.spec_bits() == 0x0080,
    {
        Self { bits: 0x0080 }
    }

    /// Bit 8: instructions follow the last component.
    pub fn we_have_instructions() -> (r: Self)
        ensures
            r.spec_bits() == 0x0100,
    {
        Self { bits: 0x0100 }
    }

    /// Bit 9: the composite takes its metrics from this component.
    pub fn use_my_metrics() -> (r: Self)
        ensures
            r.spec_bits() == 0x0200,
    {
        Self { bits: 0x0200 }
    }

    /// Bit 10: the components overlap.
    pub fn overlap_compound() -> (r: Self)
        ensures
            r.spec_bits() == 0x0400,
    {
        Self { bits: 0x0400 }
    }

    /// Bit 11: the offset of the component is scaled.
    pub fn scaled_component_offset() -> (r: Self)
        ensures
            r.spec_bits() == 0x0800,
    {
        Self { bits: 0x0800 }
    }

    /// Bit 12: the offset of the component is not scaled.
    pub fn unscaled_component_offset() -> (r: Self)
        ensures
            r.spec_bits() == 0x1000,
    {
        Self { bits: 0x1000 }
    }

    /// The set without flags.
    pub fn empty() -> (r: Self)
        ensures
            r.spec_bits() == 0,
    {
        Self { bits: 0 }
    }

    /// The set of all flags that are defined.
    pub fn all() -> (r: Self)
        ensures
            r.spec_bits() == Self::ALL_BITS,
    {
        Self { bits: Self::ALL_BITS }
    }

    /// The bits of this set.
    #[verifier::when_used_as_spec(spec_bits)]
    pub fn bits(&self) -> (r: u16)
        ensures
            r == self.spec_bits(),
    {
        self.bits
    }

    /// The set with the given bits, unless a bit is set that stands for no
    /// flag.
    pub fn from_bits(bits: u16) -> (r: Option<Self>)
        ensures
            match r {
                Some(flags) => flags.spec_bits() == bits && bits & !Self::ALL_BITS == 0,
                None => bits & !Self::ALL_BITS != 0,
            },
    {
        if (bits & !Self::ALL_BITS) == 0 {
            Some(Self { bits })
        } else {
            None
        }
    }

    /// The set with the given bits, without those that stand for no flag.
    pub fn from_bits_truncate(bits: u16) -> (r: Self)
        ensures
            r.spec_bits() == bits & Self::ALL_BITS,
    {
        Self { bits: bits & Self::ALL_BITS }
    }

    /// Whether the set holds no flag.
    pub fn is_empty(&self) -> (r: bool)
        ensures
            r == (self.spec_bits() == 0),
    {
        self.bits == 0
    }

    /// Whether the two sets share a flag.
    pub fn intersects(&self, other: Self) -> (r: bool)
        ensures
            r == (self.spec_bits() & other.spec_bits() != 0),
    {
        (self.bits & other.bits) != 0
    }

    /// Whether every flag of `other` is in this set.
    pub fn contains(&self, other: Self) -> (r: bool)
        ensures
            r == (self.spec_bits() & other.spec_bits() == other.spec_bits()),
    {
        (self.bits & other.bits) == other.bits
    }

    /// Adds the flags of `other`.
    pub fn insert(&mut self, other: Self)
        ensures
            final(self).spec_bits() == old(self).spec_bits() | other.spec_bits(),
    {
        self.bits = self.bits | other.bits;
    }

    /// Takes the flags of `other` out.
    pub fn remove(&mut self, other: Self)
        ensures
            final(self).spec_bits() == old(self).spec_bits() & !other.spec_bits(),
    {
        self.bits = self.bits & !other.bits;
    }

    /// Turns every flag of `other` over.
    pub fn toggle(&mut self, other: Self)
        ensures
            final(self).spec_bits() == old(self).spec_bits() ^ other.spec_bits(),
    {
        self.bits = self.bits ^ other.bits;
    }

    /// The flags that are in both sets.
    #[must_use]
    pub fn intersection(self, other: Self) -> (r: Self)
        ensures
            r.spec_bits() == self.spec_bits() & other.spec_bits(),
    {
        Self { bits: self.bits & other.bits }
    }

    /// The flags that are in one of the sets or in both.
    #[must_use]
    pub fn union(self, other: Self) -> (r: Self)
        ensures
            r.spec_bits() == self.spec_bits() | other.spec_bits(),
    {
        Self { bits: self.bits | other.bits }
    }

    /// The flags of this set that are not in `other`.
    #[must_use]
    pub fn difference(self, other: Self) -> (r: Self)
        ensures
            r.spec_bits() == self.spec_bits() & !other.spec_bits(),
    {
        Self { bits: self.bits & !other.bits }
    }
}

impl core::ops::BitOr for CompositeGlyphFlags {
    type Output = Self;

    /// The union of the two sets.
    fn bitor(self, other: CompositeGlyphFlags) -> (r: Self)
        ensures
            r.spec_bits() == self.spec_bits() | other.spec_bits(),
    {
        Self { bits: self.bits | other.bits }
    }
}

impl vstd::std_specs::ops::BitOrSpecImpl for CompositeGlyphFlags {
    open spec fn obeys_bitor_spec() -> bool {
        true
    }

    open spec fn bitor_req(self, other: CompositeGlyphFlags) -> bool {
        true
    }

    closed spec fn bitor_spec(self, other: CompositeGlyphFlags) -> CompositeGlyphFlags {
        CompositeGlyphFlags { bits: self.bits | other.bits }
    }
}

impl core::ops::BitAnd for CompositeGlyphFlags {
    type Output = Self;

    /// The flags that are in both sets.
    fn bitand(self, other: CompositeGlyphFlags) -> (r: Self)
        ensures
            r.spec_bits() == self.spec_bits() & other.spec_bits(),
    {
        Self { bits: self.bits & other.bits }
    }
}

impl vstd::std_specs::ops::BitAndSpecImpl for CompositeGlyphFlags {
    open spec fn obeys_bitand_spec() -> bool {
        true
    }

    open spec fn bitand_req(self, other: CompositeGlyphFlags) -> bool {
        true
    }

    closed spec fn bitand_spec(self, other: CompositeGlyphFlags) -> CompositeGlyphFlags {
        CompositeGlyphFlags { bits: self.bits & other.bits }
    }
}

impl core::ops::BitXor for CompositeGlyphFlags {
    type Output = Self;

    /// This set with the flags of the other turned over.
    fn bitxor(self, other: CompositeGlyphFlags) -> (r: Self)
        ensures
            r.spec_bits() == self.spec_bits() ^ other.spec_bits(),
    {
        Self { bits: self.bits ^ other.bits }
    }
}

impl vstd::std_specs::ops::BitXorSpecImpl for CompositeGlyphFlags {
    open spec fn obeys_bitxor_spec() -> bool {
        true
    }

    open spec fn bitxor_req(self, other: CompositeGlyphFlags) -> bool {
        true
    }

    closed spec fn bitxor_spec(self, other: CompositeGlyphFlags) -> CompositeGlyphFlags {
        CompositeGlyphFlags { bits: self.bits ^ other.bits }
    }
}

impl core::ops::Sub for CompositeGlyphFlags {
    type Output = Self;

    /// The flags of this set that are not in the other.
    fn sub(self, other: CompositeGlyphFlags) -> (r: Self)
        ensures
            r.spec_bits() == self.spec_bits() & !other.spec_bits(),
    {
        Self { bits: self.bits & !other.bits }
    }
}

impl vstd::std_specs::ops::SubSpecImpl for CompositeGlyphFlags {
    open spec fn obeys_sub_spec() -> bool {
        true
    }

    open spec fn sub_req(self, other: CompositeGlyphFlags) -> bool {
        true
    }

    closed spec fn sub_spec(self, other: CompositeGlyphFlags) -> CompositeGlyphFlags {
        CompositeGlyphFlags { bits: self.bits & !other.bits }
    }
}

impl core::ops::Not for CompositeGlyphFlags {
    type Output = Self;

    /// The flags that are defined and not in this set.
    fn not(self) -> (r: Self)
        ensures
            r.spec_bits() == !self.spec_bits() & Self::ALL_BITS,
    {
        Self { bits: !self.bits & Self::ALL_BITS }
    }
}

impl vstd::std_specs::ops::NotSpecImpl for CompositeGlyphFlags {
    open spec fn obeys_not_spec() -> bool {
        true
    }

    open spec fn not_req(self) -> bool {
        true
    }

    closed spec fn not_spec(self) -> CompositeGlyphFlags {
        CompositeGlyphFlags { bits: !self.bits & Self::ALL_BITS }
    }
}

} // verus!
