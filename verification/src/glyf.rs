//! The values of the glyph data table: points and their flags, and the
//! components of composite glyphs.

use crate::composite_glyph_flags::CompositeGlyphFlags;
use crate::scalars::{F2Dot14, GlyphId16};
use vstd::prelude::*;

verus! {

/// Marks that a point gets while an outline is varied and hinted.
#[derive(Copy, Clone, PartialEq, Eq, Debug)]
pub struct PointMarker(u8);

impl Default for PointMarker {
    /// No mark.
    fn default() -> (r: Self)
        ensures
            r.spec_bits() == 0,
    {
        PointMarker(0)
    }
}

impl PointMarker {
    /// The bits of the marker.
    pub closed spec fn spec_bits(&self) -> u8 {
        self.0
    }

    /// The marker with the given bits.
    pub closed spec fn with_bits(bits: u8) -> Self {
        PointMarker(bits)
    }

    /// A marker is its bits.
    pub proof fn lemma_bits(self)
        ensures
            self == Self::with_bits(self.spec_bits()),
            forall|bits: u8| (#[trigger] Self::with_bits(bits)).spec_bits() == bits,
    {
    }

    /// The bits of the marker.
    #[verifier::when_used_as_spec(spec_bits)]
    pub fn bits(&self) -> (r: u8)
        ensures
            r == self.spec_bits(),
    {
        self.0
    }

    /// The point has a delta of its own in a variation tuple.
    pub fn has_delta() -> (r: Self)
        ensures
            r.spec_bits() == 0x4,
    {
        Self(0x4)
    }

    /// The x coordinate of the point was touched by a hinting instruction.
    pub fn touched_x() -> (r: Self)
        ensures
            r.spec_bits() == 0x10,
    {
        Self(0x10)
    }

    /// The y coordinate of the point was touched by a hinting instruction.
    pub fn touched_y() -> (r: Self)
        ensures
            r.spec_bits() == 0x20,
    {
        Self(0x20)
    }

    /// Both coordinates of the point were touched by a hinting instruction.
    pub fn touched() -> (r: Self)
        ensures
            r.spec_bits() == 0x30,
    {
        Self(0x30)
    }
}

/// What kind of point a point is, and the marks that it has got.
///
/// A point with neither the on-curve bit nor the cubic bit is a quadratic
/// off-curve point.
#[derive(Copy, Clone, PartialEq, Eq, Debug)]
pub struct PointFlags(u8);

impl Default for PointFlags {
    /// A quadratic off-curve point without marks.
    fn default() -> (r: Self)
        ensures
            r.spec_bits() == 0,
    {
        PointFlags(0)
    }
}

impl PointFlags {
    /// The bit of a point on the curve.
    pub const ON_CURVE: u8 = 0x01;

    /// The bit of a cubic off-curve point.
    pub const OFF_CURVE_CUBIC: u8 = 0x80;

    /// The two bits that tell the kind of point.
    pub const CURVE_MASK: u8 = 0x81;

    /// The bits of the flags.
    pub closed spec fn spec_bits(&self) -> u8 {
        self.0
    }

    /// The flags with the given bits.
    pub closed spec fn with_bits(bits: u8) -> Self {
        PointFlags(bits)
    }

    /// The flags of a point are their bits.
    pub proof fn lemma_bits(self)
        ensures
            self == Self::with_bits(self.spec_bits()),
            forall|bits: u8| (#[trigger] Self::with_bits(bits)).spec_bits() == bits,
    {
    }

    /// The bits of the flags.
    #[verifier::when_used_as_spec(spec_bits)]
    pub fn bits(&self) -> (r: u8)
        ensures
            r == self.spec_bits(),
    {
        self.0
    }

    /// The flags of a point on the curve.
    pub fn on_curve() -> (r: Self)
        ensures
            r.spec_bits() == Self::ON_CURVE,
    {
        Self(Self::ON_CURVE)
    }

    /// The flags of a quadratic off-curve point.
    pub fn off_curve_quad() -> (r: Self)
        ensures
            r.spec_bits() == 0,
    {
        Self(0)
    }

    /// The flags of a cubic off-curve point.
    pub fn off_curve_cubic() -> (r: Self)
        ensures
            r.spec_bits() == Self::OFF_CURVE_CUBIC,
    {
        Self(Self::OFF_CURVE_CUBIC)
    }

    /// The flags with the kind of point that `bits` tell, and no marks.
    pub fn from_bits(bits: u8) -> (r: Self)
        ensures
            r.spec_bits() == bits & Self::CURVE_MASK,
    {
        Self(bits & Self::CURVE_MASK)
    }

    /// Whether the point is on the curve.
    pub fn is_on_curve(self) -> (r: bool)
        ensures
            r == (self.spec_bits() & Self::ON_CURVE != 0),
    {
        self.0 & Self::ON_CURVE != 0
    }

    /// Whether the point is a quadratic off-curve point.
    pub fn is_off_curve_quad(self) -> (r: bool)
        ensures
            r == (self.spec_bits() & Self::CURVE_MASK == 0),
    {
        self.0 & Self::CURVE_MASK == 0
    }

    /// Whether the point is a cubic off-curve point.
    pub fn is_off_curve_cubic(self) -> (r: bool)
        ensures
            r == (self.spec_bits() & Self::OFF_CURVE_CUBIC != 0),
    {
        self.0 & Self::OFF_CURVE_CUBIC != 0
    }

    /// Whether the point is off the curve, of either kind.
    pub fn is_off_curve(self) -> (r: bool)
        ensures
            r == (self.spec_bits() & Self::CURVE_MASK == 0 || self.spec_bits()
                & Self::OFF_CURVE_CUBIC != 0),
    {
        self.is_off_curve_quad() || self.is_off_curve_cubic()
    }

    /// Turns the on-curve bit over.
    pub fn flip_on_curve(&mut self)
        ensures
            final(self).spec_bits() == old(self).spec_bits() ^ 1,
    {
        self.0 = self.0 ^ 1;
    }

    /// Sets the on-curve bit.
    pub fn set_on_curve(&mut self)
        ensures
            final(self).spec_bits() == old(self).spec_bits() | Self::ON_CURVE,
    {
        self.0 = self.0 | Self::ON_CURVE;
    }

    /// Clears the on-curve bit.
    pub fn clear_on_curve(&mut self)
        ensures
            final(self).spec_bits() == old(self).spec_bits() & !Self::ON_CURVE,
    {
        self.0 = self.0 & !Self::ON_CURVE;
    }

    /// Whether the point has the given mark.
    pub fn has_marker(self, marker: PointMarker) -> (r: bool)
        ensures
            r == (self.spec_bits() & marker.spec_bits() != 0),
    {
        self.0 & marker.0 != 0
    }

    /// Gives the point the given mark.
    pub fn set_marker(&mut self, marker: PointMarker)
        ensures
            final(self).spec_bits() == old(self).spec_bits() | marker.spec_bits(),
    {
        self.0 = self.0 | marker.0;
    }

    /// Takes the given mark from the point.
    pub fn clear_marker(&mut self, marker: PointMarker)
        ensures
            final(self).spec_bits() == old(self).spec_bits() & !marker.spec_bits(),
    {
        self.0 = self.0 & !marker.0;
    }
}

/// A point of the plane with whole coordinates.
#[derive(Clone, Copy, Debug, PartialEq, Eq, Structural, Hash)]
pub struct Point {
    pub x: i32,
    pub y: i32,
}

impl Default for Point {
    /// The origin.
    fn default() -> (r: Self)
        ensures
            r == (Point { x: 0, y: 0 }),
    {
        Point { x: 0, y: 0 }
    }
}

impl Point {
    /// The point with the given coordinates.
    pub fn new(x: i32, y: i32) -> (r: Self)
        ensures
            r == (Point { x, y }),
    {
        Point { x, y }
    }
}

/// A point of a simple glyph, and whether it lies on the curve.
#[derive(Clone, Copy, Debug, PartialEq, Eq, Structural)]
pub struct CurvePoint {
    /// The x coordinate.
    pub x: i16,
    /// The y coordinate.
    pub y: i16,
    /// Whether the point is on the curve.
    pub on_curve: bool,
}

impl CurvePoint {
    /// The point with the given coordinates.
    pub fn new(x: i16, y: i16, on_curve: bool) -> (r: Self)
        ensures
            r == (CurvePoint { x, y, on_curve }),
    {
        Self { x, y, on_curve }
    }

    /// The point on the curve with the given coordinates.
    pub fn on_curve(x: i16, y: i16) -> (r: Self)
        ensures
            r == (CurvePoint { x, y, on_curve: true }),
    {
        Self::new(x, y, true)
    }

    /// The point off the curve with the given coordinates.
    pub fn off_curve(x: i16, y: i16) -> (r: Self)
        ensures
            r == (CurvePoint { x, y, on_curve: false }),
    {
        Self::new(x, y, false)
    }
}

/// The transformation of a component of a composite glyph.
#[derive(Clone, Copy, Debug, PartialEq, Eq, Structural)]
pub struct Transform {
    /// The scale in x.
    pub xx: F2Dot14,
    /// The skew of y by x.
    pub yx: F2Dot14,
    /// The skew of x by y.
    pub xy: F2Dot14,
    /// The scale in y.
    pub yy: F2Dot14,
}

impl Default for Transform {
    /// The transformation that changes nothing.
    fn default() -> (r: Self)
        ensures
            r.xx.bits == F2Dot14::ONE_BITS,
            r.yx.bits == 0,
            r.xy.bits == 0,
            r.yy.bits == F2Dot14::ONE_BITS,
    {
        Self { xx: F2Dot14::one(), yx: F2Dot14::zero(), xy: F2Dot14::zero(), yy: F2Dot14::one() }
    }
}

/// Where a component of a composite glyph is placed.
#[derive(Clone, Copy, Debug, PartialEq, Eq, Structural)]
pub enum Anchor {
    /// At an offset.
    Offset { x: i16, y: i16 },
    /// So that a point of the component meets a point of the glyph so far.
    Point { base: u16, component: u16 },
}

/// A glyph that is part of a composite glyph.
#[derive(Clone, Debug, PartialEq, Eq)]
pub struct Component {
    /// The flags of the component.
    pub flags: CompositeGlyphFlags,
    /// The glyph.
    pub glyph: GlyphId16,
    /// Where it is placed.
    pub anchor: Anchor,
    /// How it is transformed.
    pub transform: Transform,
}

/// What can be wrong with an outline that is turned into a path.
#[derive(Clone, Copy, Debug, PartialEq, Eq, Structural)]
pub enum ToPathError {
    /// The end point of the contour with this number lies before the end
    /// point of the contour before it.
    ContourOrder(usize),
    /// The point with this number had to be a quadratic off-curve point.
    ExpectedQuad(usize),
    /// The point with this number had to be a quadratic off-curve point or a
    /// point on the curve.
    ExpectedQuadOrOnCurve(usize),
    /// The point with this number had to be a cubic off-curve point.
    ExpectedCubic(usize),
    /// There are not as many flags as points.
    PointFlagMismatch { num_points: usize, num_flags: usize },
}

/// Where a contour begins whose first point is off the curve.
#[derive(Debug, Copy, Clone, PartialEq, Eq, Structural)]
pub enum ToPathStyle {
    /// At the last point if that is on the curve, else half way between the
    /// first point and the last.
    FreeType,
    /// At the second point if that is on the curve, else half way between the
    /// first point and the second.
    HarfBuzz,
}

impl Default for ToPathStyle {
    /// The style of FreeType.
    fn default() -> (r: Self)
        ensures
            r == ToPathStyle::FreeType,
    {
        ToPathStyle::FreeType
    }
}

impl Anchor {
    /// The flags that a component with this anchor needs: whether the
    /// arguments are an offset, and whether they need 16 bits.
    pub fn compute_flags(&self) -> (flags: CompositeGlyphFlags)
        ensures
            flags.spec_bits() == match *self {
                Anchor::Offset { x, y } => if -128 <= x <= 127 && -128 <= y <= 127 {
                    0x0002u16
                } else {
                    0x0003u16
                },
                Anchor::Point { base, component } => if base > 255 || component > 255 {
                    0x0001u16
                } else {
                    0x0000u16
                },
            },
    {
        let mut flags = CompositeGlyphFlags::empty();
        assert(0u16 | 0x0002u16 == 0x0002u16 && 0x0002u16 | 0x0001u16 == 0x0003u16 && 0u16
            | 0x0001u16 == 0x0001u16) by (bit_vector);
        match self {
            Anchor::Offset { x, y } => {
                flags.insert(CompositeGlyphFlags::args_are_xy_values());
                if *x < -128 || *x > 127 || *y < -128 || *y > 127 {
                    flags.insert(CompositeGlyphFlags::arg_1_and_2_are_words());
                }
            },
            Anchor::Point { base, component } => {
                if *base > 255 || *component > 255 {
                    flags.insert(CompositeGlyphFlags::arg_1_and_2_are_words());
                }
            },
        }
        flags
    }
}

impl Transform {
    /// The flags that a component with this transformation needs: the
    /// smallest of a two by two matrix, two scales, one scale and none that
    /// can hold it.
    pub fn compute_flags(&self) -> (flags: CompositeGlyphFlags)
        ensures
            flags.spec_bits() == if self.yx.bits != 0 || self.xy.bits != 0 {
                0x0080u16
            } else if self.xx.bits != self.yy.bits {
                0x0040u16
            } else if self.xx.bits != F2Dot14::ONE_BITS {
                0x0008u16
            } else {
                0x0000u16
            },
    {
        if self.yx.to_bits() != 0 || self.xy.to_bits() != 0 {
            CompositeGlyphFlags::we_have_a_two_by_two()
        } else if self.xx.to_bits() != self.yy.to_bits() {
            CompositeGlyphFlags::we_have_an_x_and_y_scale()
        } else if self.xx.to_bits() != F2Dot14::ONE_BITS {
            CompositeGlyphFlags::we_have_a_scale()
        } else {
            CompositeGlyphFlags::empty()
        }
    }
}

} // verus!
