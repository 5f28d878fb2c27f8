//! The glyph data table: simple glyphs, which are outlines, and composite
//! glyphs, which are put together from other glyphs.

use crate::font_data::{be_i16, be_u16, FontData, ReadError};
use core::ops::Range;
use vstd::prelude::*;

verus! {

/// The glyph data table as a whole: its glyphs are found through the table
/// of glyph locations.
#[derive(Debug, Clone, Copy)]
pub struct GlyfMarker {}

/// The number of bytes of the header that all glyphs have: the number of
/// contours and the bounding box.
pub const GLYPH_HEADER_LEN: usize = 10;

/// Where the fields of a simple glyph lie.
#[derive(Debug, Clone, Copy)]
pub struct SimpleGlyphMarker {
    end_pts_of_contours_byte_len: usize,
    instructions_byte_len: usize,
    glyph_data_byte_len: usize,
}

impl SimpleGlyphMarker {
    #[verifier::type_invariant]
    spec fn inv(&self) -> bool {
        12 + self.end_pts_of_contours_byte_len + self.instructions_byte_len
            + self.glyph_data_byte_len <= usize::MAX
    }

    /// The number of bytes of the end points of the contours.
    pub closed spec fn end_pts_len(&self) -> int {
        self.end_pts_of_contours_byte_len as int
    }

    /// The number of bytes of the instructions.
    pub closed spec fn instructions_len(&self) -> int {
        self.instructions_byte_len as int
    }

    /// The number of bytes of the flags and coordinates.
    pub closed spec fn glyph_data_len(&self) -> int {
        self.glyph_data_byte_len as int
    }

    /// The bytes of the field `number_of_contours`.
    pub fn number_of_contours_byte_range(&self) -> (r: Range<usize>)
        ensures
            r.start == 0,
            r.end == 2,
    {
        let start: usize = 0;
        start..start + 2
    }

    /// The bytes of the field `x_min`.
    pub fn x_min_byte_range(&self) -> (r: Range<usize>)
        ensures
            r.start == 2,
            r.end == 4,
    {
        let start: usize = 2;
        start..start + 2
    }

    /// The bytes of the field `y_min`.
    pub fn y_min_byte_range(&self) -> (r: Range<usize>)
        ensures
            r.start == 4,
            r.end == 6,
    {
        let start: usize = 4;
        start..start + 2
    }

    /// The bytes of the field `x_max`.
    pub fn x_max_byte_range(&self) -> (r: Range<usize>)
        ensures
            r.start == 6,
            r.end == 8,
    {
        let start: usize = 6;
        start..start + 2
    }

    /// The bytes of the field `y_max`.
    pub fn y_max_byte_range(&self) -> (r: Range<usize>)
        ensures
            r.start == 8,
            r.end == 10,
    {
        let start: usize = 8;
        start..start + 2
    }

    /// The bytes of the end points of the contours.
    pub fn end_pts_of_contours_byte_range(&self) -> (r: Range<usize>)
        ensures
            r.start == 10,
            r.end == 10 + self.end_pts_len(),
    {
        proof {
            use_type_invariant(self);
        }
        let start: usize = self.y_max_byte_range().end;
        start..start + self.end_pts_of_contours_byte_len
    }

    /// The bytes of the number of instruction bytes.
    pub fn instruction_length_byte_range(&self) -> (r: Range<usize>)
        ensures
            r.start == 10 + self.end_pts_len(),
            r.end == 12 + self.end_pts_len(),
    {
        proof {
            use_type_invariant(self);
        }
        let start: usize = self.end_pts_of_contours_byte_range().end;
        start..start + 2
    }

    /// The bytes of the instructions.
    pub fn instructions_byte_range(&self) -> (r: Range<usize>)
        ensures
            r.start == 12 + self.end_pts_len(),
            r.end == 12 + self.end_pts_len() + self.instructions_len(),
    {
        proof {
            use_type_invariant(self);
        }
        let start: usize = self.instruction_length_byte_range().end;
        start..start + self.instructions_byte_len
    }

    /// The bytes of the flags and coordinates.
    pub fn glyph_data_byte_range(&self) -> (r: Range<usize>)
        ensures
            r.start == 12 + self.end_pts_len() + self.instructions_len(),
            r.end == 12 + self.end_pts_len() + self.instructions_len() + self.glyph_data_len(),
    {
        proof {
            use_type_invariant(self);
        }
        let start: usize = self.instructions_byte_range().end;
        start..start + self.glyph_data_byte_len
    }
}

/// A glyph that is an outline: a view of its bytes.
#[derive(Debug, Clone, Copy)]
pub struct SimpleGlyph<'a> {
    data: FontData<'a>,
    shape: SimpleGlyphMarker,
}

/// The number of contours that the bytes of a glyph declare.
pub open spec fn contours_of(bytes: Seq<u8>) -> int {
    be_i16(bytes, 0) as int
}

/// The number of instruction bytes that the bytes of a simple glyph declare.
pub open spec fn instruction_length_of(bytes: Seq<u8>) -> int {
    be_u16(bytes, 10 + 2 * contours_of(bytes)) as int
}

/// Where the flags and coordinates of a simple glyph begin.
pub open spec fn glyph_data_start(bytes: Seq<u8>) -> int {
    12 + 2 * contours_of(bytes) + instruction_length_of(bytes)
}

/// The bytes are those of a simple glyph: the header, the end points of as
/// many contours as the header says, and as many instruction bytes as the
/// number behind the end points says are all there.
pub open spec fn is_simple_glyph(bytes: Seq<u8>) -> bool {
    &&& bytes.len() >= 2
    &&& contours_of(bytes) >= 0
    &&& bytes.len() >= 12 + 2 * contours_of(bytes)
    &&& bytes.len() >= glyph_data_start(bytes)
}

impl<'a> SimpleGlyph<'a> {
    #[verifier::type_invariant]
    spec fn inv(&self) -> bool {
        &&& is_simple_glyph(self.data@)
        &&& self.shape.end_pts_len() == 2 * contours_of(self.data@)
        &&& self.shape.instructions_len() == instruction_length_of(self.data@)
        &&& self.shape.glyph_data_len() == self.data@.len() - glyph_data_start(self.data@)
    }

    /// The bytes of the glyph.
    pub closed spec fn bytes(&self) -> Seq<u8> {
        self.data@
    }

    /// The data that the glyph was read from. They are the bytes of a simple
    /// glyph: whoever holds a `SimpleGlyph` learns here what `read` has
    /// tested.
    pub fn offset_data(&self) -> (r: FontData<'a>)
        ensures
            r@ == self.bytes(),
            is_simple_glyph(self.bytes()),
            12 + 2 * contours_of(self.bytes()) + instruction_length_of(self.bytes())
                <= self.bytes().len(),
    {
        proof {
            use_type_invariant(self);
        }
        self.data
    }

    /// The simple glyph in the given data.
    pub fn read(data: FontData<'a>) -> (r: Result<SimpleGlyph<'a>, ReadError>)
        ensures
            match r {
                Ok(glyph) => is_simple_glyph(data@) && glyph.bytes() == data@,
                Err(e) => !is_simple_glyph(data@) && e == ReadError::OutOfBounds,
            },
    {
        let len: usize = data.len();
        let number_of_contours: i16 = match data.read_i16(0) {
            Ok(n) => n,
            Err(e) => {
                return Err(e);
            },
        };
        if number_of_contours < 0 {
            return Err(ReadError::OutOfBounds);
        }
        let end_pts_of_contours_byte_len: usize = number_of_contours as usize * 2;
        if len < 12 || len - 12 < end_pts_of_contours_byte_len {
            return Err(ReadError::OutOfBounds);
        }
        let instruction_length: u16 = data.u16_at(10 + end_pts_of_contours_byte_len);
        let instructions_byte_len: usize = instruction_length as usize;
        if len - 12 - end_pts_of_contours_byte_len < instructions_byte_len {
            return Err(ReadError::OutOfBounds);
        }
        let glyph_data_byte_len: usize = len - 12 - end_pts_of_contours_byte_len
            - instructions_byte_len;
        Ok(
            SimpleGlyph {
                data,
                shape: SimpleGlyphMarker {
                    end_pts_of_contours_byte_len,
                    instructions_byte_len,
                    glyph_data_byte_len,
                },
            },
        )
    }

    /// The number of contours; not negative in a simple glyph.
    pub fn number_of_contours(&self) -> (r: i16)
        ensures
            r == be_i16(self.bytes(), 0),
    {
        proof {
            use_type_invariant(self);
        }
        let range = self.shape.number_of_contours_byte_range();
        self.data.i16_at(range.start)
    }

    /// The least x of the outline.
    pub fn x_min(&self) -> (r: i16)
        ensures
            r == be_i16(self.bytes(), 2),
    {
        proof {
            use_type_invariant(self);
        }
        let range = self.shape.x_min_byte_range();
        self.data.i16_at(range.start)
    }

    /// The least y of the outline.
    pub fn y_min(&self) -> (r: i16)
        ensures
            r == be_i16(self.bytes(), 4),
    {
        proof {
            use_type_invariant(self);
        }
        let range = self.shape.y_min_byte_range();
        self.data.i16_at(range.start)
    }

    /// The greatest x of the outline.
    pub fn x_max(&self) -> (r: i16)
        ensures
            r == be_i16(self.bytes(), 6),
    {
        proof {
            use_type_invariant(self);
        }
        let range = self.shape.x_max_byte_range();
        self.data.i16_at(range.start)
    }

    /// The greatest y of the outline.
    pub fn y_max(&self) -> (r: i16)
        ensures
            r == be_i16(self.bytes(), 8),
    {
        proof {
            use_type_invariant(self);
        }
        let range = self.shape.y_max_byte_range();
        self.data.i16_at(range.start)
    }

    /// The number of the last point of each contour.
    pub fn end_pts_of_contours(&self) -> (r: Vec<u16>)
        ensures
            r@.len() == contours_of(self.bytes()),
            forall|i: int| 0 <= i < r@.len() ==> #[trigger] r@[i] == be_u16(self.bytes(), 10 + 2 * i),
    {
        proof {
            use_type_invariant(self);
            use_type_invariant(&self.shape);
        }
        let range = self.shape.end_pts_of_contours_byte_range();
        let mut r: Vec<u16> = Vec::new();
        let mut at: usize = range.start;
        while at < range.end
            invariant
                range.start == 10,
                range.end == 10 + 2 * contours_of(self.data@),
                range.end + 2 <= self.data@.len(),
                10 <= at <= range.end,
                (at - 10) % 2 == 0,
                r@.len() == (at - 10) / 2,
                forall|i: int| 0 <= i < r@.len() ==> #[trigger] r@[i] == be_u16(self.data@, 10 + 2 * i),
            decreases range.end - at,
        {
            r.push(self.data.u16_at(at));
            at = at + 2;
        }
        r
    }

    /// The number of instruction bytes.
    pub fn instruction_length(&self) -> (r: u16)
        ensures
            r == instruction_length_of(self.bytes()),
    {
        proof {
            use_type_invariant(self);
        }
        let range = self.shape.instruction_length_byte_range();
        self.data.u16_at(range.start)
    }

    /// The instructions of the glyph.
    pub fn instructions(&self) -> (r: &'a [u8])
        ensures
            is_simple_glyph(self.bytes()),
            r@ == self.bytes().subrange(
                12 + 2 * contours_of(self.bytes()),
                glyph_data_start(self.bytes()),
            ),
            r@.len() == instruction_length_of(self.bytes()),
    {
        proof {
            use_type_invariant(self);
        }
        let range = self.shape.instructions_byte_range();
        vstd::slice::slice_subrange(self.data.as_bytes(), range.start, range.end)
    }

    /// The flags and coordinates of the points, as they are stored.
    pub fn glyph_data(&self) -> (r: &'a [u8])
        ensures
            is_simple_glyph(self.bytes()),
            r@ == self.bytes().subrange(
                glyph_data_start(self.bytes()),
                self.bytes().len() as int,
            ),
            r@.len() == self.bytes().len() - glyph_data_start(self.bytes()),
    {
        proof {
            use_type_invariant(self);
        }
        let range = self.shape.glyph_data_byte_range();
        vstd::slice::slice_subrange(self.data.as_bytes(), range.start, range.end)
    }
}

/// Where the fields of a composite glyph lie.
#[derive(Debug, Clone, Copy)]
pub struct CompositeGlyphMarker {
    component_data_byte_len: usize,
}

impl CompositeGlyphMarker {
    #[verifier::type_invariant]
    spec fn inv(&self) -> bool {
        10 + self.component_data_byte_len <= usize::MAX
    }

    /// The number of bytes of the components.
    pub closed spec fn component_data_len(&self) -> int {
        self.component_data_byte_len as int
    }

    /// The bytes of the field `number_of_contours`.
    pub fn number_of_contours_byte_range(&self) -> (r: Range<usize>)
        ensures
            r.start == 0,
            r.end == 2,
    {
        let start: usize = 0;
        start..start + 2
    }

    /// The bytes of the field `x_min`.
    pub fn x_min_byte_range(&self) -> (r: Range<usize>)
        ensures
            r.start == 2,
            r.end == 4,
    {
        let start: usize = 2;
        start..start + 2
    }

    /// The bytes of the field `y_min`.
    pub fn y_min_byte_range(&self) -> (r: Range<usize>)
        ensures
            r.start == 4,
            r.end == 6,
    {
        let start: usize = 4;
        start..start + 2
    }

    /// The bytes of the field `x_max`.
    pub fn x_max_byte_range(&self) -> (r: Range<usize>)
        ensures
            r.start == 6,
            r.end == 8,
    {
        let start: usize = 6;
        start..start + 2
    }

    /// The bytes of the field `y_max`.
    pub fn y_max_byte_range(&self) -> (r: Range<usize>)
        ensures
            r.start == 8,
            r.end == 10,
    {
        let start: usize = 8;
        start..start + 2
    }

    /// The bytes of the components.
    pub fn component_data_byte_range(&self) -> (r: Range<usize>)
        ensures
            r.start == 10,
            r.end == 10 + self.component_data_len(),
    {
        proof {
            use_type_invariant(self);
        }
        let start: usize = self.y_max_byte_range().end;
        start..start + self.component_data_byte_len
    }
}

/// A glyph that is put together from other glyphs: a view of its bytes.
#[derive(Debug, Clone, Copy)]
pub struct CompositeGlyph<'a> {
    data: FontData<'a>,
    shape: CompositeGlyphMarker,
}

impl<'a> CompositeGlyph<'a> {
    #[verifier::type_invariant]
    spec fn inv(&self) -> bool {
        &&& self.data@.len() >= GLYPH_HEADER_LEN
        &&& self.shape.component_data_len() == self.data@.len() - GLYPH_HEADER_LEN
    }

    /// The bytes of the glyph.
    pub closed spec fn bytes(&self) -> Seq<u8> {
        self.data@
    }

    /// The data that the glyph was read from. They hold the header:
    /// whoever holds a `CompositeGlyph` learns here what `read` has tested.
    pub fn offset_data(&self) -> (r: FontData<'a>)
        ensures
            r@ == self.bytes(),
            GLYPH_HEADER_LEN <= self.bytes().len(),
    {
        proof {
            use_type_invariant(self);
        }
        self.data
    }

    /// The composite glyph in the given data, which has to hold the header.
    pub fn read(data: FontData<'a>) -> (r: Result<CompositeGlyph<'a>, ReadError>)
        ensures
            match r {
                Ok(glyph) => data@.len() >= GLYPH_HEADER_LEN && glyph.bytes() == data@,
                Err(e) => data@.len() < GLYPH_HEADER_LEN && e == ReadError::OutOfBounds,
            },
    {
        let len: usize = data.len();
        if len < GLYPH_HEADER_LEN {
            return Err(ReadError::OutOfBounds);
        }
        let component_data_byte_len: usize = len - GLYPH_HEADER_LEN;
        Ok(CompositeGlyph { data, shape: CompositeGlyphMarker { component_data_byte_len } })
    }

    /// The number of contours; negative in a composite glyph.
    pub fn number_of_contours(&self) -> (r: i16)
        ensures
            r == be_i16(self.bytes(), 0),
    {
        proof {
            use_type_invariant(self);
        }
        let range = self.shape.number_of_contours_byte_range();
        self.data.i16_at(range.start)
    }

    /// The least x of the outline.
    pub fn x_min(&self) -> (r: i16)
        ensures
            r == be_i16(self.bytes(), 2),
    {
        proof {
            use_type_invariant(self);
        }
        let range = self.shape.x_min_byte_range();
        self.data.i16_at(range.start)
    }

    /// The least y of the outline.
    pub fn y_min(&self) -> (r: i16)
        ensures
            r == be_i16(self.bytes(), 4),
    {
        proof {
            use_type_invariant(self);
        }
        let range = self.shape.y_min_byte_range();
        self.data.i16_at(range.start)
    }

    /// The greatest x of the outline.
    pub fn x_max(&self) -> (r: i16)
        ensures
            r == be_i16(self.bytes(), 6),
    {
        proof {
            use_type_invariant(self);
        }
        let range = self.shape.x_max_byte_range();
        self.data.i16_at(range.start)
    }

    /// The greatest y of the outline.
    pub fn y_max(&self) -> (r: i16)
        ensures
            r == be_i16(self.bytes(), 8),
    {
        proof {
            use_type_invariant(self);
        }
        let range = self.shape.y_max_byte_range();
        self.data.i16_at(range.start)
    }

    /// The components of the glyph, as they are stored.
    pub fn component_data(&self) -> (r: &'a [u8])
        ensures
            self.bytes().len() >= GLYPH_HEADER_LEN,
            r@ == self.bytes().subrange(GLYPH_HEADER_LEN as int, self.bytes().len() as int),
            r@.len() == self.bytes().len() - GLYPH_HEADER_LEN,
    {
        proof {
            use_type_invariant(self);
        }
        let range = self.shape.component_data_byte_range();
        vstd::slice::slice_subrange(self.data.as_bytes(), range.start, range.end)
    }
}

/// A glyph of either kind.
#[derive(Debug, Clone, Copy)]
pub enum Glyph<'a> {
    Simple(SimpleGlyph<'a>),
    Composite(CompositeGlyph<'a>),
}

impl<'a> Glyph<'a> {
    /// The bytes of the glyph.
    pub open spec fn bytes(&self) -> Seq<u8> {
        match self {
            Glyph::Simple(item) => item.bytes(),
            Glyph::Composite(item) => item.bytes(),
        }
    }

    /// The glyph in the given data: a simple glyph if the number of
    /// contours is not negative, else a composite glyph.
    pub fn read(data: FontData<'a>) -> (r: Result<Glyph<'a>, ReadError>)
        ensures
            match r {
                Ok(glyph) => {
                    &&& glyph.bytes() == data@
                    &&& data@.len() >= 2
                    &&& glyph is Simple <==> contours_of(data@) >= 0
                    &&& glyph is Simple ==> is_simple_glyph(data@)
                    &&& glyph is Composite ==> data@.len() >= GLYPH_HEADER_LEN
                },
                Err(e) => {
                    &&& e == ReadError::OutOfBounds
                    &&& data@.len() < 2 || (contours_of(data@) >= 0 && !is_simple_glyph(data@)) || (
                    contours_of(data@) < 0 && data@.len() < GLYPH_HEADER_LEN)
                },
            },
    {
        let format: i16 = match data.read_i16(0) {
            Ok(n) => n,
            Err(e) => {
                return Err(e);
            },
        };
        if format >= 0 {
            match SimpleGlyph::read(data) {
                Ok(glyph) => Ok(Glyph::Simple(glyph)),
                Err(e) => Err(e),
            }
        } else {
            match CompositeGlyph::read(data) {
                Ok(glyph) => Ok(Glyph::Composite(glyph)),
                Err(e) => Err(e),
            }
        }
    }

    /// The number of contours.
    pub fn number_of_contours(&self) -> (r: i16)
        ensures
            r == be_i16(self.bytes(), 0),
    {
        match self {
            Glyph::Simple(item) => item.number_of_contours(),
            Glyph::Composite(item) => item.number_of_contours(),
        }
    }

    /// The least x of the outline.
    pub fn x_min(&self) -> (r: i16)
        ensures
            r == be_i16(self.bytes(), 2),
    {
        match self {
            Glyph::Simple(item) => item.x_min(),
            Glyph::Composite(item) => item.x_min(),
        }
    }

    /// The least y of the outline.
    pub fn y_min(&self) -> (r: i16)
        ensures
            r == be_i16(self.bytes(), 4),
    {
        match self {
            Glyph::Simple(item) => item.y_min(),
            Glyph::Composite(item) => item.y_min(),
        }
    }

    /// The greatest x of the outline.
    pub fn x_max(&self) -> (r: i16)
        ensures
            r == be_i16(self.bytes(), 6),
    {
        match self {
            Glyph::Simple(item) => item.x_max(),
            Glyph::Composite(item) => item.x_max(),
        }
    }

    /// The greatest y of the outline.
    pub fn y_max(&self) -> (r: i16)
        ensures
            r == be_i16(self.bytes(), 8),
    {
        match self {
            Glyph::Simple(item) => item.y_max(),
            Glyph::Composite(item) => item.y_max(),
        }
    }
}

} // verus!
