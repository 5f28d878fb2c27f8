//! The font header table.

use crate::font_data::{be_i16, be_i32, be_i64, be_u16, be_u32, FontData, ReadError};
use crate::scalars::{Fixed, LongDateTime, MajorMinor};
use core::ops::Range;
use vstd::prelude::*;

verus! {

/// The number of bytes of a font header table.
pub const HEAD_LEN: usize = 54;

/// Where the fields of a font header table lie.
#[derive(Debug, Clone, Copy)]
pub struct HeadMarker {}

impl HeadMarker {
    /// The bytes of the field `version`.
    pub fn version_byte_range(&self) -> (r: Range<usize>)
        ensures
            r.start == 0,
            r.end == 4,
    {
        let start: usize = 0;
        start..start + 4
    }

    /// The bytes of the field `font_revision`.
    pub fn font_revision_byte_range(&self) -> (r: Range<usize>)
        ensures
            r.start == 4,
            r.end == 8,
    {
        let start: usize = 4;
        start..start + 4
    }

    /// The bytes of the field `checksum_adjustment`.
    pub fn checksum_adjustment_byte_range(&self) -> (r: Range<usize>)
        ensures
            r.start == 8,
            r.end == 12,
    {
        let start: usize = 8;
        start..start + 4
    }

    /// The bytes of the field `magic_number`.
    pub fn magic_number_byte_range(&self) -> (r: Range<usize>)
        ensures
            r.start == 12,
            r.end == 16,
    {
        let start: usize = 12;
        start..start + 4
    }

    /// The bytes of the field `flags`.
    pub fn flags_byte_range(&self) -> (r: Range<usize>)
        ensures
            r.start == 16,
            r.end == 18,
    {
        let start: usize = 16;
        start..start + 2
    }

    /// The bytes of the field `units_per_em`.
    pub fn units_per_em_byte_range(&self) -> (r: Range<usize>)
        ensures
            r.start == 18,
            r.end == 20,
    {
        let start: usize = 18;
        start..start + 2
    }

    /// The bytes of the field `created`.
    pub fn created_byte_range(&self) -> (r: Range<usize>)
        ensures
            r.start == 20,
            r.end == 28,
    {
        let start: usize = 20;
        start..start + 8
    }

    /// The bytes of the field `modified`.
    pub fn modified_byte_range(&self) -> (r: Range<usize>)
        ensures
            r.start == 28,
            r.end == 36,
    {
        let start: usize = 28;
        start..start + 8
    }

    /// The bytes of the field `x_min`.
    pub fn x_min_byte_range(&self) -> (r: Range<usize>)
        ensures
            r.start == 36,
            r.end == 38,
    {
        let start: usize = 36;
        start..start + 2
    }

    /// The bytes of the field `y_min`.
    pub fn y_min_byte_range(&self) -> (r: Range<usize>)
        ensures
            r.start == 38,
            r.end == 40,
    {
        let start: usize = 38;
        start..start + 2
    }

    /// The bytes of the field `x_max`.
    pub fn x_max_byte_range(&self) -> (r: Range<usize>)
        ensures
            r.start == 40,
            r.end == 42,
    {
        let start: usize = 40;
        start..start + 2
    }

    /// The bytes of the field `y_max`.
    pub fn y_max_byte_range(&self) -> (r: Range<usize>)
        ensures
            r.start == 42,
            r.end == 44,
    {
        let start: usize = 42;
        start..start + 2
    }

    /// The bytes of the field `mac_style`.
    pub fn mac_style_byte_range(&self) -> (r: Range<usize>)
        ensures
            r.start == 44,
            r.end == 46,
    {
        let start: usize = 44;
        start..start + 2
    }

    /// The bytes of the field `lowest_rec_ppem`.
    pub fn lowest_rec_ppem_byte_range(&self) -> (r: Range<usize>)
        ensures
            r.start == 46,
            r.end == 48,
    {
        let start: usize = 46;
        start..start + 2
    }

    /// The bytes of the field `font_direction_hint`.
    pub fn font_direction_hint_byte_range(&self) -> (r: Range<usize>)
        ensures
            r.start == 48,
            r.end == 50,
    {
        let start: usize = 48;
        start..start + 2
    }

    /// The bytes of the field `index_to_loc_format`.
    pub fn index_to_loc_format_byte_range(&self) -> (r: Range<usize>)
        ensures
            r.start == 50,
            r.end == 52,
    {
        let start: usize = 50;
        start..start + 2
    }

    /// The bytes of the field `glyph_data_format`.
    pub fn glyph_data_format_byte_range(&self) -> (r: Range<usize>)
        ensures
            r.start == 52,
            r.end == 54,
    {
        let start: usize = 52;
        start..start + 2
    }

}

/// The font header table: a view of its bytes.
#[derive(Debug, Clone, Copy)]
pub struct Head<'a> {
    data: FontData<'a>,
    shape: HeadMarker,
}

impl<'a> Head<'a> {
    #[verifier::type_invariant]
    spec fn inv(&self) -> bool {
        self.data@.len() >= HEAD_LEN
    }

    /// The bytes of the table.
    pub closed spec fn bytes(&self) -> Seq<u8> {
        self.data@
    }

    /// The data that the table was read from. They hold all fields of the
    /// table: whoever holds a `Head` learns here what `read` has tested.
    pub fn offset_data(&self) -> (r: FontData<'a>)
        ensures
            r@ == self.bytes(),
            HEAD_LEN <= self.bytes().len(),
    {
        proof {
            use_type_invariant(self);
        }
        self.data
    }

    /// The table in the given data, which has to hold all its fields.
    pub fn read(data: FontData<'a>) -> (r: Result<Head<'a>, ReadError>)
        ensures
            match r {
                Ok(head) => data@.len() >= HEAD_LEN && head.bytes() == data@,
                Err(e) => data@.len() < HEAD_LEN && e == ReadError::OutOfBounds,
            },
    {
        if data.len() >= HEAD_LEN {
            Ok(Head { data, shape: HeadMarker {} })
        } else {
            Err(ReadError::OutOfBounds)
        }
    }


    /// The version of the table.
    pub fn version(&self) -> (r: MajorMinor)
        ensures
            r.major == be_u16(self.bytes(), 0),
            r.minor == be_u16(self.bytes(), 2),
    {
        proof {
            use_type_invariant(self);
        }
        let range = self.shape.version_byte_range();
        MajorMinor::new(self.data.u16_at(range.start), self.data.u16_at(range.start + 2))
    }

    /// The revision of the font, as its maker set it.
    pub fn font_revision(&self) -> (r: Fixed)
        ensures
            r.bits == be_i32(self.bytes(), 4),
    {
        proof {
            use_type_invariant(self);
        }
        let range = self.shape.font_revision_byte_range();
        Fixed::from_bits(self.data.i32_at(range.start))
    }

    /// The number that makes the checksum of the whole font come out.
    pub fn checksum_adjustment(&self) -> (r: u32)
        ensures
            r == be_u32(self.bytes(), 8),
    {
        proof {
            use_type_invariant(self);
        }
        let range = self.shape.checksum_adjustment_byte_range();
        self.data.u32_at(range.start)
    }

    /// The magic number of the table.
    pub fn magic_number(&self) -> (r: u32)
        ensures
            r == be_u32(self.bytes(), 12),
    {
        proof {
            use_type_invariant(self);
        }
        let range = self.shape.magic_number_byte_range();
        self.data.u32_at(range.start)
    }

    /// The flags of the font.
    pub fn flags(&self) -> (r: u16)
        ensures
            r == be_u16(self.bytes(), 16),
    {
        proof {
            use_type_invariant(self);
        }
        let range = self.shape.flags_byte_range();
        self.data.u16_at(range.start)
    }

    /// The number of font units per em.
    pub fn units_per_em(&self) -> (r: u16)
        ensures
            r == be_u16(self.bytes(), 18),
    {
        proof {
            use_type_invariant(self);
        }
        let range = self.shape.units_per_em_byte_range();
        self.data.u16_at(range.start)
    }

    /// When the font was made.
    pub fn created(&self) -> (r: LongDateTime)
        ensures
            r.seconds == be_i64(self.bytes(), 20),
    {
        proof {
            use_type_invariant(self);
        }
        let range = self.shape.created_byte_range();
        LongDateTime::new(self.data.i64_at(range.start))
    }

    /// When the font was last changed.
    pub fn modified(&self) -> (r: LongDateTime)
        ensures
            r.seconds == be_i64(self.bytes(), 28),
    {
        proof {
            use_type_invariant(self);
        }
        let range = self.shape.modified_byte_range();
        LongDateTime::new(self.data.i64_at(range.start))
    }

    /// The least x of all glyph bounding boxes.
    pub fn x_min(&self) -> (r: i16)
        ensures
            r == be_i16(self.bytes(), 36),
    {
        proof {
            use_type_invariant(self);
        }
        let range = self.shape.x_min_byte_range();
        self.data.i16_at(range.start)
    }

    /// The least y of all glyph bounding boxes.
    pub fn y_min(&self) -> (r: i16)
        ensures
            r == be_i16(self.bytes(), 38),
    {
        proof {
            use_type_invariant(self);
        }
        let range = self.shape.y_min_byte_range();
        self.data.i16_at(range.start)
    }

    /// The greatest x of all glyph bounding boxes.
    pub fn x_max(&self) -> (r: i16)
        ensures
            r == be_i16(self.bytes(), 40),
    {
        proof {
            use_type_invariant(self);
        }
        let range = self.shape.x_max_byte_range();
        self.data.i16_at(range.start)
    }

    /// The greatest y of all glyph bounding boxes.
    pub fn y_max(&self) -> (r: i16)
        ensures
            r == be_i16(self.bytes(), 42),
    {
        proof {
            use_type_invariant(self);
        }
        let range = self.shape.y_max_byte_range();
        self.data.i16_at(range.start)
    }

    /// The style bits of the font.
    pub fn mac_style(&self) -> (r: u16)
        ensures
            r == be_u16(self.bytes(), 44),
    {
        proof {
            use_type_invariant(self);
        }
        let range = self.shape.mac_style_byte_range();
        self.data.u16_at(range.start)
    }

    /// The smallest size in pixels at which the font reads well.
    pub fn lowest_rec_ppem(&self) -> (r: u16)
        ensures
            r == be_u16(self.bytes(), 46),
    {
        proof {
            use_type_invariant(self);
        }
        let range = self.shape.lowest_rec_ppem_byte_range();
        self.data.u16_at(range.start)
    }

    /// The direction of the glyphs; no longer in use.
    pub fn font_direction_hint(&self) -> (r: i16)
        ensures
            r == be_i16(self.bytes(), 48),
    {
        proof {
            use_type_invariant(self);
        }
        let range = self.shape.font_direction_hint_byte_range();
        self.data.i16_at(range.start)
    }

    /// Whether the glyph offsets are short (0) or long (1).
    pub fn index_to_loc_format(&self) -> (r: i16)
        ensures
            r == be_i16(self.bytes(), 50),
    {
        proof {
            use_type_invariant(self);
        }
        let range = self.shape.index_to_loc_format_byte_range();
        self.data.i16_at(range.start)
    }

    /// The format of the glyph data.
    pub fn glyph_data_format(&self) -> (r: i16)
        ensures
            r == be_i16(self.bytes(), 52),
    {
        proof {
            use_type_invariant(self);
        }
        let range = self.shape.glyph_data_format_byte_range();
        self.data.i16_at(range.start)
    }
}

} // verus!
