//! The points of a simple glyph, read from its bytes.
//!
//! The points are stored as three runs of bytes: flags, x coordinates and y
//! coordinates. A flag byte may stand for several points; the coordinates
//! are steps from the point before, of zero, one or two bytes as the flags
//! say.

use crate::font_data::{be_i16, be_u16, i16_of, ReadError};
use crate::glyf::{CurvePoint, Point, PointFlags};
use crate::glyph::{contours_of, SimpleGlyph};
use crate::simple_glyph_flags::SimpleGlyphFlags;
use vstd::prelude::*;
use vstd::wrapping::{i16_specs, i32_specs};

verus! {

/// The number of bytes of the three parts of the point data of a glyph.
#[derive(Clone, Copy, Debug, PartialEq, Eq, Structural)]
pub struct FieldLengths {
    pub flags: u32,
    pub x_coords: u32,
    pub y_coords: u32,
}

/// The flags in the byte at `pos`.
pub open spec fn point_flags_at(data: Seq<u8>, pos: int) -> u8 {
    data[pos] & SimpleGlyphFlags::ALL_BITS
}

/// The number of bytes that the coordinate of a point with the given flags
/// takes; `short` is the bit for a coordinate of one byte, and with both
/// bits of `long` clear the coordinate takes two bytes.
pub open spec fn coord_len(flags: u8, short: u8, long: u8) -> int {
    (if flags & short != 0 {
        1int
    } else {
        0int
    }) + (if flags & long == 0 {
        2int
    } else {
        0int
    })
}

/// The lengths of the three parts of the point data, where the flags from
/// `pos` on hold `left` more points and the coordinates of the points before
/// take `x` and `y` bytes. The flags have to lie within the data, and the
/// last flag byte may not stand for more points than are left.
pub open spec fn coords_len_from(data: Seq<u8>, pos: int, left: int, x: int, y: int) -> Result<
    FieldLengths,
    ReadError,
>
    decreases left,
{
    if left <= 0 {
        Ok(FieldLengths { flags: pos as u32, x_coords: x as u32, y_coords: y as u32 })
    } else if pos < 0 || pos >= data.len() {
        Err(ReadError::OutOfBounds)
    } else {
        let flags = point_flags_at(data, pos);
        if flags & 0x08 == 0x08 {
            if pos + 1 >= data.len() {
                Err(ReadError::OutOfBounds)
            } else {
                let repeats = data[pos + 1] + 1;
                if repeats > left {
                    Err(ReadError::MalformedData)
                } else {
                    coords_len_from(
                        data,
                        pos + 2,
                        left - repeats,
                        x + repeats * coord_len(flags, 0x02, 0x12),
                        y + repeats * coord_len(flags, 0x04, 0x24),
                    )
                }
            }
        } else {
            coords_len_from(
                data,
                pos + 1,
                left - 1,
                x + coord_len(flags, 0x02, 0x12),
                y + coord_len(flags, 0x04, 0x24),
            )
        }
    }
}

/// The lengths of the three parts of the point data of a glyph with
/// `points_total` points.
pub fn resolve_coords_len(data: &[u8], points_total: u16) -> (r: Result<FieldLengths, ReadError>)
    ensures
        r == coords_len_from(data@, 0, points_total as int, 0, 0),
        r is Ok ==> r->Ok_0.flags <= data@.len() && r->Ok_0.x_coords <= 2 * points_total
            && r->Ok_0.y_coords <= 2 * points_total,
{
    let len: usize = data.len();
    let mut pos: usize = 0;
    let mut flags_left: u32 = points_total as u32;
    let mut x_coords_len: u32 = 0;
    let mut y_coords_len: u32 = 0;
    while flags_left > 0
        invariant
            len == data@.len(),
            pos <= len,
            flags_left <= points_total,
            pos <= 2 * (points_total - flags_left),
            x_coords_len <= 2 * (points_total - flags_left),
            y_coords_len <= 2 * (points_total - flags_left),
            coords_len_from(data@, 0, points_total as int, 0, 0) == coords_len_from(
                data@,
                pos as int,
                flags_left as int,
                x_coords_len as int,
                y_coords_len as int,
            ),
        decreases flags_left,
    {
        if pos >= len {
            return Err(ReadError::OutOfBounds);
        }
        let flags = SimpleGlyphFlags::from_bits_truncate(data[pos]);
        let ghost fb = flags.spec_bits();
        let repeated: bool = flags.contains(SimpleGlyphFlags::repeat_flag());
        let repeats: u32 = if repeated {
            if pos + 1 >= len {
                return Err(ReadError::OutOfBounds);
            }
            data[pos + 1] as u32 + 1
        } else {
            1
        };
        if repeats > flags_left {
            return Err(ReadError::MalformedData);
        }
        let x_short = SimpleGlyphFlags::x_short_vector();
        let x_long = SimpleGlyphFlags::x_short_vector().union(
            SimpleGlyphFlags::x_is_same_or_positive_x_short_vector(),
        );
        let y_short = SimpleGlyphFlags::y_short_vector();
        let y_long = SimpleGlyphFlags::y_short_vector().union(
            SimpleGlyphFlags::y_is_same_or_positive_y_short_vector(),
        );
        assert(0x02u8 | 0x10u8 == 0x12u8 && 0x04u8 | 0x20u8 == 0x24u8) by (bit_vector);
        let x_one: u32 = if flags.intersection(x_short).bits() != 0 {
            1
        } else {
            0
        };
        let x_two: u32 = if flags.intersection(x_long).bits() == 0 {
            2
        } else {
            0
        };
        let y_one: u32 = if flags.intersection(y_short).bits() != 0 {
            1
        } else {
            0
        };
        let y_two: u32 = if flags.intersection(y_long).bits() == 0 {
            2
        } else {
            0
        };
        proof {
            assert(fb & 0x02 != 0 ==> fb & 0x12 != 0) by (bit_vector);
            assert(fb & 0x04 != 0 ==> fb & 0x24 != 0) by (bit_vector);
            assert(x_one + x_two == coord_len(fb, 0x02, 0x12));
            assert(y_one + y_two == coord_len(fb, 0x04, 0x24));
            assert(repeats * (x_one + x_two) <= 2 * repeats && repeats * (y_one + y_two) <= 2
                * repeats) by (nonlinear_arith)
                requires
                    x_one + x_two <= 2,
                    y_one + y_two <= 2,
            ;
            assert(x_one * repeats + x_two * repeats == repeats * (x_one + x_two) && y_one * repeats
                + y_two * repeats == repeats * (y_one + y_two)) by (nonlinear_arith);
            assert(1 * (x_one + x_two) == x_one + x_two && 1 * (y_one + y_two) == y_one + y_two);
            assert(x_one * repeats >= 0 && x_two * repeats >= 0 && y_one * repeats >= 0 && y_two
                * repeats >= 0) by (nonlinear_arith)
                requires
                    repeats >= 0,
                    x_one >= 0,
                    x_two >= 0,
                    y_one >= 0,
                    y_two >= 0,
            ;
        }
        x_coords_len = x_coords_len + x_one * repeats;
        x_coords_len = x_coords_len + x_two * repeats;
        y_coords_len = y_coords_len + y_one * repeats;
        y_coords_len = y_coords_len + y_two * repeats;
        pos = if repeated {
            pos + 2
        } else {
            pos + 1
        };
        flags_left = flags_left - repeats;
    }
    Ok(FieldLengths { flags: pos as u32, x_coords: x_coords_len, y_coords: y_coords_len })
}

/// Where the reading of the points of a glyph stands.
pub struct PointState {
    /// How many flag bytes have been read.
    pub flags_pos: int,
    /// How many bytes of x coordinates have been read.
    pub x_pos: int,
    /// How many bytes of y coordinates have been read.
    pub y_pos: int,
    /// For how many more points the flags last read stand.
    pub flag_repeats: int,
    /// The flags last read.
    pub cur_flags: u8,
    /// The x coordinate of the point last read.
    pub cur_x: i16,
    /// The y coordinate of the point last read.
    pub cur_y: i16,
}

/// The step to the coordinate of the next point, and where the coordinates
/// are read from after it. A step that does not lie within the bytes is
/// zero, and nothing is read after it.
pub open spec fn delta_at(coords: Seq<u8>, pos: int, flags: u8, short: u8, same: u8) -> (i16, int) {
    if flags & short == short {
        if pos < coords.len() {
            if flags & same == same {
                (coords[pos] as i16, pos + 1)
            } else {
                ((-(coords[pos] as int)) as i16, pos + 1)
            }
        } else {
            (0i16, coords.len() as int)
        }
    } else if flags & same == same {
        (0i16, pos)
    } else if pos + 2 <= coords.len() {
        (be_i16(coords, pos), pos + 2)
    } else {
        (0i16, coords.len() as int)
    }
}

/// The next point, and the state behind it; nothing if a flag byte is due
/// and none is left.
pub open spec fn point_step(st: PointState, flags: Seq<u8>, xs: Seq<u8>, ys: Seq<u8>) -> Option<
    (PointState, CurvePoint),
> {
    if st.flag_repeats == 0 && st.flags_pos >= flags.len() {
        None
    } else {
        let f = if st.flag_repeats == 0 {
            point_flags_at(flags, st.flags_pos)
        } else {
            st.cur_flags
        };
        let repeats = if st.flag_repeats > 0 {
            st.flag_repeats - 1
        } else if f & 0x08 == 0x08 && st.flags_pos + 1 < flags.len() {
            flags[st.flags_pos + 1] as int
        } else {
            0int
        };
        let flags_pos = if st.flag_repeats > 0 {
            st.flags_pos
        } else if f & 0x08 == 0x08 {
            if st.flags_pos + 1 < flags.len() {
                st.flags_pos + 2
            } else {
                flags.len() as int
            }
        } else {
            st.flags_pos + 1
        };
        let dx = delta_at(xs, st.x_pos, f, 0x02, 0x10);
        let dy = delta_at(ys, st.y_pos, f, 0x04, 0x20);
        let x = i16_specs::wrapping_add(st.cur_x, dx.0);
        let y = i16_specs::wrapping_add(st.cur_y, dy.0);
        Some(
            (
                PointState {
                    flags_pos,
                    x_pos: dx.1,
                    y_pos: dy.1,
                    flag_repeats: repeats,
                    cur_flags: f,
                    cur_x: x,
                    cur_y: y,
                },
                CurvePoint { x, y, on_curve: f & 0x01 == 0x01 },
            ),
        )
    }
}

/// The state is one that reading can be in.
pub open spec fn point_state_ok(st: PointState, flags: Seq<u8>) -> bool {
    0 <= st.flags_pos <= flags.len() && 0 <= st.flag_repeats <= 255
}

/// The points that are read from a state on.
pub open spec fn points_from(st: PointState, flags: Seq<u8>, xs: Seq<u8>, ys: Seq<u8>) -> Seq<
    CurvePoint,
>
    decreases flags.len() - st.flags_pos, st.flag_repeats,
{
    if !point_state_ok(st, flags) {
        Seq::empty()
    } else {
        match point_step(st, flags, xs, ys) {
            None => Seq::empty(),
            Some((next, point)) => seq![point] + points_from(next, flags, xs, ys),
        }
    }
}

/// The state before the first point.
pub open spec fn first_point_state() -> PointState {
    PointState {
        flags_pos: 0,
        x_pos: 0,
        y_pos: 0,
        flag_repeats: 0,
        cur_flags: 0,
        cur_x: 0,
        cur_y: 0,
    }
}

/// The points in the point data of a glyph with `n_points` points; none if
/// the data does not hold the flags and coordinates of that many points.
pub open spec fn glyph_points(data: Seq<u8>, n_points: int) -> Seq<CurvePoint> {
    match coords_len_from(data, 0, n_points, 0, 0) {
        Err(_) => Seq::empty(),
        Ok(lens) => if data.len() < lens.flags + lens.x_coords + lens.y_coords {
            Seq::empty()
        } else {
            points_from(
                first_point_state(),
                data.subrange(0, lens.flags as int),
                data.subrange(lens.flags as int, lens.flags + lens.x_coords),
                data.subrange(lens.flags + lens.x_coords, data.len() as int),
            )
        },
    }
}

/// The number of points of the simple glyph with the given bytes: one more
/// than the last point of the last contour.
pub open spec fn num_points_of(bytes: Seq<u8>) -> int {
    if contours_of(bytes) <= 0 {
        0
    } else {
        be_u16(bytes, 10 + 2 * (contours_of(bytes) - 1)) + 1
    }
}

/// The points of the simple glyph with the given bytes.
pub open spec fn simple_glyph_points(bytes: Seq<u8>) -> Seq<CurvePoint> {
    if num_points_of(bytes) == 0 || num_points_of(bytes) > 0xffff {
        Seq::empty()
    } else {
        glyph_points(
            bytes.subrange(crate::glyph::glyph_data_start(bytes), bytes.len() as int),
            num_points_of(bytes),
        )
    }
}

/// Reads the points of a simple glyph one after the other.
pub struct PointIter<'a> {
    flags: &'a [u8],
    flags_pos: usize,
    x_coords: &'a [u8],
    x_pos: usize,
    y_coords: &'a [u8],
    y_pos: usize,
    flag_repeats: u8,
    cur_flags: SimpleGlyphFlags,
    cur_x: i16,
    cur_y: i16,
}

/// Reads the step to the next coordinate.
fn read_delta(
    coords: &[u8],
    pos: usize,
    flags: SimpleGlyphFlags,
    short: SimpleGlyphFlags,
    same: SimpleGlyphFlags,
) -> (r: (i16, usize))
    requires
        pos <= coords@.len(),
    ensures
        r.0 == delta_at(coords@, pos as int, flags.spec_bits(), short.spec_bits(), same.spec_bits()).0,
        r.1 == delta_at(coords@, pos as int, flags.spec_bits(), short.spec_bits(), same.spec_bits()).1,
        r.1 <= coords@.len(),
{
    let len: usize = coords.len();
    let is_short: bool = flags.contains(short);
    let is_same: bool = flags.contains(same);
    if is_short {
        if pos < len {
            let v: i16 = coords[pos] as i16;
            if is_same {
                (v, pos + 1)
            } else {
                (-v, pos + 1)
            }
        } else {
            (0, len)
        }
    } else if is_same {
        (0, pos)
    } else if len - pos >= 2 {
        (i16_of((coords[pos] as u16) * 0x100 + coords[pos + 1] as u16), pos + 2)
    } else {
        (0, len)
    }
}

impl<'a> PointIter<'a> {
    /// The state of the reader, as the model has it.
    pub closed spec fn state(&self) -> PointState {
        PointState {
            flags_pos: self.flags_pos as int,
            x_pos: self.x_pos as int,
            y_pos: self.y_pos as int,
            flag_repeats: self.flag_repeats as int,
            cur_flags: self.cur_flags.spec_bits(),
            cur_x: self.cur_x,
            cur_y: self.cur_y,
        }
    }

    /// The flag bytes that are read.
    pub closed spec fn flag_bytes(&self) -> Seq<u8> {
        self.flags@
    }

    /// The bytes of the x coordinates.
    pub closed spec fn x_bytes(&self) -> Seq<u8> {
        self.x_coords@
    }

    /// The bytes of the y coordinates.
    pub closed spec fn y_bytes(&self) -> Seq<u8> {
        self.y_coords@
    }

    /// The reader stands within its bytes.
    pub closed spec fn wf(&self) -> bool {
        self.flags_pos <= self.flags@.len() && self.x_pos <= self.x_coords@.len() && self.y_pos
            <= self.y_coords@.len()
    }

    /// A reader before the first point.
    pub fn new(flags: &'a [u8], x_coords: &'a [u8], y_coords: &'a [u8]) -> (r: Self)
        ensures
            r.wf(),
            r.state() == first_point_state(),
            r.flag_bytes() == flags@,
            r.x_bytes() == x_coords@,
            r.y_bytes() == y_coords@,
    {
        PointIter {
            flags,
            flags_pos: 0,
            x_coords,
            x_pos: 0,
            y_coords,
            y_pos: 0,
            flag_repeats: 0,
            cur_flags: SimpleGlyphFlags::empty(),
            cur_x: 0,
            cur_y: 0,
        }
    }

    /// The next point, if there is one.
    pub fn next(&mut self) -> (r: Option<CurvePoint>)
        requires
            old(self).wf(),
        ensures
            final(self).wf(),
            final(self).flag_bytes() == old(self).flag_bytes(),
            final(self).x_bytes() == old(self).x_bytes(),
            final(self).y_bytes() == old(self).y_bytes(),
            point_state_ok(old(self).state(), old(self).flag_bytes()),
            match point_step(
                old(self).state(),
                old(self).flag_bytes(),
                old(self).x_bytes(),
                old(self).y_bytes(),
            ) {
                None => r is None && final(self).state() == old(self).state(),
                Some((next, point)) => r == Some(point) && final(self).state() == next,
            },
    {
        // The flags of the point.
        if self.flag_repeats == 0 {
            let len: usize = self.flags.len();
            if self.flags_pos >= len {
                return None;
            }
            self.cur_flags = SimpleGlyphFlags::from_bits_truncate(self.flags[self.flags_pos]);
            if self.cur_flags.contains(SimpleGlyphFlags::repeat_flag()) {
                if self.flags_pos + 1 < len {
                    self.flag_repeats = self.flags[self.flags_pos + 1];
                    self.flags_pos = self.flags_pos + 2;
                } else {
                    self.flags_pos = len;
                }
            } else {
                self.flags_pos = self.flags_pos + 1;
            }
        } else {
            self.flag_repeats = self.flag_repeats - 1;
        }
        // The coordinates of the point.
        let dx = read_delta(
            self.x_coords,
            self.x_pos,
            self.cur_flags,
            SimpleGlyphFlags::x_short_vector(),
            SimpleGlyphFlags::x_is_same_or_positive_x_short_vector(),
        );
        let dy = read_delta(
            self.y_coords,
            self.y_pos,
            self.cur_flags,
            SimpleGlyphFlags::y_short_vector(),
            SimpleGlyphFlags::y_is_same_or_positive_y_short_vector(),
        );
        self.x_pos = dx.1;
        self.y_pos = dy.1;
        self.cur_x = self.cur_x.wrapping_add(dx.0);
        self.cur_y = self.cur_y.wrapping_add(dy.0);
        let is_on_curve: bool = self.cur_flags.contains(SimpleGlyphFlags::on_curve_point());
        Some(CurvePoint::new(self.cur_x, self.cur_y, is_on_curve))
    }
}

impl<'a> SimpleGlyph<'a> {
    /// The number of points of the glyph.
    pub fn num_points(&self) -> (n: usize)
        ensures
            n == num_points_of(self.bytes()),
    {
        let ends = self.end_pts_of_contours();
        if ends.len() == 0 {
            0
        } else {
            ends[ends.len() - 1] as usize + 1
        }
    }

    /// Whether the contours of the glyph may overlap: the first flag byte
    /// says so.
    pub fn has_overlapping_contours(&self) -> (r: bool)
        ensures
            r == {
                let data = self.bytes().subrange(
                    crate::glyph::glyph_data_start(self.bytes()),
                    self.bytes().len() as int,
                );
                data.len() > 0 && point_flags_at(data, 0) & 0x40 == 0x40
            },
    {
        let data = self.glyph_data();
        if data.len() == 0 {
            false
        } else {
            SimpleGlyphFlags::from_bits_truncate(data[0]).contains(
                SimpleGlyphFlags::overlap_simple(),
            )
        }
    }

    /// The points of the glyph. There are none if the data does not hold the
    /// flags and coordinates of as many points as the contours have.
    pub fn points(&self) -> (r: Vec<CurvePoint>)
        ensures
            r@ == simple_glyph_points(self.bytes()),
    {
        let mut r: Vec<CurvePoint> = Vec::new();
        let n: usize = self.num_points();
        if n == 0 || n > 0xffff {
            return r;
        }
        let data = self.glyph_data();
        let lens = match resolve_coords_len(data, n as u16) {
            Ok(lens) => lens,
            Err(_) => {
                return r;
            },
        };
        let flags_len: usize = lens.flags as usize;
        let x_len: usize = lens.x_coords as usize;
        let y_len: usize = lens.y_coords as usize;
        if data.len() - flags_len < x_len || data.len() - flags_len - x_len < y_len {
            return r;
        }
        let flags = vstd::slice::slice_subrange(data, 0, flags_len);
        let x_coords = vstd::slice::slice_subrange(data, flags_len, flags_len + x_len);
        let y_coords = vstd::slice::slice_subrange(data, flags_len + x_len, data.len());
        let mut iter = PointIter::new(flags, x_coords, y_coords);
        let ghost all = points_from(first_point_state(), flags@, x_coords@, y_coords@);
        proof {
            assert(r@ + all =~= all);
        }
        loop
            invariant
                iter.wf(),
                iter.flag_bytes() == flags@,
                iter.x_bytes() == x_coords@,
                iter.y_bytes() == y_coords@,
                r@ + points_from(iter.state(), flags@, x_coords@, y_coords@) == all,
            ensures
                r@ == all,
            decreases flags@.len() - iter.state().flags_pos, iter.state().flag_repeats,
        {
            let ghost before = r@;
            let ghost st = iter.state();
            match iter.next() {
                None => {
                    proof {
                        assert(before + Seq::<CurvePoint>::empty() =~= before);
                    }
                    break ;
                },
                Some(point) => {
                    r.push(point);
                    proof {
                        let rest = points_from(iter.state(), flags@, x_coords@, y_coords@);
                        assert(before + (seq![point] + rest) =~= before.push(point) + rest);
                    }
                },
            }
        }
        r
    }
}

/// The flag bytes of the points from number `i` on, one for each point, read
/// from `pos` on; and where the flags end. A flag byte that repeats stands
/// for as many points as it says, but for no more than are left. Nothing if
/// the data ends before the flags do.
pub open spec fn fast_flags_from(data: Seq<u8>, pos: int, left: int) -> Option<(Seq<u8>, int)>
    decreases left,
{
    if left <= 0 {
        Some((Seq::empty(), pos))
    } else if pos < 0 || pos >= data.len() {
        None
    } else {
        let f = point_flags_at(data, pos);
        if f & 0x08 == 0x08 {
            if pos + 1 >= data.len() {
                None
            } else {
                let count = if data[pos + 1] + 1 <= left {
                    data[pos + 1] + 1
                } else {
                    left
                };
                match fast_flags_from(data, pos + 2, left - count) {
                    None => None,
                    Some((rest, end)) => Some((Seq::new(count as nat, |k: int| f) + rest, end)),
                }
            }
        } else {
            match fast_flags_from(data, pos + 1, left - 1) {
                None => None,
                Some((rest, end)) => Some((seq![f] + rest, end)),
            }
        }
    }
}

/// The step to a coordinate that is read at `pos`, and where reading goes
/// on. Nothing if the step does not lie within the data.
pub open spec fn fast_delta(data: Seq<u8>, pos: int, flags: u8, short: u8, same: u8) -> Option<
    (int, int),
> {
    let f = flags & SimpleGlyphFlags::ALL_BITS;
    if f & short == short {
        if 0 <= pos < data.len() {
            if f & same == same {
                Some((data[pos] as int, pos + 1))
            } else {
                Some((-(data[pos] as int), pos + 1))
            }
        } else {
            None
        }
    } else if f & same == same {
        Some((0int, pos))
    } else if 0 <= pos && pos + 2 <= data.len() {
        Some((be_i16(data, pos) as int, pos + 2))
    } else {
        None
    }
}

/// The coordinates of the points from number `i` on, read from `pos` on, the
/// coordinate before being `cur`; and where the coordinates end.
pub open spec fn fast_coords_from(
    data: Seq<u8>,
    pos: int,
    flags: Seq<u8>,
    i: int,
    short: u8,
    same: u8,
    cur: i32,
) -> Option<(Seq<i32>, int)>
    decreases flags.len() - i,
{
    if i < 0 || i >= flags.len() {
        Some((Seq::empty(), pos))
    } else {
        match fast_delta(data, pos, flags[i], short, same) {
            None => None,
            Some((delta, next)) => {
                let v = i32_specs::wrapping_add(cur, delta as i32);
                match fast_coords_from(data, next, flags, i + 1, short, same, v) {
                    None => None,
                    Some((rest, end)) => Some((seq![v] + rest, end)),
                }
            },
        }
    }
}

/// The points and their flags in the point data of a glyph with `n`
/// points, read run by run: all flags, then all x coordinates, then all y
/// coordinates.
pub open spec fn fast_points(data: Seq<u8>, n: int) -> Option<(Seq<Point>, Seq<u8>)> {
    match fast_flags_from(data, 0, n) {
        None => None,
        Some((flags, flags_end)) => match fast_coords_from(data, flags_end, flags, 0, 0x02, 0x10, 0) {
            None => None,
            Some((xs, xs_end)) => match fast_coords_from(data, xs_end, flags, 0, 0x04, 0x20, 0) {
                None => None,
                Some((ys, ys_end)) => Some(
                    (Seq::new(n as nat, |k: int| Point { x: xs[k], y: ys[k] }), flags),
                ),
            },
        },
    }
}

/// The flags hold as many bytes as points are asked for, and the flag bytes
/// end within the data.
pub proof fn lemma_fast_flags_len(data: Seq<u8>, pos: int, left: int)
    requires
        0 <= left,
        0 <= pos <= data.len(),
    ensures
        match fast_flags_from(data, pos, left) {
            None => true,
            Some((flags, end)) => flags.len() == left && pos <= end <= data.len(),
        },
    decreases left,
{
    if left > 0 && pos < data.len() {
        let f = point_flags_at(data, pos);
        if f & 0x08 == 0x08 {
            if pos + 1 < data.len() {
                let count = if data[pos + 1] + 1 <= left {
                    data[pos + 1] + 1
                } else {
                    left
                };
                lemma_fast_flags_len(data, pos + 2, left - count);
            }
        } else {
            lemma_fast_flags_len(data, pos + 1, left - 1);
        }
    }
}

/// There are as many coordinates as flags from `i` on.
pub proof fn lemma_fast_coords_len(
    data: Seq<u8>,
    pos: int,
    flags: Seq<u8>,
    i: int,
    short: u8,
    same: u8,
    cur: i32,
)
    requires
        0 <= i <= flags.len(),
        0 <= pos <= data.len(),
    ensures
        match fast_coords_from(data, pos, flags, i, short, same, cur) {
            None => true,
            Some((coords, end)) => coords.len() == flags.len() - i && pos <= end <= data.len(),
        },
    decreases flags.len() - i,
{
    if i < flags.len() {
        match fast_delta(data, pos, flags[i], short, same) {
            None => {},
            Some((delta, next)) => {
                let v = i32_specs::wrapping_add(cur, delta as i32);
                lemma_fast_coords_len(data, next, flags, i + 1, short, same, v);
            },
        }
    }
}

/// The point data of the simple glyph with the given bytes.
pub open spec fn glyph_point_data(bytes: Seq<u8>) -> Seq<u8> {
    bytes.subrange(crate::glyph::glyph_data_start(bytes), bytes.len() as int)
}

/// What reading the points run by run leaves behind: an error and the lists
/// as they were if a list has not the length `n`; an error if the data ends
/// too early; else the points and the kinds of the points.
pub open spec fn read_fast_result(
    data: Seq<u8>,
    n: int,
    points_before: Seq<Point>,
    flags_before: Seq<PointFlags>,
    points_after: Seq<Point>,
    flags_after: Seq<PointFlags>,
    r: Result<(), ReadError>,
) -> bool {
    if points_before.len() != n || flags_before.len() != n {
        r == Err::<(), ReadError>(ReadError::InvalidArrayLen) && points_after == points_before
            && flags_after == flags_before
    } else {
        match fast_points(data, n) {
            None => r == Err::<(), ReadError>(ReadError::OutOfBounds) && points_after.len() == n
                && flags_after.len() == n,
            Some((found, raw)) => {
                &&& r is Ok
                &&& points_after == found
                &&& flags_after.len() == n
                &&& forall|k: int|
                    0 <= k < n ==> (#[trigger] flags_after[k]).spec_bits() == raw[k]
                        & PointFlags::CURVE_MASK
            },
        }
    }
}

/// Reads the coordinates of all points in one direction.
fn read_coords_fast(
    data: &[u8],
    start: usize,
    raw: &Vec<u8>,
    short: SimpleGlyphFlags,
    same: SimpleGlyphFlags,
) -> (r: Option<(Vec<i32>, usize)>)
    requires
        start <= data@.len(),
    ensures
        match fast_coords_from(data@, start as int, raw@, 0, short.spec_bits(), same.spec_bits(), 0) {
            None => r is None,
            Some((coords, end)) => r is Some && r->Some_0.0@ == coords && r->Some_0.1 == end && end
                <= data@.len(),
        },
{
    let len: usize = data.len();
    let n: usize = raw.len();
    let mut out: Vec<i32> = Vec::new();
    let mut pos: usize = start;
    let mut cur: i32 = 0;
    let mut i: usize = 0;
    let ghost all = fast_coords_from(
        data@,
        start as int,
        raw@,
        0,
        short.spec_bits(),
        same.spec_bits(),
        0,
    );
    proof {
        match all {
            None => {},
            Some((coords, end)) => {
                assert(out@ + coords =~= coords);
            },
        }
    }
    while i < n
        invariant
            len == data@.len(),
            n == raw@.len(),
            i <= n,
            pos <= len,
            out@.len() == i,
            all == fast_coords_from(
                data@,
                start as int,
                raw@,
                0,
                short.spec_bits(),
                same.spec_bits(),
                0,
            ),
            match fast_coords_from(
                data@,
                pos as int,
                raw@,
                i as int,
                short.spec_bits(),
                same.spec_bits(),
                cur,
            ) {
                None => all is None,
                Some((rest, end)) => all == Some((out@ + rest, end)),
            },
        decreases n - i,
    {
        let flag = SimpleGlyphFlags::from_bits_truncate(raw[i]);
        let mut delta: i32 = 0;
        let ghost before = out@;
        if flag.contains(short) {
            if pos >= len {
                proof {
                    assert(fast_delta(
                        data@,
                        pos as int,
                        raw@[i as int],
                        short.spec_bits(),
                        same.spec_bits(),
                    ) is None);
                    assert(fast_coords_from(
                        data@,
                        pos as int,
                        raw@,
                        i as int,
                        short.spec_bits(),
                        same.spec_bits(),
                        cur,
                    ) is None);
                }
                return None;
            }
            delta = data[pos] as i32;
            pos = pos + 1;
            if !flag.contains(same) {
                delta = -delta;
            }
        } else if !flag.contains(same) {
            if len - pos < 2 {
                proof {
                    assert(fast_delta(
                        data@,
                        pos as int,
                        raw@[i as int],
                        short.spec_bits(),
                        same.spec_bits(),
                    ) is None);
                    assert(fast_coords_from(
                        data@,
                        pos as int,
                        raw@,
                        i as int,
                        short.spec_bits(),
                        same.spec_bits(),
                        cur,
                    ) is None);
                }
                return None;
            }
            delta = i16_of((data[pos] as u16) * 0x100 + data[pos + 1] as u16) as i32;
            pos = pos + 2;
        }
        cur = cur.wrapping_add(delta);
        out.push(cur);
        i = i + 1;
        proof {
            match fast_coords_from(
                data@,
                pos as int,
                raw@,
                i as int,
                short.spec_bits(),
                same.spec_bits(),
                cur,
            ) {
                None => {},
                Some((rest, end)) => {
                    assert(before + (seq![cur] + rest) =~= before.push(cur) + rest);
                },
            }
        }
    }
    proof {
        assert(out@ + Seq::<i32>::empty() =~= out@);
        lemma_fast_coords_len(data@, start as int, raw@, 0, short.spec_bits(), same.spec_bits(), 0);
    }
    Some((out, pos))
}

impl<'a> SimpleGlyph<'a> {
    /// Reads the points and their flags into the given lists, which have to
    /// be as long as the glyph has points. Of the flags only the kind of
    /// point is kept.
    ///
    /// This reads the data run by run and needs no second pass to find the
    /// lengths of the runs.
    pub fn read_points_fast(&self, points: &mut Vec<Point>, flags: &mut Vec<PointFlags>) -> (r: Result<
        (),
        ReadError,
    >)
        ensures
            read_fast_result(
                glyph_point_data(self.bytes()),
                num_points_of(self.bytes()),
                old(points)@,
                old(flags)@,
                final(points)@,
                final(flags)@,
                r,
            ),
    {
        let n_points: usize = self.num_points();
        if points.len() != n_points || flags.len() != n_points {
            return Err(ReadError::InvalidArrayLen);
        }
        let data = self.glyph_data();
        let len: usize = data.len();
        let ghost all = fast_flags_from(data@, 0, n_points as int);
        // The flags, one for each point.
        let mut raw: Vec<u8> = Vec::new();
        let mut pos: usize = 0;
        let mut i: usize = 0;
        proof {
            match all {
                None => {},
                Some((fl, end)) => {
                    assert(raw@ + fl =~= fl);
                },
            }
        }
        while i < n_points
            invariant
                len == data@.len(),
                i <= n_points,
                pos <= len,
                raw@.len() == i,
                points@.len() == n_points,
                flags@.len() == n_points,
                n_points == num_points_of(self.bytes()),
                data@ == glyph_point_data(self.bytes()),
                all == fast_flags_from(data@, 0, n_points as int),
                match fast_flags_from(data@, pos as int, n_points - i) {
                    None => all is None,
                    Some((rest, end)) => all == Some((raw@ + rest, end)),
                },
            decreases n_points - i,
        {
            if pos >= len {
                proof {
                    assert(fast_flags_from(data@, pos as int, n_points - i) is None);
                }
                return Err(ReadError::OutOfBounds);
            }
            let flag = SimpleGlyphFlags::from_bits_truncate(data[pos]);
            let flag_bits: u8 = flag.bits();
            let ghost before = raw@;
            if flag.contains(SimpleGlyphFlags::repeat_flag()) {
                if pos + 1 >= len {
                    proof {
                        assert(fast_flags_from(data@, pos as int, n_points - i) is None);
                    }
                    return Err(ReadError::OutOfBounds);
                }
                let asked: usize = data[pos + 1] as usize + 1;
                let count: usize = if asked <= n_points - i {
                    asked
                } else {
                    n_points - i
                };
                let mut k: usize = 0;
                while k < count
                    invariant
                        k <= count,
                        raw@ == before + Seq::new(k as nat, |j: int| flag_bits),
                    decreases count - k,
                {
                    raw.push(flag_bits);
                    k = k + 1;
                    assert(raw@ =~= before + Seq::new(k as nat, |j: int| flag_bits));
                }
                pos = pos + 2;
                i = i + count;
                proof {
                    match fast_flags_from(data@, pos as int, n_points - i) {
                        None => {},
                        Some((rest, end)) => {
                            let run = Seq::new(count as nat, |j: int| flag_bits);
                            assert(before + (run + rest) =~= (before + run) + rest);
                        },
                    }
                }
            } else {
                raw.push(flag_bits);
                pos = pos + 1;
                i = i + 1;
                proof {
                    match fast_flags_from(data@, pos as int, n_points - i) {
                        None => {},
                        Some((rest, end)) => {
                            assert(before + (seq![flag_bits] + rest) =~= before.push(flag_bits)
                                + rest);
                        },
                    }
                }
            }
        }
        proof {
            assert(raw@ + Seq::<u8>::empty() =~= raw@);
            lemma_fast_flags_len(data@, 0, n_points as int);
        }
        // The coordinates, first all x, then all y.
        let (xs, xs_end) = match read_coords_fast(
            data,
            pos,
            &raw,
            SimpleGlyphFlags::x_short_vector(),
            SimpleGlyphFlags::x_is_same_or_positive_x_short_vector(),
        ) {
            None => {
                return Err(ReadError::OutOfBounds);
            },
            Some(found) => found,
        };
        let (ys, ys_end) = match read_coords_fast(
            data,
            xs_end,
            &raw,
            SimpleGlyphFlags::y_short_vector(),
            SimpleGlyphFlags::y_is_same_or_positive_y_short_vector(),
        ) {
            None => {
                return Err(ReadError::OutOfBounds);
            },
            Some(found) => found,
        };
        proof {
            lemma_fast_coords_len(data@, pos as int, raw@, 0, 0x02, 0x10, 0);
            lemma_fast_coords_len(data@, xs_end as int, raw@, 0, 0x04, 0x20, 0);
        }
        let mut k: usize = 0;
        while k < n_points
            invariant
                k <= n_points,
                points@.len() == n_points,
                flags@.len() == n_points,
                xs@.len() == n_points,
                ys@.len() == n_points,
                raw@.len() == n_points,
                forall|j: int| 0 <= j < k ==> #[trigger] points@[j] == (Point { x: xs@[j], y: ys@[j] }),
                forall|j: int|
                    0 <= j < k ==> (#[trigger] flags@[j]).spec_bits() == raw@[j]
                        & PointFlags::CURVE_MASK,
            decreases n_points - k,
        {
            points.set(k, Point::new(xs[k], ys[k]));
            flags.set(k, PointFlags::from_bits(raw[k]));
            k = k + 1;
        }
        proof {
            assert(points@ =~= Seq::new(n_points as nat, |j: int| Point { x: xs@[j], y: ys@[j] }));
        }
        Ok(())
    }
}

} // verus!
