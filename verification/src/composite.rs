//! The components of a composite glyph, read from its bytes.
//!
//! A component is a flag word, a glyph number, two arguments that are an
//! offset or a pair of point numbers, and a transformation of zero, one, two
//! or four numbers. The flag word of each component says how wide the
//! arguments are, which transformation follows, and whether another
//! component comes behind it.

use crate::composite_glyph_flags::CompositeGlyphFlags;
use crate::font_data::{as_i8, be_i16, be_u16, i8_of, FontData};
use crate::glyf::{Anchor, Component, Transform};
use crate::glyph::CompositeGlyph;
use crate::scalars::{F2Dot14, GlyphId16};
use vstd::prelude::*;

verus! {

/// Whether the flag word has the bits of `bit`.
pub open spec fn flag_set(flags: CompositeGlyphFlags, bit: u16) -> bool {
    flags.spec_bits() & bit == bit
}

/// The flags of the component at `pos`.
pub open spec fn flags_at(bytes: Seq<u8>, pos: int) -> CompositeGlyphFlags {
    CompositeGlyphFlags::with_bits(be_u16(bytes, pos) & CompositeGlyphFlags::ALL_BITS)
}

/// The number of bytes of the two arguments of a component.
pub open spec fn args_len(flags: CompositeGlyphFlags) -> int {
    if flag_set(flags, 0x0001) {
        4
    } else {
        2
    }
}

/// The number of bytes of the transformation of a component.
pub open spec fn transform_len(flags: CompositeGlyphFlags) -> int {
    if flag_set(flags, 0x0008) {
        2
    } else if flag_set(flags, 0x0040) {
        4
    } else if flag_set(flags, 0x0080) {
        8
    } else {
        0
    }
}

/// The number of bytes of a component.
pub open spec fn component_len(flags: CompositeGlyphFlags) -> int {
    4 + args_len(flags) + transform_len(flags)
}

/// The anchor of the component at `pos`.
pub open spec fn anchor_at(bytes: Seq<u8>, pos: int, flags: CompositeGlyphFlags) -> Anchor {
    if flag_set(flags, 0x0002) {
        if flag_set(flags, 0x0001) {
            Anchor::Offset { x: be_i16(bytes, pos + 4), y: be_i16(bytes, pos + 6) }
        } else {
            Anchor::Offset { x: as_i8(bytes[pos + 4]) as i16, y: as_i8(bytes[pos + 5]) as i16 }
        }
    } else {
        if flag_set(flags, 0x0001) {
            Anchor::Point { base: be_u16(bytes, pos + 4), component: be_u16(bytes, pos + 6) }
        } else {
            Anchor::Point { base: bytes[pos + 4] as u16, component: bytes[pos + 5] as u16 }
        }
    }
}

/// The fixed-point number at `at`.
pub open spec fn f2dot14_at(bytes: Seq<u8>, at: int) -> F2Dot14 {
    F2Dot14 { bits: be_i16(bytes, at) }
}

/// The transformation of the component at `pos`.
pub open spec fn transform_at(bytes: Seq<u8>, pos: int, flags: CompositeGlyphFlags) -> Transform {
    let at = pos + 4 + args_len(flags);
    let one = F2Dot14 { bits: F2Dot14::ONE_BITS };
    let zero = F2Dot14 { bits: 0 };
    if flag_set(flags, 0x0008) {
        Transform { xx: f2dot14_at(bytes, at), yx: zero, xy: zero, yy: f2dot14_at(bytes, at) }
    } else if flag_set(flags, 0x0040) {
        Transform { xx: f2dot14_at(bytes, at), yx: zero, xy: zero, yy: f2dot14_at(bytes, at + 2) }
    } else if flag_set(flags, 0x0080) {
        Transform {
            xx: f2dot14_at(bytes, at),
            yx: f2dot14_at(bytes, at + 2),
            xy: f2dot14_at(bytes, at + 4),
            yy: f2dot14_at(bytes, at + 6),
        }
    } else {
        Transform { xx: one, yx: zero, xy: zero, yy: one }
    }
}

/// The component at `pos`.
pub open spec fn component_at(bytes: Seq<u8>, pos: int) -> Component {
    let flags = flags_at(bytes, pos);
    Component {
        flags,
        glyph: GlyphId16 { id: be_u16(bytes, pos + 2) },
        anchor: anchor_at(bytes, pos, flags),
        transform: transform_at(bytes, pos, flags),
    }
}

/// Whether the component at `pos` lies within the bytes.
pub open spec fn component_fits(bytes: Seq<u8>, pos: int) -> bool {
    0 <= pos && pos + 2 <= bytes.len() && pos + component_len(flags_at(bytes, pos)) <= bytes.len()
}

/// The components from `pos` on: they end behind the first that does not
/// announce another, or before the first that does not lie within the bytes.
pub open spec fn components_from(bytes: Seq<u8>, pos: int) -> Seq<Component>
    decreases bytes.len() - pos,
{
    if !component_fits(bytes, pos) {
        Seq::empty()
    } else if flag_set(flags_at(bytes, pos), 0x0020) {
        seq![component_at(bytes, pos)] + components_from(
            bytes,
            pos + component_len(flags_at(bytes, pos)),
        )
    } else {
        seq![component_at(bytes, pos)]
    }
}

/// The glyph numbers and flags of the components from `pos` on. Only the
/// flag word and the glyph number of a component have to lie within the
/// bytes.
pub open spec fn glyphs_and_flags_from(bytes: Seq<u8>, pos: int) -> Seq<
    (GlyphId16, CompositeGlyphFlags),
>
    decreases bytes.len() - pos,
{
    if pos < 0 || pos + 4 > bytes.len() {
        Seq::empty()
    } else if flag_set(flags_at(bytes, pos), 0x0020) && pos + component_len(flags_at(bytes, pos))
        <= bytes.len() {
        seq![(GlyphId16 { id: be_u16(bytes, pos + 2) }, flags_at(bytes, pos))]
            + glyphs_and_flags_from(bytes, pos + component_len(flags_at(bytes, pos)))
    } else {
        seq![(GlyphId16 { id: be_u16(bytes, pos + 2) }, flags_at(bytes, pos))]
    }
}

/// Where the components end, and the flags of the last of them: behind the
/// first component from `pos` on that does not announce another. Nothing if
/// the bytes end before.
pub open spec fn components_end(bytes: Seq<u8>, pos: int) -> Option<(int, CompositeGlyphFlags)>
    decreases bytes.len() - pos,
{
    if pos < 0 || pos + 4 > bytes.len() {
        None
    } else if flag_set(flags_at(bytes, pos), 0x0020) {
        if pos + component_len(flags_at(bytes, pos)) <= bytes.len() {
            components_end(bytes, pos + component_len(flags_at(bytes, pos)))
        } else {
            None
        }
    } else {
        Some((pos + component_len(flags_at(bytes, pos)), flags_at(bytes, pos)))
    }
}

/// The instructions of a composite glyph with the given component bytes:
/// they follow the last component if its flags say so, as a length and as
/// many bytes.
pub open spec fn composite_instructions(bytes: Seq<u8>) -> Option<Seq<u8>> {
    match components_end(bytes, 0) {
        None => None,
        Some((end, flags)) => if flag_set(flags, 0x0100) && end + 2 <= bytes.len() && end + 2 + be_u16(
            bytes,
            end,
        ) <= bytes.len() {
            Some(bytes.subrange(end + 2, end + 2 + be_u16(bytes, end)))
        } else {
            None
        },
    }
}

/// The flags with the given bits are the flags at that place.
pub proof fn lemma_flags_at(bytes: Seq<u8>, pos: int, flags: CompositeGlyphFlags)
    requires
        flags.spec_bits() == be_u16(bytes, pos) & CompositeGlyphFlags::ALL_BITS,
    ensures
        flags_at(bytes, pos) == flags,
{
    flags.lemma_bits();
}

/// Reads the components of a composite glyph one after the other.
pub struct ComponentIter<'a> {
    pub cur_flags: CompositeGlyphFlags,
    pub done: bool,
    pub data: FontData<'a>,
    pub pos: usize,
}

impl<'a> ComponentIter<'a> {
    /// A reader at the first component of the given bytes.
    pub fn new(data: FontData<'a>) -> (r: Self)
        ensures
            r.data@ == data@,
            r.pos == 0,
            !r.done,
    {
        ComponentIter { cur_flags: CompositeGlyphFlags::empty(), done: false, data, pos: 0 }
    }

    /// The next component, if there is one and it lies within the bytes.
    pub fn next(&mut self) -> (r: Option<Component>)
        requires
            old(self).pos <= old(self).data@.len(),
        ensures
            final(self).data@ == old(self).data@,
            final(self).pos <= final(self).data@.len(),
            match r {
                Some(c) => {
                    &&& !old(self).done
                    &&& component_fits(old(self).data@, old(self).pos as int)
                    &&& c == component_at(old(self).data@, old(self).pos as int)
                    &&& final(self).pos == old(self).pos + component_len(c.flags)
                    &&& final(self).done == !flag_set(c.flags, 0x0020)
                    &&& final(self).cur_flags == c.flags
                },
                None => {
                    &&& old(self).done || !component_fits(old(self).data@, old(self).pos as int)
                    &&& *final(self) == *old(self)
                },
            },
    {
        if self.done {
            return None;
        }
        let len: usize = self.data.len();
        let pos: usize = self.pos;
        if len - pos < 4 {
            proof {
                if pos + 2 <= len {
                    let f = flags_at(self.data@, pos as int);
                    assert(component_len(f) >= 6);
                }
            }
            return None;
        }
        let flags = CompositeGlyphFlags::from_bits_truncate(self.data.u16_at(pos));
        proof {
            lemma_flags_at(self.data@, pos as int, flags);
        }
        let glyph = GlyphId16::new(self.data.u16_at(pos + 2));
        let args_are_words = flags.contains(CompositeGlyphFlags::arg_1_and_2_are_words());
        let args_are_xy_values = flags.contains(CompositeGlyphFlags::args_are_xy_values());
        let args: usize = if args_are_words {
            4
        } else {
            2
        };
        let scale: usize = if flags.contains(CompositeGlyphFlags::we_have_a_scale()) {
            2
        } else if flags.contains(CompositeGlyphFlags::we_have_an_x_and_y_scale()) {
            4
        } else if flags.contains(CompositeGlyphFlags::we_have_a_two_by_two()) {
            8
        } else {
            0
        };
        if len - pos < 4 + args + scale {
            return None;
        }
        let anchor = if args_are_xy_values {
            if args_are_words {
                Anchor::Offset { x: self.data.i16_at(pos + 4), y: self.data.i16_at(pos + 6) }
            } else {
                Anchor::Offset {
                    x: i8_of(self.data.as_bytes()[pos + 4]) as i16,
                    y: i8_of(self.data.as_bytes()[pos + 5]) as i16,
                }
            }
        } else {
            if args_are_words {
                Anchor::Point {
                    base: self.data.u16_at(pos + 4),
                    component: self.data.u16_at(pos + 6),
                }
            } else {
                Anchor::Point {
                    base: self.data.as_bytes()[pos + 4] as u16,
                    component: self.data.as_bytes()[pos + 5] as u16,
                }
            }
        };
        let at: usize = pos + 4 + args;
        let mut transform = Transform::default();
        if flags.contains(CompositeGlyphFlags::we_have_a_scale()) {
            transform.xx = F2Dot14::from_bits(self.data.i16_at(at));
            transform.yy = transform.xx;
        } else if flags.contains(CompositeGlyphFlags::we_have_an_x_and_y_scale()) {
            transform.xx = F2Dot14::from_bits(self.data.i16_at(at));
            transform.yy = F2Dot14::from_bits(self.data.i16_at(at + 2));
        } else if flags.contains(CompositeGlyphFlags::we_have_a_two_by_two()) {
            transform.xx = F2Dot14::from_bits(self.data.i16_at(at));
            transform.yx = F2Dot14::from_bits(self.data.i16_at(at + 2));
            transform.xy = F2Dot14::from_bits(self.data.i16_at(at + 4));
            transform.yy = F2Dot14::from_bits(self.data.i16_at(at + 6));
        }
        self.cur_flags = flags;
        self.pos = pos + 4 + args + scale;
        self.done = !flags.contains(CompositeGlyphFlags::more_components());
        Some(Component { flags, glyph, anchor, transform })
    }
}

/// Reads the glyph numbers and the flags of the components of a composite
/// glyph one after the other, and steps over the rest of each component.
pub struct ComponentGlyphIdFlagsIter<'a> {
    pub cur_flags: CompositeGlyphFlags,
    pub done: bool,
    pub data: FontData<'a>,
    pub pos: usize,
}

impl<'a> ComponentGlyphIdFlagsIter<'a> {
    /// A reader at the first component of the given bytes.
    pub fn new(data: FontData<'a>) -> (r: Self)
        ensures
            r.data@ == data@,
            r.pos == 0,
            !r.done,
    {
        ComponentGlyphIdFlagsIter {
            cur_flags: CompositeGlyphFlags::empty(),
            done: false,
            data,
            pos: 0,
        }
    }

    /// The glyph number and the flags of the next component, if there is
    /// one whose flags and glyph number lie within the bytes. The reader
    /// then stands behind that component, or at the end of the bytes if the
    /// component reaches beyond it.
    pub fn next(&mut self) -> (r: Option<(GlyphId16, CompositeGlyphFlags)>)
        requires
            old(self).pos <= old(self).data@.len(),
        ensures
            final(self).data@ == old(self).data@,
            final(self).pos <= final(self).data@.len(),
            match r {
                Some((glyph, flags)) => {
                    let end = old(self).pos + component_len(flags);
                    &&& !old(self).done
                    &&& old(self).pos + 4 <= old(self).data@.len()
                    &&& flags == flags_at(old(self).data@, old(self).pos as int)
                    &&& glyph.id == be_u16(old(self).data@, old(self).pos + 2)
                    &&& final(self).pos == if end <= old(self).data@.len() {
                        end
                    } else {
                        old(self).data@.len() as int
                    }
                    &&& final(self).done == !flag_set(flags, 0x0020)
                    &&& final(self).cur_flags == flags
                },
                None => {
                    &&& old(self).done || old(self).pos + 4 > old(self).data@.len()
                    &&& *final(self) == *old(self)
                },
            },
    {
        if self.done {
            return None;
        }
        let len: usize = self.data.len();
        let pos: usize = self.pos;
        if len - pos < 4 {
            return None;
        }
        let flags = CompositeGlyphFlags::from_bits_truncate(self.data.u16_at(pos));
        proof {
            lemma_flags_at(self.data@, pos as int, flags);
        }
        let glyph = GlyphId16::new(self.data.u16_at(pos + 2));
        let args: usize = if flags.contains(CompositeGlyphFlags::arg_1_and_2_are_words()) {
            4
        } else {
            2
        };
        let scale: usize = if flags.contains(CompositeGlyphFlags::we_have_a_scale()) {
            2
        } else if flags.contains(CompositeGlyphFlags::we_have_an_x_and_y_scale()) {
            4
        } else if flags.contains(CompositeGlyphFlags::we_have_a_two_by_two()) {
            8
        } else {
            0
        };
        self.cur_flags = flags;
        self.pos = if len - pos < 4 + args + scale {
            len
        } else {
            pos + 4 + args + scale
        };
        self.done = !flags.contains(CompositeGlyphFlags::more_components());
        Some((glyph, flags))
    }
}

/// The bytes of the components of a composite glyph with the given bytes.
pub open spec fn component_bytes(bytes: Seq<u8>) -> Seq<u8> {
    bytes.subrange(10, bytes.len() as int)
}

impl<'a> CompositeGlyph<'a> {
    /// The components of the glyph.
    pub fn components(&self) -> (r: Vec<Component>)
        ensures
            r@ == components_from(component_bytes(self.bytes()), 0),
    {
        let data = FontData::new(self.component_data());
        let ghost bytes = data@;
        let mut iter = ComponentIter::new(data);
        let mut r: Vec<Component> = Vec::new();
        proof {
            assert(r@ + components_from(bytes, 0) =~= components_from(bytes, 0));
        }
        loop
            invariant
                iter.data@ == bytes,
                bytes == component_bytes(self.bytes()),
                iter.pos <= bytes.len(),
                iter.done ==> r@ == components_from(bytes, 0),
                !iter.done ==> r@ + components_from(bytes, iter.pos as int) == components_from(
                    bytes,
                    0,
                ),
            ensures
                r@ == components_from(bytes, 0),
            decreases
                    (if iter.done {
                        0int
                    } else {
                        1int
                    }),
                    bytes.len() - iter.pos,
        {
            let ghost before = r@;
            let ghost pos = iter.pos as int;
            match iter.next() {
                None => {
                    proof {
                        if !iter.done {
                            assert(before + Seq::<Component>::empty() =~= before);
                        }
                    }
                    break ;
                },
                Some(c) => {
                    r.push(c);
                    proof {
                        let rest = components_from(bytes, pos + component_len(c.flags));
                        if flag_set(c.flags, 0x0020) {
                            assert(before + (seq![c] + rest) =~= before.push(c) + rest);
                        } else {
                            assert(before + seq![c] =~= before.push(c));
                        }
                    }
                },
            }
        }
        r
    }

    /// The glyph number and the flags of each component of the glyph.
    pub fn component_glyphs_and_flags(&self) -> (r: Vec<(GlyphId16, CompositeGlyphFlags)>)
        ensures
            r@ == glyphs_and_flags_from(component_bytes(self.bytes()), 0),
    {
        let data = FontData::new(self.component_data());
        let ghost bytes = data@;
        let mut iter = ComponentGlyphIdFlagsIter::new(data);
        let mut r: Vec<(GlyphId16, CompositeGlyphFlags)> = Vec::new();
        proof {
            assert(r@ + glyphs_and_flags_from(bytes, 0) =~= glyphs_and_flags_from(bytes, 0));
        }
        loop
            invariant
                iter.data@ == bytes,
                bytes == component_bytes(self.bytes()),
                iter.pos <= bytes.len(),
                iter.done ==> r@ == glyphs_and_flags_from(bytes, 0),
                !iter.done ==> r@ + glyphs_and_flags_from(bytes, iter.pos as int)
                    == glyphs_and_flags_from(bytes, 0),
            ensures
                r@ == glyphs_and_flags_from(bytes, 0),
            decreases
                    (if iter.done {
                        0int
                    } else {
                        1int
                    }),
                    bytes.len() - iter.pos,
        {
            let ghost before = r@;
            let ghost pos = iter.pos as int;
            match iter.next() {
                None => {
                    proof {
                        if !iter.done {
                            assert(before + Seq::<(GlyphId16, CompositeGlyphFlags)>::empty()
                                =~= before);
                        }
                    }
                    break ;
                },
                Some(item) => {
                    r.push(item);
                    proof {
                        let end = pos + component_len(item.1);
                        let g = GlyphId16 { id: be_u16(bytes, pos + 2) };
                        assert(item.0 == g);
                        assert(item == (g, item.1));
                        if flag_set(item.1, 0x0020) && end <= bytes.len() {
                            let rest = glyphs_and_flags_from(bytes, end);
                            assert(before + (seq![item] + rest) =~= before.push(item) + rest);
                        } else {
                            assert(before + seq![item] =~= before.push(item));
                            if flag_set(item.1, 0x0020) {
                                assert(glyphs_and_flags_from(bytes, bytes.len() as int) =~= Seq::<
                                    (GlyphId16, CompositeGlyphFlags),
                                >::empty());
                                assert(before.push(item) + glyphs_and_flags_from(
                                    bytes,
                                    bytes.len() as int,
                                ) =~= before.push(item));
                            }
                        }
                    }
                },
            }
        }
        r
    }

    /// The number of components of the glyph, and its instructions, found in
    /// one pass.
    pub fn count_and_instructions(&self) -> (r: (usize, Option<&'a [u8]>))
        ensures
            r.0 == glyphs_and_flags_from(component_bytes(self.bytes()), 0).len(),
            match r.1 {
                Some(instructions) => composite_instructions(component_bytes(self.bytes()))
                    == Some(instructions@),
                None => composite_instructions(component_bytes(self.bytes())) is None,
            },
    {
        let data = FontData::new(self.component_data());
        let ghost bytes = data@;
        let len: usize = data.len();
        let mut iter = ComponentGlyphIdFlagsIter::new(data);
        let mut count: usize = 0;
        let ghost mut end: int = 0;
        loop
            invariant
                iter.data@ == bytes,
                data@ == bytes,
                len == bytes.len(),
                bytes == component_bytes(self.bytes()),
                iter.pos <= bytes.len(),
                count <= iter.pos,
                iter.done ==> count == glyphs_and_flags_from(bytes, 0).len(),
                !iter.done ==> count + glyphs_and_flags_from(bytes, iter.pos as int).len()
                    == glyphs_and_flags_from(bytes, 0).len(),
                !iter.done ==> components_end(bytes, iter.pos as int) == components_end(bytes, 0),
                iter.done ==> components_end(bytes, 0) == Some((end, iter.cur_flags)) && iter.pos
                    == (if end <= len {
                    end
                } else {
                    len as int
                }),
            ensures
                count == glyphs_and_flags_from(bytes, 0).len(),
                iter.done ==> components_end(bytes, 0) == Some((end, iter.cur_flags)) && iter.pos
                    == (if end <= len {
                    end
                } else {
                    len as int
                }),
                !iter.done ==> components_end(bytes, 0) is None,
                iter.data@ == bytes,
                iter.pos <= bytes.len(),
            decreases
                    (if iter.done {
                        0int
                    } else {
                        1int
                    }),
                    bytes.len() - iter.pos,
        {
            let ghost pos = iter.pos as int;
            match iter.next() {
                None => {
                    break ;
                },
                Some(item) => {
                    proof {
                        assert(component_len(item.1) >= 6);
                        end = pos + component_len(item.1);
                        if flag_set(item.1, 0x0020) && end > len {
                            assert(glyphs_and_flags_from(bytes, bytes.len() as int).len() == 0);
                        }
                    }
                    count = count + 1;
                },
            }
        }
        let instructions = if iter.done && iter.cur_flags.contains(
            CompositeGlyphFlags::we_have_instructions(),
        ) {
            match data.read_u16(iter.pos) {
                Err(_) => None,
                Ok(n) => {
                    let at: usize = iter.pos + 2;
                    if len - at < n as usize {
                        None
                    } else {
                        match data.read_array(at, at + n as usize) {
                            Ok(bytes) => Some(bytes),
                            Err(_) => None,
                        }
                    }
                },
            }
        } else {
            None
        };
        (count, instructions)
    }

    /// The instructions of the glyph.
    pub fn instructions(&self) -> (r: Option<&'a [u8]>)
        ensures
            match r {
                Some(instructions) => composite_instructions(component_bytes(self.bytes()))
                    == Some(instructions@),
                None => composite_instructions(component_bytes(self.bytes())) is None,
            },
    {
        self.count_and_instructions().1
    }
}

} // verus!
