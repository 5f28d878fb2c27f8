use font_toolkit::composite_glyph_flags::CompositeGlyphFlags;
use font_toolkit::font_data::{FontData, ReadError};
use font_toolkit::glyf::{Anchor, CurvePoint, Point, PointFlags, Transform};
use font_toolkit::glyph::{CompositeGlyph, Glyph, SimpleGlyph};
use font_toolkit::scalars::{F2Dot14, GlyphId16};
use font_toolkit::simple::{resolve_coords_len, FieldLengths};
use font_toolkit::simple_glyph_flags::SimpleGlyphFlags;

fn be16(v: i32) -> [u8; 2] {
    [((v >> 8) & 0xff) as u8, (v & 0xff) as u8]
}

/// A simple glyph of two rectangles, every coordinate stored as a step of
/// two bytes.
fn two_rectangles() -> Vec<u8> {
    let points: [(i32, i32); 8] = [
        (5, 0),
        (5, 100),
        (45, 100),
        (45, 0),
        (10, 5),
        (40, 5),
        (40, 95),
        (10, 95),
    ];
    let mut bytes = Vec::new();
    bytes.extend_from_slice(&be16(2)); // number of contours
    bytes.extend_from_slice(&be16(5)); // x min
    bytes.extend_from_slice(&be16(0)); // y min
    bytes.extend_from_slice(&be16(45)); // x max
    bytes.extend_from_slice(&be16(100)); // y max
    bytes.extend_from_slice(&be16(3));
    bytes.extend_from_slice(&be16(7));
    bytes.extend_from_slice(&be16(2)); // instruction length
    bytes.extend_from_slice(&[0xb0, 0x01]); // instructions
    for _ in 0..8 {
        bytes.push(0x01); // on the curve, long steps
    }
    let mut last = 0;
    for (x, _) in points {
        bytes.extend_from_slice(&be16((x - last) & 0xffff));
        last = x;
    }
    let mut last = 0;
    for (_, y) in points {
        bytes.extend_from_slice(&be16((y - last) & 0xffff));
        last = y;
    }
    bytes
}

#[test]
fn two_rectangles_by_hand() {
    let bytes = two_rectangles();
    let glyph = Glyph::read(FontData::new(&bytes)).unwrap();
    assert_eq!(glyph.number_of_contours(), 2);
    let simple_glyph = if let Glyph::Simple(simple) = glyph {
        simple
    } else {
        panic!("expected simple glyph");
    };
    assert_eq!(simple_glyph.end_pts_of_contours(), &[3, 7]);
    assert_eq!(
        simple_glyph
            .points()
            .iter()
            .map(|pt| (pt.x, pt.y, pt.on_curve))
            .collect::<Vec<_>>(),
        &[
            (5, 0, true),
            (5, 100, true),
            (45, 100, true),
            (45, 0, true),
            (10, 5, true),
            (40, 5, true),
            (40, 95, true),
            (10, 95, true),
        ]
    );
}

#[test]
fn simple_glyph_fields() {
    let bytes = two_rectangles();
    let glyph = SimpleGlyph::read(FontData::new(&bytes)).unwrap();
    assert_eq!(glyph.number_of_contours(), 2);
    assert_eq!(glyph.x_min(), 5);
    assert_eq!(glyph.y_min(), 0);
    assert_eq!(glyph.x_max(), 45);
    assert_eq!(glyph.y_max(), 100);
    assert_eq!(glyph.instruction_length(), 2);
    assert_eq!(glyph.instructions(), &[0xb0, 0x01]);
    assert_eq!(glyph.glyph_data().len(), 8 + 16 + 16);
    assert_eq!(glyph.num_points(), 8);
    assert!(!glyph.has_overlapping_contours());
}

#[test]
fn simple_glyph_too_short() {
    let bytes = two_rectangles();
    assert_eq!(
        SimpleGlyph::read(FontData::new(&bytes[..1])).err(),
        Some(ReadError::OutOfBounds)
    );
    // The end points of the contours are cut off.
    assert_eq!(
        SimpleGlyph::read(FontData::new(&bytes[..13])).err(),
        Some(ReadError::OutOfBounds)
    );
    // The instructions are cut off.
    assert_eq!(
        SimpleGlyph::read(FontData::new(&bytes[..17])).err(),
        Some(ReadError::OutOfBounds)
    );
    // With the point data cut off the glyph is read, but has no points.
    let glyph = SimpleGlyph::read(FontData::new(&bytes[..30])).unwrap();
    assert!(glyph.points().is_empty());
}

/// A glyph of three points with short steps, a flag that repeats, and the
/// overlap bit.
fn short_steps() -> Vec<u8> {
    let mut bytes = Vec::new();
    bytes.extend_from_slice(&be16(1));
    bytes.extend_from_slice(&[0; 8]);
    bytes.extend_from_slice(&be16(2));
    bytes.extend_from_slice(&be16(0));
    // Flags: on the curve, both steps short and positive, overlap; then an
    // off-curve point with both steps short and negative, twice.
    bytes.extend_from_slice(&[0x01 | 0x02 | 0x04 | 0x10 | 0x20 | 0x40, 0x02 | 0x04 | 0x08, 1]);
    bytes.extend_from_slice(&[10, 3, 4]); // x steps
    bytes.extend_from_slice(&[20, 5, 6]); // y steps
    bytes
}

#[test]
fn simple_glyph_short_steps_and_repeats() {
    let bytes = short_steps();
    let glyph = SimpleGlyph::read(FontData::new(&bytes)).unwrap();
    assert!(glyph.has_overlapping_contours());
    assert_eq!(glyph.num_points(), 3);
    assert_eq!(
        glyph.points(),
        vec![
            CurvePoint::on_curve(10, 20),
            CurvePoint::off_curve(7, 15),
            CurvePoint::off_curve(3, 9),
        ]
    );
    assert_eq!(
        resolve_coords_len(glyph.glyph_data(), 3),
        Ok(FieldLengths {
            flags: 3,
            x_coords: 3,
            y_coords: 3
        })
    );
}

#[test]
fn resolve_coords_len_errors() {
    // The flag says that it counts for two points, of which there is one.
    assert_eq!(
        resolve_coords_len(&[0x08, 1], 1),
        Err(ReadError::MalformedData)
    );
    // The count of the repeats is missing.
    assert_eq!(resolve_coords_len(&[0x08], 1), Err(ReadError::OutOfBounds));
    // There is no flag.
    assert_eq!(resolve_coords_len(&[], 1), Err(ReadError::OutOfBounds));
    // A point whose coordinates are both the same as before takes no bytes.
    assert_eq!(
        resolve_coords_len(&[0x10 | 0x20], 1),
        Ok(FieldLengths {
            flags: 1,
            x_coords: 0,
            y_coords: 0
        })
    );
}

#[test]
fn read_points_fast_reads_the_same_points() {
    let bytes = short_steps();
    let glyph = SimpleGlyph::read(FontData::new(&bytes)).unwrap();
    let mut points = vec![Point::default(); 3];
    let mut flags = vec![PointFlags::default(); 3];
    glyph.read_points_fast(&mut points, &mut flags).unwrap();
    assert_eq!(
        points,
        vec![Point::new(10, 20), Point::new(7, 15), Point::new(3, 9)]
    );
    assert_eq!(
        flags,
        vec![
            PointFlags::on_curve(),
            PointFlags::off_curve_quad(),
            PointFlags::off_curve_quad()
        ]
    );

    let bytes = two_rectangles();
    let glyph = SimpleGlyph::read(FontData::new(&bytes)).unwrap();
    let mut points = vec![Point::default(); 8];
    let mut flags = vec![PointFlags::default(); 8];
    glyph.read_points_fast(&mut points, &mut flags).unwrap();
    let slow = glyph.points();
    for (fast, slow) in points.iter().zip(slow.iter()) {
        assert_eq!((fast.x, fast.y), (slow.x as i32, slow.y as i32));
    }
}

#[test]
fn read_points_fast_errors() {
    let bytes = short_steps();
    let glyph = SimpleGlyph::read(FontData::new(&bytes)).unwrap();
    let mut points = vec![Point::default(); 2];
    let mut flags = vec![PointFlags::default(); 3];
    assert_eq!(
        glyph.read_points_fast(&mut points, &mut flags),
        Err(ReadError::InvalidArrayLen)
    );
    // The last y step is cut off.
    let glyph = SimpleGlyph::read(FontData::new(&bytes[..bytes.len() - 1])).unwrap();
    let mut points = vec![Point::default(); 3];
    assert_eq!(
        glyph.read_points_fast(&mut points, &mut flags),
        Err(ReadError::OutOfBounds)
    );
}

/// A composite glyph of two components and two bytes of instructions.
fn composite() -> Vec<u8> {
    let mut bytes = Vec::new();
    bytes.extend_from_slice(&be16(0xffff)); // number of contours: -1
    bytes.extend_from_slice(&be16(1));
    bytes.extend_from_slice(&be16(2));
    bytes.extend_from_slice(&be16(3));
    bytes.extend_from_slice(&be16(4));
    // Words, an offset, one scale, more components.
    bytes.extend_from_slice(&be16(0x0001 | 0x0002 | 0x0008 | 0x0020));
    bytes.extend_from_slice(&be16(7));
    bytes.extend_from_slice(&be16(-300 & 0xffff));
    bytes.extend_from_slice(&be16(400));
    bytes.extend_from_slice(&be16(0x2000));
    // Bytes, point numbers, a two by two matrix, instructions.
    bytes.extend_from_slice(&be16(0x0080 | 0x0100 | 0x0400));
    bytes.extend_from_slice(&be16(9));
    bytes.extend_from_slice(&[3, 200]);
    bytes.extend_from_slice(&be16(0x4000));
    bytes.extend_from_slice(&be16(0x0001));
    bytes.extend_from_slice(&be16(0xffff));
    bytes.extend_from_slice(&be16(0x4000));
    bytes.extend_from_slice(&be16(2));
    bytes.extend_from_slice(&[0xaa, 0xbb]);
    bytes
}

#[test]
fn composite_glyph_components() {
    let bytes = composite();
    let glyph = match Glyph::read(FontData::new(&bytes)).unwrap() {
        Glyph::Composite(glyph) => glyph,
        Glyph::Simple(_) => panic!("expected composite glyph"),
    };
    assert_eq!(glyph.number_of_contours(), -1);
    assert_eq!(
        (glyph.x_min(), glyph.y_min(), glyph.x_max(), glyph.y_max()),
        (1, 2, 3, 4)
    );
    let components = glyph.components();
    assert_eq!(components.len(), 2);
    assert_eq!(components[0].glyph, GlyphId16::new(7));
    assert_eq!(components[0].anchor, Anchor::Offset { x: -300, y: 400 });
    assert_eq!(
        components[0].transform,
        Transform {
            xx: F2Dot14::from_bits(0x2000),
            yx: F2Dot14::zero(),
            xy: F2Dot14::zero(),
            yy: F2Dot14::from_bits(0x2000),
        }
    );
    assert!(components[0]
        .flags
        .contains(CompositeGlyphFlags::more_components()));
    assert_eq!(components[1].glyph, GlyphId16::new(9));
    assert_eq!(
        components[1].anchor,
        Anchor::Point {
            base: 3,
            component: 200
        }
    );
    assert_eq!(
        components[1].transform,
        Transform {
            xx: F2Dot14::one(),
            yx: F2Dot14::from_bits(1),
            xy: F2Dot14::from_bits(-1),
            yy: F2Dot14::one(),
        }
    );
    assert!(components[1]
        .flags
        .contains(CompositeGlyphFlags::overlap_compound()));

    let glyphs: Vec<u16> = glyph
        .component_glyphs_and_flags()
        .iter()
        .map(|(glyph, _)| glyph.to_u16())
        .collect();
    assert_eq!(glyphs, vec![7, 9]);
    let (count, instructions) = glyph.count_and_instructions();
    assert_eq!(count, 2);
    assert_eq!(instructions, Some(&[0xaa, 0xbb][..]));
    assert_eq!(glyph.instructions(), Some(&[0xaa, 0xbb][..]));
}

#[test]
fn composite_glyph_cut_off() {
    let bytes = composite();
    // The matrix of the second component is cut off: the component is not
    // read, but its glyph number and flags are.
    let glyph = CompositeGlyph::read(FontData::new(&bytes[..bytes.len() - 6])).unwrap();
    assert_eq!(glyph.components().len(), 1);
    assert_eq!(glyph.component_glyphs_and_flags().len(), 2);
    let (count, instructions) = glyph.count_and_instructions();
    assert_eq!(count, 2);
    assert_eq!(instructions, None);
    // The instructions are cut off.
    let glyph = CompositeGlyph::read(FontData::new(&bytes[..bytes.len() - 1])).unwrap();
    assert_eq!(glyph.components().len(), 2);
    assert_eq!(glyph.instructions(), None);
    // The header is cut off.
    assert_eq!(
        CompositeGlyph::read(FontData::new(&bytes[..9])).err(),
        Some(ReadError::OutOfBounds)
    );
}

#[test]
fn simple_glyph_flags_as_sets() {
    let on = SimpleGlyphFlags::on_curve_point();
    let repeat = SimpleGlyphFlags::repeat_flag();
    assert_eq!((on | repeat).bits(), 0x09);
    assert_eq!(((on | repeat) & repeat), repeat);
    assert_eq!(((on | repeat) - repeat), on);
    assert_eq!(((on | repeat) ^ repeat), on);
    assert_eq!((!on).bits(), 0x7e);
    assert_eq!(SimpleGlyphFlags::all().bits(), 0x7f);
    assert_eq!(SimpleGlyphFlags::from_bits(0x80), None);
    assert_eq!(SimpleGlyphFlags::from_bits(0x41).map(|f| f.bits()), Some(0x41));
    assert_eq!(SimpleGlyphFlags::from_bits_truncate(0xff).bits(), 0x7f);
    assert!(SimpleGlyphFlags::empty().is_empty());
    assert!(on.union(repeat).intersects(repeat));
    assert!(!on.intersects(repeat));
    assert!(on.union(repeat).contains(on));
    assert!(!on.contains(on.union(repeat)));
    assert_eq!(on.union(repeat).intersection(repeat), repeat);
    assert_eq!(on.union(repeat).difference(repeat), on);
    let mut flags = on;
    flags.insert(repeat);
    assert_eq!(flags.bits(), 0x09);
    flags.toggle(on);
    assert_eq!(flags, repeat);
    flags.remove(repeat);
    assert!(flags.is_empty());
}

#[test]
fn composite_glyph_flags_as_sets() {
    assert_eq!(CompositeGlyphFlags::all().bits(), 0x1fef);
    assert_eq!(CompositeGlyphFlags::from_bits(0x0010), None);
    assert_eq!(CompositeGlyphFlags::from_bits_truncate(0xffff).bits(), 0x1fef);
    let a = CompositeGlyphFlags::use_my_metrics();
    let b = CompositeGlyphFlags::round_xy_to_grid();
    assert_eq!((a | b).bits(), 0x0204);
    assert_eq!((!(a | b)).bits(), 0x1fef & !0x0204);
    let mut flags = a;
    flags.insert(b);
    flags.remove(a);
    assert_eq!(flags, b);
    flags.toggle(b);
    assert!(flags.is_empty());
}

#[test]
fn point_flags_kinds() {
    assert!(PointFlags::on_curve().is_on_curve());
    assert!(PointFlags::off_curve_quad().is_off_curve_quad());
    assert!(PointFlags::off_curve_quad().is_off_curve());
    assert!(PointFlags::off_curve_cubic().is_off_curve_cubic());
    assert!(PointFlags::off_curve_cubic().is_off_curve());
    assert!(!PointFlags::on_curve().is_off_curve());
    // Only the kind of point is taken from the bits.
    assert_eq!(PointFlags::from_bits(0x7f), PointFlags::on_curve());
    let mut flags = PointFlags::off_curve_quad();
    flags.flip_on_curve();
    assert!(flags.is_on_curve());
    flags.clear_on_curve();
    assert!(flags.is_off_curve_quad());
    flags.set_on_curve();
    assert!(flags.is_on_curve());
    let marker = font_toolkit::glyf::PointMarker::touched_x();
    assert!(!flags.has_marker(marker));
    flags.set_marker(marker);
    assert!(flags.has_marker(marker));
    assert!(flags.has_marker(font_toolkit::glyf::PointMarker::touched()));
    flags.clear_marker(marker);
    assert!(!flags.has_marker(marker));
    assert!(flags.is_on_curve());
}

#[test]
fn defaults_are_empty() {
    assert_eq!(PointFlags::default().bits(), 0);
    assert!(PointFlags::default().is_off_curve_quad());
    assert_eq!(font_toolkit::glyf::PointMarker::default().bits(), 0);
    assert_eq!(SimpleGlyphFlags::default(), SimpleGlyphFlags::empty());
    assert_eq!(CompositeGlyphFlags::default(), CompositeGlyphFlags::empty());
    assert_eq!(Point::default(), Point::new(0, 0));
    assert_eq!(
        font_toolkit::glyf::ToPathStyle::default(),
        font_toolkit::glyf::ToPathStyle::FreeType
    );
}

#[test]
fn a_glyph_gives_back_its_data() {
    let bytes = two_rectangles();
    let glyph = SimpleGlyph::read(FontData::new(&bytes)).unwrap();
    assert_eq!(glyph.offset_data().as_bytes(), &bytes[..]);
    assert_eq!(
        glyph.instructions().len(),
        glyph.instruction_length() as usize
    );
    assert_eq!(
        12 + 2 * 2 + glyph.instructions().len() + glyph.glyph_data().len(),
        bytes.len()
    );
}
