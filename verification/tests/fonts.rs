use font_toolkit::composite_glyph_flags::CompositeGlyphFlags;
use font_toolkit::font_data::FontData;
use font_toolkit::glyf::{Point, PointFlags, ToPathStyle};
use font_toolkit::glyph::Glyph;
use font_toolkit::head::Head;
use font_toolkit::path::{to_path, PathElement};

fn be16(data: &[u8], at: usize) -> usize {
    u16::from_be_bytes([data[at], data[at + 1]]) as usize
}

fn be32(data: &[u8], at: usize) -> usize {
    u32::from_be_bytes([data[at], data[at + 1], data[at + 2], data[at + 3]]) as usize
}

/// The bytes of the table of a font with the given tag.
fn table<'a>(font: &'a [u8], tag: &[u8; 4]) -> &'a [u8] {
    let count = be16(font, 4);
    for i in 0..count {
        let record = 12 + 16 * i;
        if &font[record..record + 4] == tag {
            let start = be32(font, record + 8);
            let len = be32(font, record + 12);
            return &font[start..start + len];
        }
    }
    panic!("the font has no such table");
}

fn glyph_count(font: &[u8]) -> usize {
    be16(table(font, b"maxp"), 4)
}

/// The bytes of a glyph of a font; nothing for a glyph without outline.
fn glyph_bytes(font: &[u8], gid: usize) -> Option<&[u8]> {
    let long_offsets = be16(table(font, b"head"), 50) == 1;
    let loca = table(font, b"loca");
    let (start, end) = if long_offsets {
        (be32(loca, 4 * gid), be32(loca, 4 * gid + 4))
    } else {
        (2 * be16(loca, 2 * gid), 2 * be16(loca, 2 * gid + 2))
    };
    if start == end {
        None
    } else {
        Some(&table(font, b"glyf")[start..end])
    }
}

fn glyph(font: &[u8], gid: usize) -> Option<Glyph<'_>> {
    glyph_bytes(font, gid).map(|bytes| Glyph::read(FontData::new(bytes)).unwrap())
}

fn all_glyphs(font: &[u8]) -> Vec<Option<Glyph<'_>>> {
    (0..glyph_count(font)).map(|gid| glyph(font, gid)).collect()
}

#[test]
fn simple_glyph() {
    let glyph = glyph(font_test_data::COLR_GRADIENT_RECT, 0).unwrap();
    assert_eq!(glyph.number_of_contours(), 2);
    let simple_glyph = if let Glyph::Simple(simple) = glyph {
        simple
    } else {
        panic!("expected simple glyph");
    };
    assert_eq!(simple_glyph.end_pts_of_contours(), &[3, 7]);
    assert_eq!(
        simple_glyph
            .points()
            .iter()
            .map(|pt| (pt.x, pt.y, pt.on_curve))
            .collect::<Vec<_>>(),
        &[
            (5, 0, true),
            (5, 100, true),
            (45, 100, true),
            (45, 0, true),
            (10, 5, true),
            (40, 5, true),
            (40, 95, true),
            (10, 95, true),
        ]
    );
}

#[test]
fn simple_glyph_overlapping_contour_flag() {
    let gids_with_overlap: Vec<_> = all_glyphs(font_test_data::VAZIRMATN_VAR)
        .iter()
        .enumerate()
        .filter_map(|(gid, glyph)| match glyph {
            Some(Glyph::Simple(glyph)) if glyph.has_overlapping_contours() => Some(gid),
            _ => None,
        })
        .collect();
    // Only GID 3 has the overlap bit set
    let expected_gids_with_overlap = vec![3];
    assert_eq!(expected_gids_with_overlap, gids_with_overlap);
}

#[test]
fn composite_glyph_overlapping_contour_flag() {
    let mut gids_components_with_overlap = Vec::new();
    for (gid, glyph) in all_glyphs(font_test_data::VAZIRMATN_VAR).iter().enumerate() {
        if let Some(Glyph::Composite(glyph)) = glyph {
            for (comp_ix, comp) in glyph.components().iter().enumerate() {
                if comp.flags.contains(CompositeGlyphFlags::overlap_compound()) {
                    gids_components_with_overlap.push((gid, comp_ix));
                }
            }
        }
    }
    // Only GID 2, component 1 has the overlap bit set
    let expected_gids_components_with_overlap = vec![(2, 1)];
    assert_eq!(
        expected_gids_components_with_overlap,
        gids_components_with_overlap
    );
}

#[test]
fn cubic_glyf() {
    let glyph = glyph(font_test_data::CUBIC_GLYF, 2).unwrap();
    assert_eq!(glyph.number_of_contours(), 1);
    let simple_glyph = if let Glyph::Simple(simple) = glyph {
        simple
    } else {
        panic!("expected simple glyph");
    };
    assert_eq!(
        simple_glyph
            .points()
            .iter()
            .map(|pt| (pt.x, pt.y, pt.on_curve))
            .collect::<Vec<_>>(),
        &[
            (278, 710, true),
            (278, 470, true),
            (300, 500, false),
            (800, 500, false),
            (998, 470, true),
            (998, 710, true),
        ]
    );
}

#[test]
fn both_ways_of_reading_points_agree() {
    let fonts = [
        font_test_data::VAZIRMATN_VAR,
        font_test_data::CUBIC_GLYF,
        font_test_data::COLR_GRADIENT_RECT,
    ];
    let mut seen = 0;
    for font in fonts {
        for glyph in all_glyphs(font) {
            let Some(Glyph::Simple(glyph)) = glyph else {
                continue;
            };
            let n = glyph.num_points();
            let slow = glyph.points();
            assert_eq!(slow.len(), n);
            let mut points = vec![Point::new(0, 0); n];
            let mut flags = vec![PointFlags::from_bits(0); n];
            glyph.read_points_fast(&mut points, &mut flags).unwrap();
            for (i, pt) in slow.iter().enumerate() {
                assert_eq!((points[i].x, points[i].y), (pt.x as i32, pt.y as i32));
                assert_eq!(flags[i].is_on_curve(), pt.on_curve);
            }
            // The outline of a font is a path without faults, and every
            // contour of it is closed.
            let contours = glyph.end_pts_of_contours();
            let mut path = Vec::new();
            to_path(&points, &flags, &contours, ToPathStyle::FreeType, &mut path).unwrap();
            let closed = path.iter().filter(|e| **e == PathElement::Close).count();
            assert_eq!(closed, contours.len());
            seen += 1;
        }
    }
    assert!(seen > 3);
}

#[test]
fn head_of_a_font() {
    let head = Head::read(FontData::new(table(font_test_data::VAZIRMATN_VAR, b"head"))).unwrap();
    assert_eq!(head.magic_number(), 0x5F0F3CF5);
    assert_eq!(head.units_per_em(), 2048);
    assert_eq!(head.version().major, 1);
    assert_eq!(head.glyph_data_format(), 0);
    assert!(head.x_min() <= head.x_max());
    assert!(head.y_min() <= head.y_max());
}
