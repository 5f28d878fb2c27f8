use font_toolkit::composite_glyph_flags::CompositeGlyphFlags;
use font_toolkit::glyf::{Anchor, PointFlags, PointMarker, Transform};
use font_toolkit::scalars::F2Dot14;

#[test]
fn compute_anchor_flags() {
    let anchor = Anchor::Offset { x: -128, y: 127 };
    assert_eq!(
        anchor.compute_flags(),
        CompositeGlyphFlags::args_are_xy_values()
    );

    let anchor = Anchor::Offset { x: -129, y: 127 };
    assert_eq!(
        anchor.compute_flags(),
        CompositeGlyphFlags::args_are_xy_values() | CompositeGlyphFlags::arg_1_and_2_are_words()
    );
    let anchor = Anchor::Offset { x: -1, y: 128 };
    assert_eq!(
        anchor.compute_flags(),
        CompositeGlyphFlags::args_are_xy_values() | CompositeGlyphFlags::arg_1_and_2_are_words()
    );

    let anchor = Anchor::Point {
        base: 255,
        component: 20,
    };
    assert_eq!(anchor.compute_flags(), CompositeGlyphFlags::empty());

    let anchor = Anchor::Point {
        base: 256,
        component: 20,
    };
    assert_eq!(
        anchor.compute_flags(),
        CompositeGlyphFlags::arg_1_and_2_are_words()
    )
}

#[test]
fn compute_transform_flags() {
    fn make_xform(xx: f32, yx: f32, xy: f32, yy: f32) -> Transform {
        Transform {
            xx: F2Dot14::from_bits(font_types::F2Dot14::from_f32(xx).to_bits()),
            yx: F2Dot14::from_bits(font_types::F2Dot14::from_f32(yx).to_bits()),
            xy: F2Dot14::from_bits(font_types::F2Dot14::from_f32(xy).to_bits()),
            yy: F2Dot14::from_bits(font_types::F2Dot14::from_f32(yy).to_bits()),
        }
    }

    assert_eq!(
        make_xform(1.0, 0., 0., 1.0).compute_flags(),
        CompositeGlyphFlags::empty()
    );
    assert_eq!(
        make_xform(2.0, 0., 0., 2.0).compute_flags(),
        CompositeGlyphFlags::we_have_a_scale()
    );
    assert_eq!(
        make_xform(2.0, 0., 0., 1.0).compute_flags(),
        CompositeGlyphFlags::we_have_an_x_and_y_scale()
    );
    assert_eq!(
        make_xform(2.0, 0., 1.0, 1.0).compute_flags(),
        CompositeGlyphFlags::we_have_a_two_by_two()
    );
}

#[test]
fn point_flags_and_marker_bits() {
    let bits = [
        PointFlags::OFF_CURVE_CUBIC,
        PointFlags::ON_CURVE,
        PointMarker::has_delta().bits(),
        PointMarker::touched_x().bits(),
        PointMarker::touched_y().bits(),
    ];
    // Ensure bits don't overlap
    for (i, a) in bits.iter().enumerate() {
        for b in &bits[i + 1..] {
            assert_eq!(a & b, 0);
        }
    }
}
