use font_toolkit::glyf::{Point, PointFlags, ToPathError, ToPathStyle};
use font_toolkit::path::{
    halve, midpoint, path_steps, to_path, Contour, PathElement, PathPoint, PathStep,
};

fn coord(bits: i32) -> f32 {
    // The points of these tests are in 26.6 fixed point.
    bits as f32 / 64.0
}

fn svg(path: &[PathElement]) -> String {
    let mut out = String::new();
    for element in path {
        match element {
            PathElement::MoveTo(p) => out.push_str(&format!("M{:.1},{:.1} ", coord(p.x), coord(p.y))),
            PathElement::LineTo(p) => out.push_str(&format!("L{:.1},{:.1} ", coord(p.x), coord(p.y))),
            PathElement::QuadTo(c, p) => out.push_str(&format!(
                "Q{:.1},{:.1} {:.1},{:.1} ",
                coord(c.x),
                coord(c.y),
                coord(p.x),
                coord(p.y)
            )),
            PathElement::CurveTo(c0, c1, p) => out.push_str(&format!(
                "C{:.1},{:.1} {:.1},{:.1} {:.1},{:.1} ",
                coord(c0.x),
                coord(c0.y),
                coord(c1.x),
                coord(c1.y),
                coord(p.x),
                coord(p.y)
            )),
            PathElement::Close => out.push_str("z "),
        }
    }
    out
}

fn assert_all_off_curve_path_to_svg(expected: &str, path_style: ToPathStyle) {
    fn pt(x: i32, y: i32) -> Point {
        Point::new(x, y)
    }
    let flags = [PointFlags::off_curve_quad(); 4];
    let contours = [3];
    // A contour of off-curve points only begins half way between the first
    // point and the last: [(640, 128) + (128, 128)] / 2 = (384, 128), which
    // is (6.0, 2.0).
    let points = [pt(640, 128), pt(256, 64), pt(640, 64), pt(128, 128)];
    let mut path = Vec::new();
    to_path(&points, &flags, &contours, path_style, &mut path).unwrap();
    assert_eq!(svg(&path).trim(), expected);
}

#[test]
fn all_off_curve_to_path_offcurve_scan_backward() {
    assert_all_off_curve_path_to_svg(
        "M6.0,2.0 Q10.0,2.0 7.0,1.5 Q4.0,1.0 7.0,1.0 Q10.0,1.0 6.0,1.5 Q2.0,2.0 6.0,2.0 z",
        ToPathStyle::FreeType,
    );
}

#[test]
fn all_off_curve_to_path_offcurve_scan_forward() {
    assert_all_off_curve_path_to_svg(
        "M7.0,1.5 Q4.0,1.0 7.0,1.0 Q10.0,1.0 6.0,1.5 Q2.0,2.0 6.0,2.0 Q10.0,2.0 7.0,1.5 z",
        ToPathStyle::HarfBuzz,
    );
}

#[test]
fn midpoint_rounds_towards_zero() {
    assert_eq!(midpoint(Point::new(1, 2), Point::new(2, 4)), Point::new(1, 3));
    assert_eq!(midpoint(Point::new(-1, -2), Point::new(-2, -5)), Point::new(-1, -3));
    assert_eq!(
        midpoint(Point::new(i32::MAX, i32::MIN), Point::new(i32::MAX, i32::MIN)),
        Point::new(i32::MAX, i32::MIN)
    );
}

#[test]
fn square_of_lines() {
    let points = [
        Point::new(0, 0),
        Point::new(0, 64),
        Point::new(64, 64),
        Point::new(64, 0),
    ];
    let flags = [PointFlags::on_curve(); 4];
    let mut path = Vec::new();
    to_path(&points, &flags, &[3], ToPathStyle::FreeType, &mut path).unwrap();
    assert_eq!(
        path,
        vec![
            PathElement::MoveTo(Point::new(0, 0)),
            PathElement::LineTo(Point::new(0, 64)),
            PathElement::LineTo(Point::new(64, 64)),
            PathElement::LineTo(Point::new(64, 0)),
            PathElement::Close,
        ]
    );
}

#[test]
fn cubic_curve_ends_at_first_move() {
    let points = [
        Point::new(0, 0),
        Point::new(10, 20),
        Point::new(30, 20),
    ];
    let flags = [
        PointFlags::on_curve(),
        PointFlags::off_curve_cubic(),
        PointFlags::off_curve_cubic(),
    ];
    let mut path = Vec::new();
    to_path(&points, &flags, &[2], ToPathStyle::FreeType, &mut path).unwrap();
    assert_eq!(
        path,
        vec![
            PathElement::MoveTo(Point::new(0, 0)),
            PathElement::CurveTo(Point::new(10, 20), Point::new(30, 20), Point::new(0, 0)),
            PathElement::Close,
        ]
    );
}

#[test]
fn two_contours_follow_each_other() {
    let points = [
        Point::new(0, 0),
        Point::new(8, 0),
        Point::new(100, 100),
        Point::new(108, 100),
    ];
    let flags = [PointFlags::on_curve(); 4];
    let mut path = Vec::new();
    to_path(&points, &flags, &[1, 3], ToPathStyle::HarfBuzz, &mut path).unwrap();
    assert_eq!(
        path,
        vec![
            PathElement::MoveTo(Point::new(0, 0)),
            PathElement::LineTo(Point::new(8, 0)),
            PathElement::Close,
            PathElement::MoveTo(Point::new(100, 100)),
            PathElement::LineTo(Point::new(108, 100)),
            PathElement::Close,
        ]
    );
}

#[test]
fn contour_order_error() {
    let points = [Point::new(0, 0), Point::new(1, 1)];
    let flags = [PointFlags::on_curve(); 2];
    let mut path = Vec::new();
    // The end of the second contour lies before its beginning.
    let r = to_path(&points, &flags, &[1, 0], ToPathStyle::FreeType, &mut path);
    assert_eq!(r, Err(ToPathError::ContourOrder(1)));
    // The first contour stays drawn.
    assert_eq!(path.len(), 3);
    // The end of a contour lies beyond the points.
    let mut path = Vec::new();
    let r = to_path(&points, &flags, &[2], ToPathStyle::FreeType, &mut path);
    assert_eq!(r, Err(ToPathError::ContourOrder(0)));
    assert!(path.is_empty());
}

#[test]
fn expected_quad_or_on_curve_error() {
    let points = [Point::new(0, 0), Point::new(1, 1), Point::new(2, 2)];
    let flags = [
        PointFlags::on_curve(),
        PointFlags::off_curve_cubic(),
        PointFlags::on_curve(),
    ];
    let mut path = Vec::new();
    // The second contour begins with a cubic off-curve point.
    let r = to_path(&points, &flags, &[0, 2], ToPathStyle::FreeType, &mut path);
    assert_eq!(r, Err(ToPathError::ExpectedQuadOrOnCurve(1)));
}

#[test]
fn expected_quad_error() {
    let points = [Point::new(0, 0), Point::new(1, 1), Point::new(2, 2)];
    let flags = [
        PointFlags::on_curve(),
        PointFlags::off_curve_cubic(),
        PointFlags::on_curve(),
    ];
    let mut path = Vec::new();
    // A single cubic off-curve point before a point on the curve.
    let r = to_path(&points, &flags, &[2], ToPathStyle::FreeType, &mut path);
    assert_eq!(r, Err(ToPathError::ExpectedQuad(1)));
    assert_eq!(path, vec![PathElement::MoveTo(Point::new(0, 0))]);
}

#[test]
fn expected_cubic_error() {
    let points = [
        Point::new(0, 0),
        Point::new(1, 1),
        Point::new(2, 2),
        Point::new(3, 3),
    ];
    let flags = [
        PointFlags::on_curve(),
        PointFlags::off_curve_quad(),
        PointFlags::off_curve_cubic(),
        PointFlags::on_curve(),
    ];
    let mut path = Vec::new();
    // A quadratic and a cubic off-curve point wait together.
    let r = to_path(&points, &flags, &[3], ToPathStyle::FreeType, &mut path);
    assert_eq!(r, Err(ToPathError::ExpectedCubic(1)));
}

#[test]
fn point_flag_mismatch_error() {
    let points = [Point::new(0, 0), Point::new(1, 1)];
    let flags = [PointFlags::on_curve(); 3];
    let r = Contour::new(0, &points, &flags, ToPathStyle::FreeType);
    assert!(matches!(
        r,
        Err(ToPathError::PointFlagMismatch {
            num_points: 2,
            num_flags: 3
        })
    ));
}

#[test]
fn steps_of_all_off_curve_contour() {
    let flags = [PointFlags::off_curve_quad(); 4];
    let points = [(); 4];
    let mut steps = Vec::new();
    path_steps(&points, &flags, &[3], ToPathStyle::FreeType, &mut steps).unwrap();
    assert_eq!(
        steps,
        vec![
            PathStep::MoveTo(PathPoint::Midway(0, 3)),
            PathStep::QuadTo(PathPoint::At(0), PathPoint::Midway(0, 1)),
            PathStep::QuadTo(PathPoint::At(1), PathPoint::Midway(1, 2)),
            PathStep::QuadTo(PathPoint::At(2), PathPoint::Midway(2, 3)),
            PathStep::QuadTo(PathPoint::At(3), PathPoint::Midway(0, 3)),
            PathStep::Close,
        ]
    );
}

#[test]
fn steps_number_points_across_contours() {
    let flags = [PointFlags::on_curve(); 5];
    let points = [0.5f32; 5];
    let mut steps = Vec::new();
    path_steps(&points, &flags, &[1, 4], ToPathStyle::HarfBuzz, &mut steps).unwrap();
    assert_eq!(
        steps,
        vec![
            PathStep::MoveTo(PathPoint::At(0)),
            PathStep::LineTo(PathPoint::At(1)),
            PathStep::Close,
            PathStep::MoveTo(PathPoint::At(2)),
            PathStep::LineTo(PathPoint::At(3)),
            PathStep::LineTo(PathPoint::At(4)),
            PathStep::Close,
        ]
    );
}

#[test]
fn steps_resolve_to_elements() {
    let points = [Point::new(0, 0), Point::new(10, 4), Point::new(-3, -5)];
    assert_eq!(PathPoint::At(1).resolve(&points), Point::new(10, 4));
    assert_eq!(PathPoint::Midway(1, 2).resolve(&points), Point::new(3, 0));
    assert_eq!(
        PathStep::QuadTo(PathPoint::At(2), PathPoint::Midway(0, 1)).resolve(&points),
        PathElement::QuadTo(Point::new(-3, -5), Point::new(5, 2))
    );
    assert_eq!(PathStep::Close.resolve(&points), PathElement::Close);
}

#[test]
fn halves_round_towards_zero() {
    assert_eq!(halve(3, 4), 3);
    assert_eq!(halve(-3, -4), -3);
    assert_eq!(halve(-3, 4), 0);
    assert_eq!(halve(-5, 2), -1);
    assert_eq!(halve(i32::MAX, i32::MAX), i32::MAX);
    assert_eq!(halve(i32::MIN, i32::MIN), i32::MIN);
    assert_eq!(halve(i32::MIN, i32::MAX), 0);
}

#[test]
fn flags_are_needed_for_the_contours_that_are_walked() {
    // Five points, three flags: the one contour ends within the flags.
    let points = [Point::new(0, 0); 5];
    let flags = [PointFlags::on_curve(); 3];
    let mut path = Vec::new();
    to_path(&points, &flags, &[2], ToPathStyle::FreeType, &mut path).unwrap();
    assert_eq!(path.len(), 4);
    // A second contour would need more flags, but it is not reached: the
    // first has a cubic point where none may be.
    let flags = [
        PointFlags::off_curve_cubic(),
        PointFlags::on_curve(),
        PointFlags::on_curve(),
    ];
    let mut path = Vec::new();
    let r = to_path(&points, &flags, &[2, 4], ToPathStyle::FreeType, &mut path);
    assert_eq!(r, Err(ToPathError::ExpectedQuadOrOnCurve(0)));
}
