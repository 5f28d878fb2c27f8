//! From the points of an outline to a path: the moves, lines and curves that
//! draw it.
//!
//! A contour is a closed run of points. Points on the curve are joined by
//! lines; off-curve points between them bend the line into a quadratic curve
//! (one control point) or a cubic curve (two). Between two quadratic
//! off-curve points in a row, and behind two cubic ones that are followed by
//! a third, lies a point on the curve that is not stored: half way between
//! them.

use crate::glyf::{Point, PointFlags, ToPathError, ToPathStyle};
use vstd::prelude::*;
use vstd::slice::slice_subrange;

verus! {

/// A point of a path, told by the numbers of the points of the outline: one
/// of them, or the point half way between two of them.
#[derive(Clone, Copy, Debug, PartialEq, Eq, Structural)]
pub enum PathPoint {
    /// The point of the outline with this number.
    At(usize),
    /// The point half way between the two points with these numbers.
    Midway(usize, usize),
}

/// One step of a path, its points told by their numbers in the outline.
#[derive(Clone, Copy, Debug, PartialEq, Eq, Structural)]
pub enum PathStep {
    /// Begin a contour at the point.
    MoveTo(PathPoint),
    /// A line to the point.
    LineTo(PathPoint),
    /// A quadratic curve with the first point as control point, to the
    /// second.
    QuadTo(PathPoint, PathPoint),
    /// A cubic curve with the first two points as control points, to the
    /// third.
    CurveTo(PathPoint, PathPoint, PathPoint),
    /// Close the contour.
    Close,
}

/// One step of a path, with the coordinates of its points.
#[derive(Clone, Copy, Debug, PartialEq, Eq, Structural)]
pub enum PathElement {
    /// Begin a contour at the point.
    MoveTo(Point),
    /// A line to the point.
    LineTo(Point),
    /// A quadratic curve with the first point as control point, to the
    /// second.
    QuadTo(Point, Point),
    /// A cubic curve with the first two points as control points, to the
    /// third.
    CurveTo(Point, Point, Point),
    /// Close the contour.
    Close,
}

/// Half the sum of two numbers, rounded towards zero.
pub open spec fn half_sum(a: i32, b: i32) -> i32 {
    if a + b >= 0 {
        ((a + b) / 2) as i32
    } else {
        (-((-(a + b)) / 2)) as i32
    }
}

/// The point half way between two points.
pub open spec fn spec_midpoint(a: Point, b: Point) -> Point {
    Point { x: half_sum(a.x, b.x), y: half_sum(a.y, b.y) }
}

/// Half the sum of two numbers, rounded towards zero. The sum is taken in a
/// wider type, so that it cannot overflow.
pub fn halve(a: i32, b: i32) -> (r: i32)
    ensures
        r == half_sum(a, b),
{
    let sum: i64 = a as i64 + b as i64;
    if sum >= 0 {
        (sum / 2) as i32
    } else {
        (-((-sum) / 2)) as i32
    }
}

/// The point half way between two points.
pub fn midpoint(a: Point, b: Point) -> (r: Point)
    ensures
        r == spec_midpoint(a, b),
{
    Point::new(halve(a.x, b.x), halve(a.y, b.y))
}

/// Whether the flags are those of a quadratic off-curve point.
pub open spec fn is_quad(f: PointFlags) -> bool {
    f.spec_bits() & PointFlags::CURVE_MASK == 0
}

/// Whether the flags are those of a cubic off-curve point.
pub open spec fn is_cubic(f: PointFlags) -> bool {
    f.spec_bits() & PointFlags::OFF_CURVE_CUBIC != 0
}

/// Whether the flags are those of a point on the curve.
pub open spec fn is_on(f: PointFlags) -> bool {
    f.spec_bits() & PointFlags::ON_CURVE != 0
}

/// Where the walk along a contour stands.
pub struct Walk {
    /// The number of the next point; the point behind the last is the first.
    pub ix: int,
    /// How many points are still to be taken.
    pub points_pending: int,
    /// The off-curve points that wait for the end of their curve.
    pub off_curve: (int, int),
    /// How many off-curve points wait.
    pub off_curve_pending: int,
}

/// The walk is within the contour.
pub open spec fn walk_ok(w: Walk, flags: Seq<PointFlags>) -> bool {
    &&& 0 <= w.ix <= flags.len()
    &&& 0 <= w.points_pending <= flags.len()
    &&& 0 <= w.off_curve_pending <= 2
    &&& w.off_curve_pending >= 1 ==> 0 <= w.off_curve.0 < flags.len()
    &&& w.off_curve_pending >= 2 ==> 0 <= w.off_curve.1 < flags.len()
    &&& w.points_pending > 0 ==> flags.len() > 0
}

/// One step of a walk: the state behind it, the path element that it adds if
/// any, and the error that ends the walk if any.
pub struct Stepped {
    pub walk: Walk,
    pub element: Option<PathStep>,
    pub error: Option<ToPathError>,
}

/// The point of the outline that is point `ix` of the contour that begins at
/// point `base` of the outline.
pub open spec fn at(base: int, ix: int) -> PathPoint {
    PathPoint::At((base + ix) as usize)
}

/// The quadratic curve that ends the waiting off-curve point, towards
/// `curr`: to `curr` itself, or half way where the end point is not stored.
pub open spec fn quad_step(
    w: Walk,
    flags: Seq<PointFlags>,
    base: int,
    curr: PathPoint,
    curr_ix: int,
    implicit: bool,
) -> Stepped {
    let buf_ix = w.off_curve.0;
    if !is_quad(flags[buf_ix]) {
        Stepped {
            walk: w,
            element: None,
            error: Some(ToPathError::ExpectedQuad((base + buf_ix) as usize)),
        }
    } else {
        let c0 = at(base, buf_ix);
        let end = if implicit {
            PathPoint::Midway((base + buf_ix) as usize, (base + curr_ix) as usize)
        } else {
            curr
        };
        Stepped {
            walk: Walk { off_curve_pending: 0, ..w },
            element: Some(PathStep::QuadTo(c0, end)),
            error: None,
        }
    }
}

/// The cubic curve that ends the two waiting off-curve points, towards
/// `curr`.
pub open spec fn cubic_step(
    w: Walk,
    flags: Seq<PointFlags>,
    base: int,
    curr: PathPoint,
    curr_ix: int,
    implicit: bool,
) -> Stepped {
    let ix0 = w.off_curve.0;
    let ix1 = w.off_curve.1;
    if !is_cubic(flags[ix0]) {
        Stepped {
            walk: w,
            element: None,
            error: Some(ToPathError::ExpectedCubic((base + ix0) as usize)),
        }
    } else if !is_cubic(flags[ix1]) {
        Stepped {
            walk: w,
            element: None,
            error: Some(ToPathError::ExpectedCubic((base + ix1) as usize)),
        }
    } else {
        let c0 = at(base, ix0);
        let c1 = at(base, ix1);
        let end = if implicit {
            PathPoint::Midway((base + ix1) as usize, (base + curr_ix) as usize)
        } else {
            curr
        };
        Stepped {
            walk: Walk { off_curve_pending: 0, ..w },
            element: Some(PathStep::CurveTo(c0, c1, end)),
            error: None,
        }
    }
}

/// The walk with one more off-curve point waiting.
pub open spec fn push_off_curve(w: Walk, ix: int) -> Walk {
    Walk {
        off_curve: if w.off_curve_pending == 0 {
            (ix, w.off_curve.1)
        } else {
            (w.off_curve.0, ix)
        },
        off_curve_pending: w.off_curve_pending + 1,
        ..w
    }
}

/// One step of the walk along a contour.
pub open spec fn walk_step(
    w: Walk,
    flags: Seq<PointFlags>,
    base: int,
    first_move: PathPoint,
) -> Stepped {
    if w.points_pending > 0 {
        let ix = if w.ix >= flags.len() {
            0int
        } else {
            w.ix
        };
        let taken = Walk { ix: ix + 1, points_pending: w.points_pending - 1, ..w };
        let flag = flags[ix];
        let curr = at(base, ix);
        if is_quad(flag) {
            if w.off_curve_pending > 0 {
                let s = quad_step(taken, flags, base, curr, ix, true);
                if s.error is Some {
                    s
                } else {
                    Stepped { walk: push_off_curve(s.walk, ix), ..s }
                }
            } else {
                Stepped { walk: push_off_curve(taken, ix), element: None, error: None }
            }
        } else if is_cubic(flag) {
            if w.off_curve_pending > 1 {
                let s = cubic_step(taken, flags, base, curr, ix, true);
                if s.error is Some {
                    s
                } else {
                    Stepped { walk: push_off_curve(s.walk, ix), ..s }
                }
            } else {
                Stepped { walk: push_off_curve(taken, ix), element: None, error: None }
            }
        } else if w.off_curve_pending == 2 {
            cubic_step(taken, flags, base, curr, ix, false)
        } else if w.off_curve_pending == 1 {
            quad_step(taken, flags, base, curr, ix, false)
        } else {
            Stepped { walk: taken, element: Some(PathStep::LineTo(curr)), error: None }
        }
    } else if w.off_curve_pending == 2 {
        cubic_step(w, flags, base, first_move, 0, false)
    } else if w.off_curve_pending == 1 {
        quad_step(w, flags, base, first_move, 0, false)
    } else {
        Stepped { walk: w, element: None, error: None }
    }
}

/// The path elements of a walk from a state on, and the error that ends it
/// if any.
pub open spec fn walk_from(
    w: Walk,
    flags: Seq<PointFlags>,
    base: int,
    first_move: PathPoint,
) -> (Seq<PathStep>, Option<ToPathError>)
    decreases w.points_pending, w.off_curve_pending,
{
    if !walk_ok(w, flags) || (w.points_pending == 0 && w.off_curve_pending == 0) {
        (Seq::empty(), None)
    } else {
        let s = walk_step(w, flags, base, first_move);
        let added = match s.element {
            None => Seq::<PathStep>::empty(),
            Some(e) => seq![e],
        };
        if s.error is Some {
            (added, s.error)
        } else if w.points_pending == 0 {
            (added, None)
        } else {
            let rest = walk_from(s.walk, flags, base, first_move);
            (added + rest.0, rest.1)
        }
    }
}

/// Where a contour begins: the first move, the number of the first point of
/// the walk, and the number of points to take. An error if the first point
/// is a cubic off-curve point.
pub open spec fn contour_start(flags: Seq<PointFlags>, base: int, style: ToPathStyle) -> (
    PathPoint,
    int,
    int,
) {
    let len = flags.len() as int;
    if is_quad(flags[0]) {
        let maybe = match style {
            ToPathStyle::FreeType => len - 1,
            ToPathStyle::HarfBuzz => if 1 <= len - 1 {
                1
            } else {
                len - 1
            },
        };
        if is_on(flags[maybe]) {
            (at(base, maybe), maybe + 1, len - 1)
        } else {
            (
                PathPoint::Midway(base as usize, (base + maybe) as usize),
                match style {
                    ToPathStyle::FreeType => 0int,
                    ToPathStyle::HarfBuzz => 1int,
                },
                len,
            )
        }
    } else {
        (at(base, 0), 1, len - 1)
    }
}

/// The path of one contour: a move, the elements of the walk, and the
/// closing. Nothing for a contour without points.
pub open spec fn contour_path(flags: Seq<PointFlags>, base: int, style: ToPathStyle) -> (
    Seq<PathStep>,
    Option<ToPathError>,
) {
    if flags.len() == 0 {
        (Seq::empty(), None)
    } else if is_cubic(flags[0]) {
        (Seq::empty(), Some(ToPathError::ExpectedQuadOrOnCurve(base as usize)))
    } else {
        let start = contour_start(flags, base, style);
        let w = Walk { ix: start.1, points_pending: start.2, off_curve: (0, 0), off_curve_pending: 0 };
        if w.points_pending == 0 {
            (Seq::empty(), None)
        } else {
            let walked = walk_from(w, flags, base, start.0);
            if walked.1 is Some {
                (seq![PathStep::MoveTo(start.0)] + walked.0, walked.1)
            } else {
                ((seq![PathStep::MoveTo(start.0)] + walked.0).push(PathStep::Close), None)
            }
        }
    }
}

/// Where contour number `k` begins: behind the end of the contour before.
pub open spec fn contour_begin(contours: Seq<u16>, k: int) -> int {
    if k > 0 {
        contours[k - 1] + 1
    } else {
        0
    }
}

/// The path of the contours from number `k` on, of an outline of `n`
/// points. An error if a contour ends before it begins or beyond the points.
pub open spec fn path_from(
    n: int,
    flags: Seq<PointFlags>,
    contours: Seq<u16>,
    style: ToPathStyle,
    k: int,
) -> (Seq<PathStep>, Option<ToPathError>)
    decreases contours.len() - k,
{
    if k < 0 || k >= contours.len() {
        (Seq::empty(), None)
    } else {
        let start = contour_begin(contours, k);
        let end = contours[k] as int;
        if end < start || end >= n {
            (Seq::empty(), Some(ToPathError::ContourOrder(k as usize)))
        } else {
            let one = contour_path(flags.subrange(start, end + 1), start, style);
            if one.1 is Some {
                one
            } else {
                let rest = path_from(n, flags, contours, style, k + 1);
                (one.0 + rest.0, rest.1)
            }
        }
    }
}

/// Every contour from number `k` on that is walked has a flag for each of its
/// points. A contour is walked if no contour before it has an error, and if
/// it ends neither before it begins nor beyond the `n` points.
pub open spec fn flags_suffice(
    n: int,
    flags: Seq<PointFlags>,
    contours: Seq<u16>,
    style: ToPathStyle,
    k: int,
) -> bool
    decreases contours.len() - k,
{
    if k < 0 || k >= contours.len() {
        true
    } else {
        let start = contour_begin(contours, k);
        let end = contours[k] as int;
        if end < start || end >= n {
            true
        } else {
            &&& end < flags.len()
            &&& contour_path(flags.subrange(start, end + 1), start, style).1 is Some
                || flags_suffice(n, flags, contours, style, k + 1)
        }
    }
}

/// With a flag for every point, every contour that is walked has its flags.
pub proof fn lemma_flags_suffice(
    n: int,
    flags: Seq<PointFlags>,
    contours: Seq<u16>,
    style: ToPathStyle,
    k: int,
)
    requires
        flags.len() >= n,
    ensures
        flags_suffice(n, flags, contours, style, k),
    decreases contours.len() - k,
{
    if 0 <= k < contours.len() {
        lemma_flags_suffice(n, flags, contours, style, k + 1);
    }
}

/// Every point that the path point speaks of is one of the first `n` points
/// of the outline.
pub open spec fn point_within(p: PathPoint, n: int) -> bool {
    match p {
        PathPoint::At(i) => i < n,
        PathPoint::Midway(i, j) => i < n && j < n,
    }
}

/// Every point that the step speaks of is one of the first `n` points of the
/// outline.
pub open spec fn step_within(s: PathStep, n: int) -> bool {
    match s {
        PathStep::MoveTo(p) => point_within(p, n),
        PathStep::LineTo(p) => point_within(p, n),
        PathStep::QuadTo(c, p) => point_within(c, n) && point_within(p, n),
        PathStep::CurveTo(c0, c1, p) => point_within(c0, n) && point_within(c1, n) && point_within(
            p,
            n,
        ),
        PathStep::Close => true,
    }
}

/// Every step is within the first `n` points of the outline.
pub open spec fn steps_within(steps: Seq<PathStep>, n: int) -> bool {
    forall|k: int| 0 <= k < steps.len() ==> step_within(#[trigger] steps[k], n)
}

/// Where a path point lies, among the given points.
pub open spec fn point_of(points: Seq<Point>, p: PathPoint) -> Point {
    match p {
        PathPoint::At(i) => points[i as int],
        PathPoint::Midway(i, j) => spec_midpoint(points[i as int], points[j as int]),
    }
}

/// A step with the coordinates of its points.
pub open spec fn element_of(points: Seq<Point>, s: PathStep) -> PathElement {
    match s {
        PathStep::MoveTo(p) => PathElement::MoveTo(point_of(points, p)),
        PathStep::LineTo(p) => PathElement::LineTo(point_of(points, p)),
        PathStep::QuadTo(c, p) => PathElement::QuadTo(point_of(points, c), point_of(points, p)),
        PathStep::CurveTo(c0, c1, p) => PathElement::CurveTo(
            point_of(points, c0),
            point_of(points, c1),
            point_of(points, p),
        ),
        PathStep::Close => PathElement::Close,
    }
}

/// The steps with the coordinates of their points.
pub open spec fn elements_of(points: Seq<Point>, steps: Seq<PathStep>) -> Seq<PathElement> {
    Seq::new(steps.len(), |k: int| element_of(points, steps[k]))
}

impl PathPoint {
    /// Where the point lies, among the given points.
    pub fn resolve(self, points: &[Point]) -> (r: Point)
        requires
            point_within(self, points@.len() as int),
        ensures
            r == point_of(points@, self),
    {
        match self {
            PathPoint::At(i) => points[i],
            PathPoint::Midway(i, j) => midpoint(points[i], points[j]),
        }
    }
}

impl PathStep {
    /// The step with the coordinates of its points.
    pub fn resolve(self, points: &[Point]) -> (r: PathElement)
        requires
            step_within(self, points@.len() as int),
        ensures
            r == element_of(points@, self),
    {
        match self {
            PathStep::MoveTo(p) => PathElement::MoveTo(p.resolve(points)),
            PathStep::LineTo(p) => PathElement::LineTo(p.resolve(points)),
            PathStep::QuadTo(c, p) => PathElement::QuadTo(c.resolve(points), p.resolve(points)),
            PathStep::CurveTo(c0, c1, p) => PathElement::CurveTo(
                c0.resolve(points),
                c1.resolve(points),
                p.resolve(points),
            ),
            PathStep::Close => PathElement::Close,
        }
    }
}

/// One contour of an outline. The walk along it looks at the flags alone, so
/// the points may be of any kind.
pub struct Contour<'a, P> {
    /// The number of the first point of the contour among all points of the
    /// outline.
    pub base_offset: usize,
    /// The points of the contour.
    pub points: &'a [P],
    /// The flags of the points.
    pub flags: &'a [PointFlags],
    pub path_style: ToPathStyle,
}

/// The walk along a contour.
pub struct ContourIter<'a> {
    pub base_offset: usize,
    pub flags: &'a [PointFlags],
    /// The number of the next point; the point behind the last is the first.
    pub ix: usize,
    /// How many points are still to be taken.
    pub points_pending: usize,
    pub first_move: PathPoint,
    /// The off-curve points that wait for the end of their curve.
    pub off_curve: [usize; 2],
    /// How many of them wait.
    pub off_curve_pending: usize,
}

impl<'a> ContourIter<'a> {
    /// The state of the walk, as the model has it.
    pub open spec fn walk(&self) -> Walk {
        Walk {
            ix: self.ix as int,
            points_pending: self.points_pending as int,
            off_curve: (self.off_curve@[0] as int, self.off_curve@[1] as int),
            off_curve_pending: self.off_curve_pending as int,
        }
    }

    /// The number behind the last point of the contour, among all points of
    /// the outline.
    pub open spec fn bound(&self) -> int {
        self.base_offset + self.flags@.len()
    }

    /// The walk is within its contour, and the numbers of the points of the
    /// contour among all points can be told.
    pub open spec fn wf(&self) -> bool {
        &&& walk_ok(self.walk(), self.flags@)
        &&& self.bound() <= usize::MAX
        &&& self.flags@.len() > 0 ==> point_within(self.first_move, self.bound())
    }

    /// The walk at the beginning of a contour.
    pub fn new<P>(contour: &Contour<'a, P>) -> (r: Result<ContourIter<'a>, ToPathError>)
        requires
            contour.points@.len() == contour.flags@.len(),
            contour.base_offset + contour.flags@.len() <= usize::MAX,
        ensures
            match r {
                Err(e) => contour.flags@.len() > 0 && is_cubic(contour.flags@[0]) && e
                    == ToPathError::ExpectedQuadOrOnCurve(contour.base_offset),
                Ok(it) => {
                    &&& it.wf()
                    &&& it.flags@ == contour.flags@
                    &&& it.base_offset == contour.base_offset
                    &&& it.off_curve_pending == 0
                    &&& it.off_curve@[0] == 0
                    &&& it.off_curve@[1] == 0
                    &&& contour.flags@.len() == 0 ==> it.points_pending == 0
                    &&& contour.flags@.len() > 0 ==> !is_cubic(contour.flags@[0]) && (
                    it.first_move,
                    it.ix as int,
                    it.points_pending as int,
                    ) == contour_start(
                        contour.flags@,
                        contour.base_offset as int,
                        contour.path_style,
                    )
                },
            },
    {
        let len: usize = contour.flags.len();
        let base: usize = contour.base_offset;
        let mut start_ix: usize = 0;
        let mut num_pending: usize = len;
        let mut first_move = PathPoint::At(base);
        if len > 0 {
            if contour.flags[0].is_off_curve_cubic() {
                return Err(ToPathError::ExpectedQuadOrOnCurve(contour.base_offset));
            }
            // The first move goes to the first point, unless that is off
            // the curve.
            if contour.flags[0].is_off_curve_quad() {
                let maybe_oncurve_ix: usize = match contour.path_style {
                    ToPathStyle::FreeType => len - 1,
                    ToPathStyle::HarfBuzz => if 1 <= len - 1 {
                        1
                    } else {
                        len - 1
                    },
                };
                if contour.flags[maybe_oncurve_ix].is_on_curve() {
                    start_ix = maybe_oncurve_ix + 1;
                    first_move = PathPoint::At(base + maybe_oncurve_ix);
                    num_pending = num_pending - 1;
                } else {
                    // That point is off the curve too: the contour begins
                    // half way between the two.
                    first_move = PathPoint::Midway(base, base + maybe_oncurve_ix);
                    start_ix = match contour.path_style {
                        ToPathStyle::FreeType => 0,
                        ToPathStyle::HarfBuzz => 1,
                    };
                }
            } else {
                start_ix = 1;
                num_pending = num_pending - 1;
            }
        }
        Ok(
            ContourIter {
                base_offset: contour.base_offset,
                flags: contour.flags,
                ix: start_ix,
                points_pending: num_pending,
                first_move,
                off_curve: [0, 0],
                off_curve_pending: 0,
            },
        )
    }

    /// One more off-curve point waits.
    fn push_off_curve(&mut self, ix: usize)
        requires
            old(self).off_curve_pending < 2,
        ensures
            final(self).walk() == push_off_curve(old(self).walk(), ix as int),
            final(self).flags == old(self).flags,
            final(self).base_offset == old(self).base_offset,
            final(self).first_move == old(self).first_move,
    {
        if self.off_curve_pending == 0 {
            self.off_curve = [ix, self.off_curve[1]];
        } else {
            self.off_curve = [self.off_curve[0], ix];
        }
        self.off_curve_pending = self.off_curve_pending + 1;
    }

    /// Ends the waiting off-curve point with a quadratic curve, to `curr`, or
    /// to the point half way to point `curr_ix` of the contour.
    fn quad_to(&mut self, curr: PathPoint, curr_ix: usize, implicit: bool) -> (r: Result<
        PathStep,
        ToPathError,
    >)
        requires
            old(self).wf(),
            old(self).off_curve_pending >= 1,
            point_within(curr, old(self).bound()),
            curr_ix < old(self).flags@.len() || !implicit,
        ensures
            ({
                let s = quad_step(
                    old(self).walk(),
                    old(self).flags@,
                    old(self).base_offset as int,
                    curr,
                    curr_ix as int,
                    implicit,
                );
                &&& final(self).walk() == s.walk
                &&& match r {
                    Ok(e) => s.element == Some(e) && s.error is None && step_within(
                        e,
                        old(self).bound(),
                    ),
                    Err(e) => s.error == Some(e),
                }
            }),
            final(self).flags == old(self).flags,
            final(self).base_offset == old(self).base_offset,
            final(self).first_move == old(self).first_move,
    {
        let buf_ix: usize = self.off_curve[0];
        if !self.flags[buf_ix].is_off_curve_quad() {
            return Err(ToPathError::ExpectedQuad(self.base_offset + buf_ix));
        }
        let c0 = PathPoint::At(self.base_offset + buf_ix);
        let end = if implicit {
            PathPoint::Midway(self.base_offset + buf_ix, self.base_offset + curr_ix)
        } else {
            curr
        };
        self.off_curve_pending = 0;
        Ok(PathStep::QuadTo(c0, end))
    }

    /// Ends the two waiting off-curve points with a cubic curve, to `curr`,
    /// or to the point half way to point `curr_ix` of the contour.
    fn cubic_to(&mut self, curr: PathPoint, curr_ix: usize, implicit: bool) -> (r: Result<
        PathStep,
        ToPathError,
    >)
        requires
            old(self).wf(),
            old(self).off_curve_pending >= 2,
            point_within(curr, old(self).bound()),
            curr_ix < old(self).flags@.len() || !implicit,
        ensures
            ({
                let s = cubic_step(
                    old(self).walk(),
                    old(self).flags@,
                    old(self).base_offset as int,
                    curr,
                    curr_ix as int,
                    implicit,
                );
                &&& final(self).walk() == s.walk
                &&& match r {
                    Ok(e) => s.element == Some(e) && s.error is None && step_within(
                        e,
                        old(self).bound(),
                    ),
                    Err(e) => s.error == Some(e),
                }
            }),
            final(self).flags == old(self).flags,
            final(self).base_offset == old(self).base_offset,
            final(self).first_move == old(self).first_move,
    {
        let buf_ix_0: usize = self.off_curve[0];
        let buf_ix_1: usize = self.off_curve[1];
        if !self.flags[buf_ix_0].is_off_curve_cubic() {
            return Err(ToPathError::ExpectedCubic(self.base_offset + buf_ix_0));
        }
        if !self.flags[buf_ix_1].is_off_curve_cubic() {
            return Err(ToPathError::ExpectedCubic(self.base_offset + buf_ix_1));
        }
        let c0 = PathPoint::At(self.base_offset + buf_ix_0);
        let c1 = PathPoint::At(self.base_offset + buf_ix_1);
        let end = if implicit {
            PathPoint::Midway(self.base_offset + buf_ix_1, self.base_offset + curr_ix)
        } else {
            curr
        };
        self.off_curve_pending = 0;
        Ok(PathStep::CurveTo(c0, c1, end))
    }

    /// Whether the walk is at its end.
    pub fn is_empty(&self) -> (r: bool)
        ensures
            r == (self.points_pending == 0 && self.off_curve_pending == 0),
    {
        self.points_pending == 0 && self.off_curve_pending == 0
    }

    /// Takes one step of the walk, and gives the step of the path that it
    /// adds, if it adds one.
    pub fn next(&mut self) -> (r: Result<Option<PathStep>, ToPathError>)
        requires
            old(self).wf(),
        ensures
            ({
                let s = walk_step(
                    old(self).walk(),
                    old(self).flags@,
                    old(self).base_offset as int,
                    old(self).first_move,
                );
                &&& match r {
                    Ok(e) => s.element == e && s.error is None && final(self).walk() == s.walk
                        && final(self).wf() && (e is Some ==> step_within(
                        e->Some_0,
                        old(self).bound(),
                    )),
                    Err(e) => s.error == Some(e),
                }
            }),
            final(self).flags == old(self).flags,
            final(self).base_offset == old(self).base_offset,
            final(self).first_move == old(self).first_move,
    {
        if self.is_empty() {
            return Ok(None);
        }
        if self.points_pending > 0 {
            // The next point of the contour; the numbers go round.
            let ix: usize = if self.ix >= self.flags.len() {
                0
            } else {
                self.ix
            };
            self.points_pending = self.points_pending - 1;
            self.ix = ix + 1;
            let flag = self.flags[ix];
            let curr = PathPoint::At(self.base_offset + ix);
            if flag.is_off_curve_quad() {
                // With an off-curve point waiting there is a point on the
                // curve half way, which ends a curve.
                let element = if self.off_curve_pending > 0 {
                    match self.quad_to(curr, ix, true) {
                        Ok(e) => Some(e),
                        Err(e) => {
                            return Err(e);
                        },
                    }
                } else {
                    None
                };
                self.push_off_curve(ix);
                Ok(element)
            } else if flag.is_off_curve_cubic() {
                // A third cubic off-curve point in a row: between the last
                // two lies a point on the curve.
                let element = if self.off_curve_pending > 1 {
                    match self.cubic_to(curr, ix, true) {
                        Ok(e) => Some(e),
                        Err(e) => {
                            return Err(e);
                        },
                    }
                } else {
                    None
                };
                self.push_off_curve(ix);
                Ok(element)
            } else {
                // A point on the curve: what is drawn depends on how many
                // off-curve points wait.
                if self.off_curve_pending == 2 {
                    match self.cubic_to(curr, ix, false) {
                        Ok(e) => Ok(Some(e)),
                        Err(e) => Err(e),
                    }
                } else if self.off_curve_pending == 1 {
                    match self.quad_to(curr, ix, false) {
                        Ok(e) => Ok(Some(e)),
                        Err(e) => Err(e),
                    }
                } else {
                    Ok(Some(PathStep::LineTo(curr)))
                }
            }
        } else {
            // No point is left: the waiting off-curve points end at the
            // first move.
            let first_move = self.first_move;
            if self.off_curve_pending == 2 {
                match self.cubic_to(first_move, 0, false) {
                    Ok(e) => Ok(Some(e)),
                    Err(e) => Err(e),
                }
            } else {
                match self.quad_to(first_move, 0, false) {
                    Ok(e) => Ok(Some(e)),
                    Err(e) => Err(e),
                }
            }
        }
    }
}

impl<'a, P> Contour<'a, P> {
    /// The contour of the given points and flags, of which there have to be
    /// as many.
    pub fn new(
        base_offset: usize,
        points: &'a [P],
        flags: &'a [PointFlags],
        path_style: ToPathStyle,
    ) -> (r: Result<Contour<'a, P>, ToPathError>)
        ensures
            match r {
                Ok(c) => points@.len() == flags@.len() && c.base_offset == base_offset && c.points@
                    == points@ && c.flags@ == flags@ && c.path_style == path_style,
                Err(e) => points@.len() != flags@.len() && e == (ToPathError::PointFlagMismatch {
                    num_points: points@.len() as usize,
                    num_flags: flags@.len() as usize,
                }),
            },
    {
        if points.len() != flags.len() {
            return Err(
                ToPathError::PointFlagMismatch { num_points: points.len(), num_flags: flags.len() },
            );
        }
        Ok(Contour { base_offset, points, flags, path_style })
    }

    /// Adds the steps of the path of the contour to `path`.
    pub fn draw(self, path: &mut Vec<PathStep>) -> (r: Result<(), ToPathError>)
        requires
            self.points@.len() == self.flags@.len(),
            self.base_offset + self.flags@.len() <= usize::MAX,
        ensures
            ({
                let drawn = contour_path(self.flags@, self.base_offset as int, self.path_style);
                &&& final(path)@ == old(path)@ + drawn.0
                &&& steps_within(drawn.0, self.base_offset + self.flags@.len())
                &&& match r {
                    Ok(_) => drawn.1 is None,
                    Err(e) => drawn.1 == Some(e),
                }
            }),
    {
        let ghost before = path@;
        let ghost bound = self.base_offset + self.flags@.len();
        let ghost drawn = contour_path(self.flags@, self.base_offset as int, self.path_style);
        let mut it = match ContourIter::new(&self) {
            Ok(it) => it,
            Err(e) => {
                proof {
                    assert(before + drawn.0 =~= before);
                }
                return Err(e);
            },
        };
        if it.is_empty() {
            proof {
                assert(before + drawn.0 =~= before);
            }
            return Ok(());
        }
        let first_move = it.first_move;
        path.push(PathStep::MoveTo(first_move));
        let ghost start = it.walk();
        let ghost walked = walk_from(start, it.flags@, it.base_offset as int, first_move);
        let ghost head = before.push(PathStep::MoveTo(first_move));
        proof {
            assert(head + walked.0 =~= before + (seq![PathStep::MoveTo(first_move)] + walked.0));
            let begin = contour_start(self.flags@, self.base_offset as int, self.path_style);
            assert(begin == (first_move, it.ix as int, it.points_pending as int));
            assert(start == (Walk {
                ix: begin.1,
                points_pending: begin.2,
                off_curve: (0, 0),
                off_curve_pending: 0,
            }));
            if walked.1 is Some {
                assert(drawn == (seq![PathStep::MoveTo(first_move)] + walked.0, walked.1));
            } else {
                assert(drawn == ((seq![PathStep::MoveTo(first_move)] + walked.0).push(
                    PathStep::Close,
                ), None::<ToPathError>));
            }
        }
        while !it.is_empty()
            invariant
                it.wf(),
                it.flags@ == self.flags@,
                it.base_offset == self.base_offset,
                it.first_move == first_move,
                bound == self.base_offset + self.flags@.len(),
                before == old(path)@,
                drawn == contour_path(self.flags@, self.base_offset as int, self.path_style),
                head + walked.0 == before + (seq![PathStep::MoveTo(first_move)] + walked.0),
                walked.1 is Some ==> drawn == (
                    seq![PathStep::MoveTo(first_move)] + walked.0,
                    walked.1,
                ),
                walked.1 is None ==> drawn == (
                    (seq![PathStep::MoveTo(first_move)] + walked.0).push(PathStep::Close),
                    None::<ToPathError>,
                ),
                before.len() <= path@.len(),
                steps_within(path@.subrange(before.len() as int, path@.len() as int), bound),
                ({
                    let rest = walk_from(it.walk(), it.flags@, it.base_offset as int, first_move);
                    path@ + rest.0 == head + walked.0 && rest.1 == walked.1
                }),
            decreases it.points_pending, it.off_curve_pending,
        {
            let ghost so_far = path@;
            let ghost w0 = it.walk();
            match it.next() {
                Err(e) => {
                    proof {
                        assert(so_far + Seq::<PathStep>::empty() =~= so_far);
                        assert(so_far.subrange(before.len() as int, so_far.len() as int)
                            =~= drawn.0);
                    }
                    return Err(e);
                },
                Ok(element) => {
                    match element {
                        Some(e) => {
                            path.push(e);
                        },
                        None => {},
                    }
                    proof {
                        let rest = walk_from(
                            it.walk(),
                            it.flags@,
                            it.base_offset as int,
                            first_move,
                        );
                        match element {
                            Some(e) => {
                                assert(so_far + (seq![e] + rest.0) =~= so_far.push(e) + rest.0);
                                assert(so_far + seq![e] =~= so_far.push(e));
                            },
                            None => {
                                assert(Seq::<PathStep>::empty() + rest.0 =~= rest.0);
                            },
                        }
                        let fresh = path@.subrange(before.len() as int, path@.len() as int);
                        let stale = so_far.subrange(before.len() as int, so_far.len() as int);
                        assert forall|k: int| 0 <= k < fresh.len() implies step_within(
                            #[trigger] fresh[k],
                            bound,
                        ) by {
                            if k < stale.len() {
                                assert(fresh[k] == stale[k]);
                            }
                        }
                    }
                },
            }
        }
        proof {
            assert(path@ + Seq::<PathStep>::empty() =~= path@);
            assert((before + (seq![PathStep::MoveTo(first_move)] + walked.0)).push(
                PathStep::Close,
            ) =~= before + (seq![PathStep::MoveTo(first_move)] + walked.0).push(PathStep::Close));
        }
        let ghost open_path = path@;
        // There was at least one point: the contour is closed.
        path.push(PathStep::Close);
        proof {
            let fresh = path@.subrange(before.len() as int, path@.len() as int);
            let stale = open_path.subrange(before.len() as int, open_path.len() as int);
            assert(fresh =~= drawn.0);
            assert forall|k: int| 0 <= k < fresh.len() implies step_within(
                #[trigger] fresh[k],
                bound,
            ) by {
                if k < stale.len() {
                    assert(fresh[k] == stale[k]);
                }
            }
        }
        Ok(())
    }
}

/// The steps of the path of an outline, of which the flags of the points and
/// the contours are given.
///
/// `contours` holds the number of the last point of each contour. The steps
/// are added to `path`; if an error is found, those found before it stay
/// there. Every contour that is walked has to have a flag for each of its
/// points, which is so where there are at least as many flags as points.
pub fn path_steps<P>(
    points: &[P],
    flags: &[PointFlags],
    contours: &[u16],
    path_style: ToPathStyle,
    path: &mut Vec<PathStep>,
) -> (r: Result<(), ToPathError>)
    requires
        flags_suffice(points@.len() as int, flags@, contours@, path_style, 0),
    ensures
        ({
            let drawn = path_from(points@.len() as int, flags@, contours@, path_style, 0);
            &&& final(path)@ == old(path)@ + drawn.0
            &&& steps_within(drawn.0, points@.len() as int)
            &&& match r {
                Ok(_) => drawn.1 is None,
                Err(e) => drawn.1 == Some(e),
            }
        }),
{
    let ghost before = path@;
    let ghost fl = flags@;
    let ghost bound = points@.len() as int;
    let ghost all = path_from(bound, fl, contours@, path_style, 0);
    let n: usize = contours.len();
    let mut contour_ix: usize = 0;
    proof {
        assert(before + all.0 =~= before + all.0);
        assert(path@.subrange(before.len() as int, path@.len() as int) =~= Seq::<
            PathStep,
        >::empty());
    }
    while contour_ix < n
        invariant
            contour_ix <= n,
            n == contours@.len(),
            bound == points@.len(),
            fl == flags@,
            flags_suffice(bound, fl, contours@, path_style, contour_ix as int),
            before == old(path)@,
            all == path_from(bound, fl, contours@, path_style, 0),
            before.len() <= path@.len(),
            steps_within(path@.subrange(before.len() as int, path@.len() as int), bound),
            ({
                let rest = path_from(bound, fl, contours@, path_style, contour_ix as int);
                path@ + rest.0 == before + all.0 && rest.1 == all.1
            }),
        decreases n - contour_ix,
    {
        let ghost so_far = path@;
        let start_ix: usize = if contour_ix > 0 {
            contours[contour_ix - 1] as usize + 1
        } else {
            0
        };
        let end_ix: usize = contours[contour_ix] as usize;
        if end_ix < start_ix || end_ix >= points.len() {
            proof {
                assert(so_far + Seq::<PathStep>::empty() =~= so_far);
                assert(path_from(bound, fl, contours@, path_style, contour_ix as int).1 == Some(
                    ToPathError::ContourOrder(contour_ix),
                ));
                assert(so_far.subrange(before.len() as int, so_far.len() as int) =~= all.0);
            }
            return Err(ToPathError::ContourOrder(contour_ix));
        }
        let contour = match Contour::new(
            start_ix,
            slice_subrange(points, start_ix, end_ix + 1),
            slice_subrange(flags, start_ix, end_ix + 1),
            path_style,
        ) {
            Ok(c) => c,
            Err(e) => {
                return Err(e);
            },
        };
        let ghost one = contour_path(contour.flags@, start_ix as int, path_style);
        proof {
            assert(contour.flags@ == fl.subrange(start_ix as int, end_ix + 1));
            assert(start_ix as int == contour_begin(contours@, contour_ix as int));
        }
        let outcome = contour.draw(path);
        proof {
            let fresh = path@.subrange(before.len() as int, path@.len() as int);
            let stale = so_far.subrange(before.len() as int, so_far.len() as int);
            assert forall|k: int| 0 <= k < fresh.len() implies step_within(
                #[trigger] fresh[k],
                bound,
            ) by {
                if k < stale.len() {
                    assert(fresh[k] == stale[k]);
                } else {
                    let step = one.0[k - stale.len()];
                    assert(fresh[k] == step);
                    assert(step_within(step, end_ix + 1));
                }
            }
        }
        match outcome {
            Ok(_) => {},
            Err(e) => {
                proof {
                    assert(path_from(bound, fl, contours@, path_style, contour_ix as int) == one);
                    assert(path@.subrange(before.len() as int, path@.len() as int) =~= all.0);
                }
                return Err(e);
            },
        }
        contour_ix = contour_ix + 1;
        proof {
            let rest = path_from(bound, fl, contours@, path_style, contour_ix as int);
            assert(so_far + (one.0 + rest.0) =~= (so_far + one.0) + rest.0);
        }
    }
    proof {
        assert(path@ + Seq::<PathStep>::empty() =~= path@);
        assert(path@.subrange(before.len() as int, path@.len() as int) =~= all.0);
    }
    Ok(())
}

/// The outline of the given points, flags and contours as a path.
///
/// `contours` holds the number of the last point of each contour. The
/// elements of the path are added to `path`; if an error is found, those
/// found before it stay there. Every contour that is walked has to have a
/// flag for each of its points, which is so where there are at least as many
/// flags as points.
pub fn to_path(
    points: &[Point],
    flags: &[PointFlags],
    contours: &[u16],
    path_style: ToPathStyle,
    path: &mut Vec<PathElement>,
) -> (r: Result<(), ToPathError>)
    requires
        flags_suffice(points@.len() as int, flags@, contours@, path_style, 0),
    ensures
        ({
            let drawn = path_from(points@.len() as int, flags@, contours@, path_style, 0);
            &&& final(path)@ == old(path)@ + elements_of(points@, drawn.0)
            &&& match r {
                Ok(_) => drawn.1 is None,
                Err(e) => drawn.1 == Some(e),
            }
        }),
{
    let ghost before = path@;
    let mut steps: Vec<PathStep> = Vec::new();
    let r = path_steps(points, flags, contours, path_style, &mut steps);
    proof {
        assert(steps@ =~= Seq::<PathStep>::empty() + steps@);
    }
    let n: usize = steps.len();
    let mut k: usize = 0;
    while k < n
        invariant
            k <= n,
            n == steps@.len(),
            steps_within(steps@, points@.len() as int),
            path@ == before + elements_of(points@, steps@.subrange(0, k as int)),
        decreases n - k,
    {
        let element = steps[k].resolve(points);
        path.push(element);
        proof {
            assert(before + elements_of(points@, steps@.subrange(0, k + 1)) =~= (before
                + elements_of(points@, steps@.subrange(0, k as int))).push(element));
        }
        k = k + 1;
    }
    proof {
        assert(steps@.subrange(0, n as int) =~= steps@);
        assert(before + elements_of(points@, steps@.subrange(0, 0)) =~= before);
    }
    r
}

} // verus!
