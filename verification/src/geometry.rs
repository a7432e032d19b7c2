//! Points on the screen, in pixels.

use vstd::prelude::*;

use crate::float::{same, Value};
use crate::single::Single;

verus! {

/// A point in pixels, `y` downwards.
#[derive(Clone, Copy, Debug)]
pub struct Point {
    pub x: Single,
    pub y: Single,
}

/// The two coordinates of a point, as numbers.
pub struct PointValue {
    pub x: Value,
    pub y: Value,
}

/// Four corners: top left, top right, bottom right, bottom left.
pub type Quad = [Point; 4];

/// The corners of a quadrilateral, as numbers.
pub open spec fn quad_value(q: Quad) -> Seq<PointValue> {
    Seq::new(4, |i: int| q[i]@)
}

/// The four corners of the rectangle with the given corner and size.
pub open spec fn rectangle(top_left: PointValue, width: Value, height: Value) -> Seq<PointValue> {
    let right = top_left.x.plus(width);
    let bottom = top_left.y.plus(height);
    seq![
        top_left,
        PointValue { x: right, y: top_left.y },
        PointValue { x: right, y: bottom },
        PointValue { x: top_left.x, y: bottom },
    ]
}

/// All coordinates agree as numbers.
pub open spec fn quad_same(a: Seq<PointValue>, b: Seq<PointValue>) -> bool {
    forall|i: int| 0 <= i < 4 ==> (#[trigger] a[i]).same(b[i])
}

impl PointValue {
    /// Both coordinates agree as numbers.
    pub open spec fn same(self, other: PointValue) -> bool {
        same(self.x, other.x) && same(self.y, other.y)
    }

    /// The point moved right and down by the given distances.
    pub open spec fn shifted(self, x: Value, y: Value) -> PointValue {
        PointValue { x: self.x.plus(x), y: self.y.plus(y) }
    }

    /// The point moved left and up by the given offsets.
    pub open spec fn offset(self, x: Value, y: Value) -> PointValue {
        PointValue { x: self.x.minus(x), y: self.y.minus(y) }
    }
}

impl Point {
    pub open spec fn view(&self) -> PointValue {
        PointValue { x: self.x@, y: self.y@ }
    }

    /// The point with the given coordinates.
    pub fn new(x: Single, y: Single) -> (r: Point)
        ensures
            r.x == x,
            r.y == y,
    {
        Point { x, y }
    }

    /// The point moved right and down by the given distances.
    pub fn shifted(self, x: Single, y: Single) -> (r: Point)
        ensures
            r@ == self@.shifted(x@, y@),
    {
        Point { x: self.x.plus(x), y: self.y.plus(y) }
    }

    /// The point moved left and up by the given offsets.
    pub fn offset(self, x: Single, y: Single) -> (r: Point)
        ensures
            r@ == self@.offset(x@, y@),
    {
        Point { x: self.x.minus(x), y: self.y.minus(y) }
    }
}

impl Default for Point {
    fn default() -> (r: Point)
        ensures
            r@ == (PointValue { x: Value::zero(), y: Value::zero() }),
    {
        Point { x: Single::zero(), y: Single::zero() }
    }
}

impl PartialEq for Point {
    fn eq(&self, other: &Point) -> (r: bool) {
        self.x.same(other.x) && self.y.same(other.y)
    }
}

impl vstd::std_specs::cmp::PartialEqSpecImpl for Point {
    open spec fn obeys_eq_spec() -> bool {
        true
    }

    open spec fn eq_spec(&self, other: &Point) -> bool {
        self@.same(other@)
    }
}

/// Whether all coordinates of two quadrilaterals agree as numbers.
pub fn same_quad(a: &Quad, b: &Quad) -> (r: bool)
    ensures
        r == quad_same(quad_value(*a), quad_value(*b)),
{
    let mut i: usize = 0;
    while i < 4
        invariant
            i <= 4,
            forall|j: int| 0 <= j < i ==> quad_value(*a)[j].same(quad_value(*b)[j]),
        decreases 4 - i,
    {
        if !(a[i].x.same(b[i].x) && a[i].y.same(b[i].y)) {
            assert(!quad_value(*a)[i as int].same(quad_value(*b)[i as int]));
            return false;
        }
        i = i + 1;
    }
    true
}

/// The four corners of a rectangle.
pub fn rectangle_quad(top_left: Point, width: Single, height: Single) -> (r: Quad)
    ensures
        quad_value(r) == rectangle(top_left@, width@, height@),
{
    let right: Single = top_left.x.plus(width);
    let bottom: Single = top_left.y.plus(height);
    let r: Quad = [
        top_left,
        Point::new(right, top_left.y),
        Point::new(right, bottom),
        Point::new(top_left.x, bottom),
    ];
    assert(quad_value(r) =~= rectangle(top_left@, width@, height@));
    r
}

} // verus!
