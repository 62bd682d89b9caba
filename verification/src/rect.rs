//! Axis-aligned rectangles and the geometry predicates that drive the
//! quadtree: interval overlap on each axis, full intersection, and the
//! split of a rectangle into four quadrants.

use vstd::prelude::*;

use crate::Point;

verus! {

/// Largest coordinate magnitude a well-formed rectangle may hold. Keeping
/// corners within this bound keeps every difference and midpoint the tree
/// computes inside `i64`.
pub const COORD_LIMIT: i64 = 0x2000_0000_0000_0000;

/// An axis-aligned rectangle, given by its top-left and bottom-right
/// corners. Well-formed rectangles (see [`rect_wf`]) have `top_left`
/// component-wise no greater than `bottom_right`; the library does not
/// normalize malformed input, it is a caller contract.
#[derive(Copy, Clone, Debug, PartialEq, Eq, Structural)]
pub struct Rect {
    pub top_left: Point,
    pub bottom_right: Point,
}

/// A rectangle whose corners are ordered and within coordinate bounds.
pub open spec fn rect_wf(r: Rect) -> bool {
    &&& -COORD_LIMIT <= r.top_left.x
    &&& r.top_left.x <= r.bottom_right.x
    &&& r.bottom_right.x <= COORD_LIMIT
    &&& -COORD_LIMIT <= r.top_left.y
    &&& r.top_left.y <= r.bottom_right.y
    &&& r.bottom_right.y <= COORD_LIMIT
}

/// The closed x-projections of `a` and `b` share at least one value.
pub open spec fn x_overlap(a: Rect, b: Rect) -> bool {
    a.top_left.x <= b.bottom_right.x && b.top_left.x <= a.bottom_right.x
}

/// The closed y-projections of `a` and `b` share at least one value.
pub open spec fn y_overlap(a: Rect, b: Rect) -> bool {
    a.top_left.y <= b.bottom_right.y && b.top_left.y <= a.bottom_right.y
}

/// The two rectangles intersect as closed boxes: touching edges and
/// corners count as intersecting.
pub open spec fn spec_intersects(a: Rect, b: Rect) -> bool {
    x_overlap(a, b) && y_overlap(a, b)
}

/// Midpoint of the x-projection; the vertical split line of a quadrant
/// subdivision.
pub open spec fn mid_x(r: Rect) -> int {
    r.top_left.x + (r.bottom_right.x - r.top_left.x) / 2
}

/// Midpoint of the y-projection; the horizontal split line of a quadrant
/// subdivision.
pub open spec fn mid_y(r: Rect) -> int {
    r.top_left.y + (r.bottom_right.y - r.top_left.y) / 2
}

/// A rectangle wide and tall enough that its quadrants are strictly
/// smaller. Below this size a leaf is allowed to exceed its nominal
/// capacity, which bounds the depth of the tree.
pub open spec fn splittable(r: Rect) -> bool {
    r.bottom_right.x - r.top_left.x >= 2 && r.bottom_right.y - r.top_left.y >= 2
}

/// Width plus height; the measure that shrinks from a rectangle to each of
/// its quadrants.
pub open spec fn rect_size(r: Rect) -> nat {
    ((r.bottom_right.x - r.top_left.x) + (r.bottom_right.y - r.top_left.y)) as nat
}

/// The top-left quadrant of `r`.
pub open spec fn quad_top_left(r: Rect) -> Rect {
    Rect {
        top_left: r.top_left,
        bottom_right: Point { x: mid_x(r) as i64, y: mid_y(r) as i64 },
    }
}

/// The top-right quadrant of `r`.
pub open spec fn quad_top_right(r: Rect) -> Rect {
    Rect {
        top_left: Point { x: mid_x(r) as i64, y: r.top_left.y },
        bottom_right: Point { x: r.bottom_right.x, y: mid_y(r) as i64 },
    }
}

/// The bottom-left quadrant of `r`.
pub open spec fn quad_bottom_left(r: Rect) -> Rect {
    Rect {
        top_left: Point { x: r.top_left.x, y: mid_y(r) as i64 },
        bottom_right: Point { x: mid_x(r) as i64, y: r.bottom_right.y },
    }
}

/// The bottom-right quadrant of `r`.
pub open spec fn quad_bottom_right(r: Rect) -> Rect {
    Rect {
        top_left: Point { x: mid_x(r) as i64, y: mid_y(r) as i64 },
        bottom_right: r.bottom_right,
    }
}

/// `(x, y)` lies in the closed box `r`.
pub open spec fn point_in_rect(r: Rect, x: int, y: int) -> bool {
    r.top_left.x <= x <= r.bottom_right.x && r.top_left.y <= y <= r.bottom_right.y
}

/// `(x, y)` lies strictly inside `r`, away from every edge.
pub open spec fn point_strictly_in_rect(r: Rect, x: int, y: int) -> bool {
    r.top_left.x < x < r.bottom_right.x && r.top_left.y < y < r.bottom_right.y
}

/// Every point of the closed box `inner` lies in the closed box `outer`.
pub open spec fn rect_contains(outer: Rect, inner: Rect) -> bool {
    &&& outer.top_left.x <= inner.top_left.x
    &&& inner.bottom_right.x <= outer.bottom_right.x
    &&& outer.top_left.y <= inner.top_left.y
    &&& inner.bottom_right.y <= outer.bottom_right.y
}

impl Rect {
    /// Builds a rectangle from two corner points. No validation is
    /// performed: a caller that hands corners out of order gets a
    /// malformed rectangle, and later queries over it are a caller
    /// contract, not a checked error.
    pub fn new(top_left: Point, bottom_right: Point) -> (r: Self)
        ensures
            r.top_left == top_left,
            r.bottom_right == bottom_right,
    {
        Self { top_left, bottom_right }
    }

    /// The point's x-coordinate falls within this rectangle's closed
    /// x-projection.
    fn point_in_x_range(&self, point: &Point) -> (r: bool)
        ensures
            r == (self.top_left.x <= point.x <= self.bottom_right.x),
    {
        point.x >= self.top_left.x && point.x <= self.bottom_right.x
    }

    /// The point's y-coordinate falls within this rectangle's closed
    /// y-projection.
    fn point_in_y_range(&self, point: &Point) -> (r: bool)
        ensures
            r == (self.top_left.y <= point.y <= self.bottom_right.y),
    {
        point.y >= self.top_left.y && point.y <= self.bottom_right.y
    }

    /// The x-projections overlap: a corner of `other` falls in this
    /// rectangle's x-range, or a corner of this rectangle falls in
    /// `other`'s.
    pub(crate) fn in_x_range(&self, other: &Rect) -> (r: bool)
        requires
            rect_wf(*self),
            rect_wf(*other),
        ensures
            r == x_overlap(*self, *other),
    {
        self.point_in_x_range(&other.top_left) || self.point_in_x_range(&other.bottom_right)
            || other.point_in_x_range(&self.top_left)
    }

    /// The y-projections overlap: a corner of `other` falls in this
    /// rectangle's y-range, or a corner of this rectangle falls in
    /// `other`'s.
    pub(crate) fn in_y_range(&self, other: &Rect) -> (r: bool)
        requires
            rect_wf(*self),
            rect_wf(*other),
        ensures
            r == y_overlap(*self, *other),
    {
        self.point_in_y_range(&other.top_left) || self.point_in_y_range(&other.bottom_right)
            || other.point_in_y_range(&self.top_left)
    }

    /// Full axis-aligned intersection: the projections overlap on both
    /// axes. Touching edges and corners count as intersecting.
    pub fn intersects(&self, other: &Rect) -> (r: bool)
        requires
            rect_wf(*self),
            rect_wf(*other),
        ensures
            r == spec_intersects(*self, *other),
    {
        self.in_x_range(other) && self.in_y_range(other)
    }

    /// Subdivides this rectangle into four equal quadrants and returns a
    /// branch body of four fresh empty leaves, one per quadrant. The two
    /// midpoints are computed once and shared by all four children, so the
    /// quadrants meet exactly on the split lines, with no gaps.
    pub(crate) fn split<T, const N: usize>(self) -> (s: crate::Split<T, N>)
        requires
            rect_wf(self),
        ensures
            s.top_left.bounds() == quad_top_left(self),
            s.top_right.bounds() == quad_top_right(self),
            s.bottom_left.bounds() == quad_bottom_left(self),
            s.bottom_right.bounds() == quad_bottom_right(self),
            s.top_left.inv() && !s.top_left.is_branch(),
            s.top_right.inv() && !s.top_right.is_branch(),
            s.bottom_left.inv() && !s.bottom_left.is_branch(),
            s.bottom_right.inv() && !s.bottom_right.is_branch(),
            s.top_left.contents() == Seq::<(T, Rect)>::empty(),
            s.top_right.contents() == Seq::<(T, Rect)>::empty(),
            s.bottom_left.contents() == Seq::<(T, Rect)>::empty(),
            s.bottom_right.contents() == Seq::<(T, Rect)>::empty(),
    {
        proof {
            lemma_quadrants_wf(self);
        }
        let half_width = (self.bottom_right.x - self.top_left.x) / 2;
        let half_height = (self.bottom_right.y - self.top_left.y) / 2;
        let x_mid = self.top_left.x + half_width;
        let y_mid = self.top_left.y + half_height;
        let top_left = Rect::new(self.top_left, Point { x: x_mid, y: y_mid });
        let top_right = Rect::new(
            Point { x: x_mid, y: self.top_left.y },
            Point { x: self.bottom_right.x, y: y_mid },
        );
        let bottom_left = Rect::new(
            Point { x: self.top_left.x, y: y_mid },
            Point { x: x_mid, y: self.bottom_right.y },
        );
        let bottom_right = Rect::new(Point { x: x_mid, y: y_mid }, self.bottom_right);
        crate::Split {
            top_left: crate::QuadTree::new(top_left),
            top_right: crate::QuadTree::new(top_right),
            bottom_left: crate::QuadTree::new(bottom_left),
            bottom_right: crate::QuadTree::new(bottom_right),
        }
    }

    /// This rectangle is large enough for quadrants strictly smaller than
    /// itself on both axes.
    pub(crate) fn can_split(&self) -> (r: bool)
        requires
            rect_wf(*self),
        ensures
            r == splittable(*self),
    {
        self.bottom_right.x - self.top_left.x >= 2 && self.bottom_right.y - self.top_left.y >= 2
    }
}

/// A capability contract: any shape a caller wants indexed must produce
/// the axis-aligned rectangle that conservatively bounds it. This is the
/// sole extension point for indexing arbitrary shapes; the index itself
/// only ever sees the bounding rectangle.
pub trait ToRect {
    /// The bounding rectangle, at the specification level.
    spec fn spec_rect(&self) -> Rect;

    /// Computes the bounding rectangle of this shape.
    fn to_rect(&self) -> (r: Rect)
        ensures
            r == self.spec_rect(),
    ;
}

impl ToRect for Rect {
    open spec fn spec_rect(&self) -> Rect {
        *self
    }

    fn to_rect(&self) -> (r: Rect) {
        *self
    }
}

/// A rectangle that touches an inner region touches every region
/// containing it.
pub proof fn lemma_contained_intersects(outer: Rect, inner: Rect, b: Rect)
    requires
        rect_contains(outer, inner),
        spec_intersects(inner, b),
    ensures
        spec_intersects(outer, b),
{
}

/// Intersection is reflexive: every well-formed rectangle intersects
/// itself, degenerate (zero-width or zero-height) ones included.
pub proof fn lemma_intersects_reflexive(a: Rect)
    requires
        rect_wf(a),
    ensures
        spec_intersects(a, a),
{
}

/// Intersection is symmetric: `a` intersects `b` exactly when `b`
/// intersects `a`.
pub proof fn lemma_intersects_symmetric(a: Rect, b: Rect)
    ensures
        spec_intersects(a, b) == spec_intersects(b, a),
{
}

/// The quadrants of a well-formed rectangle are themselves well-formed,
/// and each lies within its parent.
pub proof fn lemma_quadrants_wf(r: Rect)
    requires
        rect_wf(r),
    ensures
        rect_wf(quad_top_left(r)),
        rect_wf(quad_top_right(r)),
        rect_wf(quad_bottom_left(r)),
        rect_wf(quad_bottom_right(r)),
        rect_contains(r, quad_top_left(r)),
        rect_contains(r, quad_top_right(r)),
        rect_contains(r, quad_bottom_left(r)),
        rect_contains(r, quad_bottom_right(r)),
{
}

/// Quadrants of a splittable rectangle are strictly smaller: each loses
/// at least one unit of width and one of height.
pub proof fn lemma_quadrant_size(r: Rect)
    requires
        rect_wf(r),
        splittable(r),
    ensures
        rect_size(quad_top_left(r)) + 2 <= rect_size(r),
        rect_size(quad_top_right(r)) + 2 <= rect_size(r),
        rect_size(quad_bottom_left(r)) + 2 <= rect_size(r),
        rect_size(quad_bottom_right(r)) + 2 <= rect_size(r),
{
}

/// A well-formed rectangle that intersects a splittable parent intersects
/// at least one of the parent's quadrants.
pub proof fn lemma_intersects_some_quadrant(r: Rect, b: Rect)
    requires
        rect_wf(r),
        splittable(r),
        rect_wf(b),
        spec_intersects(b, r),
    ensures
        spec_intersects(b, quad_top_left(r)) || spec_intersects(b, quad_top_right(r))
            || spec_intersects(b, quad_bottom_left(r)) || spec_intersects(b, quad_bottom_right(r)),
{
}

/// Partition correctness of a quadrant subdivision: the four quadrants of
/// a well-formed rectangle cover exactly the parent's points, and no point
/// lies strictly inside two different quadrants.
pub proof fn lemma_quadrants_partition(r: Rect)
    requires
        rect_wf(r),
    ensures
        forall|x: int, y: int|
            point_in_rect(r, x, y) <==> (point_in_rect(quad_top_left(r), x, y)
                || point_in_rect(quad_top_right(r), x, y)
                || point_in_rect(quad_bottom_left(r), x, y)
                || point_in_rect(quad_bottom_right(r), x, y)),
        forall|x: int, y: int|
            point_strictly_in_rect(quad_top_left(r), x, y)
                ==> !point_strictly_in_rect(quad_top_right(r), x, y)
                    && !point_strictly_in_rect(quad_bottom_left(r), x, y)
                    && !point_strictly_in_rect(quad_bottom_right(r), x, y),
        forall|x: int, y: int|
            point_strictly_in_rect(quad_top_right(r), x, y)
                ==> !point_strictly_in_rect(quad_bottom_left(r), x, y)
                    && !point_strictly_in_rect(quad_bottom_right(r), x, y),
        forall|x: int, y: int|
            point_strictly_in_rect(quad_bottom_left(r), x, y)
                ==> !point_strictly_in_rect(quad_bottom_right(r), x, y),
{
}

} // verus!
