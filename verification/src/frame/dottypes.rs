//! Points, vectors, sizes and rectangles of the pixel ("dot") coordinate
//! space, with their mathematical models.
//!
//! The executable types hold `i16` coordinates.  Contracts speak of their
//! views, [`SpecPoint`] and [`SpecRect`], whose coordinates are unbounded
//! integers, so that the geometry is stated without any wrap-around.

use vstd::prelude::*;

verus! {

/// Unit marker of the dot coordinate space.
pub struct DotSpace;

/// Height of the screen in dots.
pub const DOT_HEIGHT: u16 = 240;

/// Width of the screen in dots.
pub const DOT_WIDTH: u16 = 320;

/// A point or a displacement of the integer plane.
pub ghost struct SpecPoint {
    pub x: int,
    pub y: int,
}

/// An axis-aligned rectangle of the integer plane: origin and size.
/// It covers the columns `x .. x + w` and the rows `y .. y + h`.
pub ghost struct SpecRect {
    pub x: int,
    pub y: int,
    pub w: int,
    pub h: int,
}

pub open spec fn spec_min(a: int, b: int) -> int {
    if a <= b { a } else { b }
}

pub open spec fn spec_max(a: int, b: int) -> int {
    if a >= b { a } else { b }
}

impl SpecPoint {
    pub open spec fn plus(self, by: SpecPoint) -> SpecPoint {
        SpecPoint { x: self.x + by.x, y: self.y + by.y }
    }

    pub open spec fn minus(self, by: SpecPoint) -> SpecPoint {
        SpecPoint { x: self.x - by.x, y: self.y - by.y }
    }

    pub open spec fn times(self, k: int) -> SpecPoint {
        SpecPoint { x: self.x * k, y: self.y * k }
    }

    /// Both coordinates are those of an `i16`.
    pub open spec fn in_i16(self) -> bool {
        i16::MIN <= self.x <= i16::MAX && i16::MIN <= self.y <= i16::MAX
    }
}

impl SpecRect {
    pub open spec fn max_x(self) -> int {
        self.x + self.w
    }

    pub open spec fn max_y(self) -> int {
        self.y + self.h
    }

    /// The pixel `(px, py)` lies in the rectangle: the left and upper edges
    /// belong to it, the right and lower edges do not.
    pub open spec fn contains(self, px: int, py: int) -> bool {
        self.x <= px < self.max_x() && self.y <= py < self.max_y()
    }

    /// The rectangle `inner` lies inside this one.
    pub open spec fn encloses(self, inner: SpecRect) -> bool {
        &&& self.x <= inner.x
        &&& inner.max_x() <= self.max_x()
        &&& self.y <= inner.y
        &&& inner.max_y() <= self.max_y()
    }

    /// Width and height are positive: the rectangle holds a pixel.
    pub open spec fn nonempty(self) -> bool {
        self.w > 0 && self.h > 0
    }

    pub open spec fn translate(self, by: SpecPoint) -> SpecRect {
        SpecRect { x: self.x + by.x, y: self.y + by.y, w: self.w, h: self.h }
    }

    /// The two rectangles overlap.
    pub open spec fn intersects(self, other: SpecRect) -> bool {
        &&& self.x < other.max_x()
        &&& other.x < self.max_x()
        &&& self.y < other.max_y()
        &&& other.y < self.max_y()
    }

    /// The overlap of the two rectangles, where they overlap.
    pub open spec fn intersection(self, other: SpecRect) -> Option<SpecRect> {
        if self.intersects(other) {
            let x = spec_max(self.x, other.x);
            let y = spec_max(self.y, other.y);
            Some(
                SpecRect {
                    x,
                    y,
                    w: spec_min(self.max_x(), other.max_x()) - x,
                    h: spec_min(self.max_y(), other.max_y()) - y,
                },
            )
        } else {
            None
        }
    }

    /// The smallest rectangle that holds both.  A rectangle whose width and
    /// height are both zero counts as absent: the other one is the result.
    pub open spec fn union(self, other: SpecRect) -> SpecRect {
        if self.w == 0 && self.h == 0 {
            other
        } else if other.w == 0 && other.h == 0 {
            self
        } else {
            let x = spec_min(self.x, other.x);
            let y = spec_min(self.y, other.y);
            SpecRect {
                x,
                y,
                w: spec_max(self.max_x(), other.max_x()) - x,
                h: spec_max(self.max_y(), other.max_y()) - y,
            }
        }
    }

    /// The size is not negative, and the four edges and the size are `i16`
    /// values.
    pub open spec fn in_i16(self) -> bool {
        &&& 0 <= self.w <= i16::MAX
        &&& 0 <= self.h <= i16::MAX
        &&& i16::MIN <= self.x
        &&& i16::MIN <= self.y
        &&& self.max_x() <= i16::MAX
        &&& self.max_y() <= i16::MAX
    }
}

/// A point of the dot space.
#[derive(Clone, Copy, Debug, PartialEq, Eq, Structural)]
pub struct DotPoint {
    pub x: i16,
    pub y: i16,
}

/// A displacement in the dot space.
#[derive(Clone, Copy, Debug, PartialEq, Eq, Structural)]
pub struct DotVector {
    pub x: i16,
    pub y: i16,
}

/// A width and a height in dots.
#[derive(Clone, Copy, Debug, PartialEq, Eq, Structural)]
pub struct DotSize {
    pub width: i16,
    pub height: i16,
}

/// An axis-aligned rectangle of the dot space.
#[derive(Clone, Copy, Debug, PartialEq, Eq, Structural)]
pub struct DotRect {
    pub origin: DotPoint,
    pub size: DotSize,
}

impl View for DotPoint {
    type V = SpecPoint;

    open spec fn view(&self) -> SpecPoint {
        SpecPoint { x: self.x as int, y: self.y as int }
    }
}

impl View for DotVector {
    type V = SpecPoint;

    open spec fn view(&self) -> SpecPoint {
        SpecPoint { x: self.x as int, y: self.y as int }
    }
}

impl View for DotRect {
    type V = SpecRect;

    open spec fn view(&self) -> SpecRect {
        SpecRect {
            x: self.origin.x as int,
            y: self.origin.y as int,
            w: self.size.width as int,
            h: self.size.height as int,
        }
    }
}

impl DotPoint {
    pub fn new(x: i16, y: i16) -> (p: DotPoint)
        ensures
            p.x == x,
            p.y == y,
    {
        DotPoint { x, y }
    }

    /// The displacement from the origin to this point.
    pub fn to_vector(&self) -> (v: DotVector)
        ensures
            v@ == self@,
    {
        DotVector { x: self.x, y: self.y }
    }
}

impl DotVector {
    pub fn new(x: i16, y: i16) -> (v: DotVector)
        ensures
            v.x == x,
            v.y == y,
    {
        DotVector { x, y }
    }
}

impl DotSize {
    pub fn new(width: i16, height: i16) -> (s: DotSize)
        ensures
            s.width == width,
            s.height == height,
    {
        DotSize { width, height }
    }
}

impl DotRect {
    pub fn new(origin: DotPoint, size: DotSize) -> (r: DotRect)
        ensures
            r.origin == origin,
            r.size == size,
    {
        DotRect { origin, size }
    }
}

/// The point `(x, y)`.
pub fn point2(x: i16, y: i16) -> (p: DotPoint)
    ensures
        p.x == x,
        p.y == y,
{
    DotPoint { x, y }
}

/// The displacement `(x, y)`.
pub fn vec2(x: i16, y: i16) -> (v: DotVector)
    ensures
        v.x == x,
        v.y == y,
{
    DotVector { x, y }
}

/// The rectangle with origin `(x, y)`, width `w` and height `h`.
pub fn rect(x: i16, y: i16, w: i16, h: i16) -> (r: DotRect)
    ensures
        r@ == (SpecRect { x: x as int, y: y as int, w: w as int, h: h as int }),
{
    DotRect { origin: DotPoint { x, y }, size: DotSize { width: w, height: h } }
}

/// `euclid::TypedRect::intersects`: true when each rectangle starts before
/// the other one ends, on both axes.  The four sums of an origin and a size
/// that it forms are required not to overflow.
#[verifier::external_body]
pub(crate) fn euclid_intersects(a: DotRect, b: DotRect) -> (hit: bool)
    requires
        a@.in_i16(),
        b@.in_i16(),
    ensures
        hit == a@.intersects(b@),
{
    let ea = euclid::rect::<i16, DotSpace>(a.origin.x, a.origin.y, a.size.width, a.size.height);
    let eb = euclid::rect::<i16, DotSpace>(b.origin.x, b.origin.y, b.size.width, b.size.height);
    ea.intersects(&eb)
}

/// `euclid::TypedRect::intersection`: `None` unless the rectangles overlap
/// as `intersects` says, else the rectangle from the greater of the two
/// origins to the lesser of the two far corners, on each axis.
#[verifier::external_body]
pub(crate) fn euclid_intersection(a: DotRect, b: DotRect) -> (common: Option<DotRect>)
    requires
        a@.in_i16(),
        b@.in_i16(),
    ensures
        match common {
            Some(r) => a@.intersection(b@) == Some(r@),
            None => a@.intersection(b@) is None,
        },
{
    let ea = euclid::rect::<i16, DotSpace>(a.origin.x, a.origin.y, a.size.width, a.size.height);
    let eb = euclid::rect::<i16, DotSpace>(b.origin.x, b.origin.y, b.size.width, b.size.height);
    match ea.intersection(&eb) {
        Some(r) => Some(
            DotRect {
                origin: DotPoint { x: r.origin.x, y: r.origin.y },
                size: DotSize { width: r.size.width, height: r.size.height },
            },
        ),
        None => None,
    }
}

/// `euclid::TypedRect::union`: the other rectangle where one has the size
/// `(0, 0)`, else the rectangle from the lesser of the two origins to the
/// greater of the two far corners, on each axis.  That rectangle is required
/// to have `i16` edges, so that its size does not overflow.
#[verifier::external_body]
pub(crate) fn euclid_union(a: DotRect, b: DotRect) -> (both: DotRect)
    requires
        a@.in_i16(),
        b@.in_i16(),
        a@.union(b@).in_i16(),
    ensures
        both@ == a@.union(b@),
{
    let ea = euclid::rect::<i16, DotSpace>(a.origin.x, a.origin.y, a.size.width, a.size.height);
    let eb = euclid::rect::<i16, DotSpace>(b.origin.x, b.origin.y, b.size.width, b.size.height);
    let r = ea.union(&eb);
    DotRect {
        origin: DotPoint { x: r.origin.x, y: r.origin.y },
        size: DotSize { width: r.size.width, height: r.size.height },
    }
}

} // verus!
