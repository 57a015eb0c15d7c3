//! Axis-aligned integer rectangles and points.
use vstd::prelude::*;

verus! {

/// The largest coordinate a rectangle may reach: every edge of a rectangle
/// whose far edges stay at or below it is an `i32`, and the span between
/// two such edges fits a `u32`.
pub open spec fn max_coord() -> int {
    i32::MAX as int
}

pub open spec fn min_int(a: int, b: int) -> int {
    if a <= b { a } else { b }
}

pub open spec fn max_int(a: int, b: int) -> int {
    if a >= b { a } else { b }
}

/// A rectangle with a signed position and an unsigned size. Points inside it
/// are those in `[x, x + w) x [y, y + h)`.
#[derive(Copy, Clone, Debug, PartialEq, Eq, Structural)]
pub struct ImageRect {
    pub x: i32,
    pub y: i32,
    pub w: u32,
    pub h: u32,
}

impl ImageRect {
    /// One past the right edge.
    pub open spec fn right(self) -> int {
        self.x + self.w
    }

    /// One past the bottom edge.
    pub open spec fn bottom(self) -> int {
        self.y + self.h
    }

    pub open spec fn is_empty(self) -> bool {
        self.w == 0 || self.h == 0
    }

    /// The far edges are representable, so the rectangle can take part in
    /// unions and intersections without leaving the integer range.
    pub open spec fn fits(self) -> bool {
        self.right() <= max_coord() && self.bottom() <= max_coord()
    }

    /// Empty, or representable: what a union needs of an operand, since an
    /// empty operand takes part in no arithmetic.
    pub open spec fn valid(self) -> bool {
        self.is_empty() || self.fits()
    }

    pub open spec fn has_point(self, px: int, py: int) -> bool {
        self.x <= px < self.right() && self.y <= py < self.bottom()
    }

    pub open spec fn empty() -> ImageRect {
        ImageRect { x: 0, y: 0, w: 0, h: 0 }
    }

    /// The smallest rectangle holding both, where an empty operand yields the
    /// other one unchanged.
    pub open spec fn union_of(self, other: ImageRect) -> ImageRect {
        if self.is_empty() {
            other
        } else if other.is_empty() {
            self
        } else {
            let x = min_int(self.x as int, other.x as int);
            let y = min_int(self.y as int, other.y as int);
            ImageRect {
                x: x as i32,
                y: y as i32,
                w: (max_int(self.right(), other.right()) - x) as u32,
                h: (max_int(self.bottom(), other.bottom()) - y) as u32,
            }
        }
    }

    /// The closed ranges of the two rectangles meet: they share a point or
    /// touch along an edge or at a corner.
    pub open spec fn touches(self, other: ImageRect) -> bool {
        self.x <= other.right() && self.right() >= other.x && self.y <= other.bottom()
            && self.bottom() >= other.y
    }

    /// The two rectangles share a point.
    pub open spec fn overlaps(self, other: ImageRect) -> bool {
        max_int(self.x as int, other.x as int) < min_int(self.right(), other.right())
            && max_int(self.y as int, other.y as int) < min_int(self.bottom(), other.bottom())
    }

    /// The shared region, or the empty rectangle at the origin when there is none.
    pub open spec fn intersection_of(self, other: ImageRect) -> ImageRect {
        if !self.overlaps(other) {
            ImageRect::empty()
        } else {
            let x = max_int(self.x as int, other.x as int);
            let y = max_int(self.y as int, other.y as int);
            ImageRect {
                x: x as i32,
                y: y as i32,
                w: (min_int(self.right(), other.right()) - x) as u32,
                h: (min_int(self.bottom(), other.bottom()) - y) as u32,
            }
        }
    }

    pub fn new(x: i32, y: i32, w: u32, h: u32) -> (r: ImageRect)
        ensures
            r == (ImageRect { x, y, w, h }),
    {
        ImageRect { x, y, w, h }
    }

    pub fn is_empty_rect(&self) -> (r: bool)
        ensures
            r == self.is_empty(),
    {
        self.w == 0 || self.h == 0
    }

    pub fn union(&self, other: ImageRect) -> (r: ImageRect)
        requires
            self.valid(),
            other.valid(),
        ensures
            r == self.union_of(other),
            r.valid(),
    {
        if self.w == 0 || self.h == 0 {
            return other;
        }
        if other.w == 0 || other.h == 0 {
            return *self;
        }
        let x: i64 = if self.x <= other.x { self.x as i64 } else { other.x as i64 };
        let y: i64 = if self.y <= other.y { self.y as i64 } else { other.y as i64 };
        let r1: i64 = self.x as i64 + self.w as i64;
        let r2: i64 = other.x as i64 + other.w as i64;
        let b1: i64 = self.y as i64 + self.h as i64;
        let b2: i64 = other.y as i64 + other.h as i64;
        let right: i64 = if r1 >= r2 { r1 } else { r2 };
        let bottom: i64 = if b1 >= b2 { b1 } else { b2 };
        ImageRect { x: x as i32, y: y as i32, w: (right - x) as u32, h: (bottom - y) as u32 }
    }

    /// Whether the closed ranges of the rectangles meet; rectangles that only
    /// touch along an edge count too, and every pair that shares a point does.
    pub fn has_intersection(&self, other: ImageRect) -> (r: bool)
        ensures
            r == self.touches(other),
            self.overlaps(other) ==> r,
    {
        self.x as i64 <= other.x as i64 + other.w as i64 && self.x as i64 + self.w as i64
            >= other.x as i64 && self.y as i64 <= other.y as i64 + other.h as i64 && self.y as i64
            + self.h as i64 >= other.y as i64
    }

    /// Whether the rectangles share a point.
    fn shares_point(&self, other: ImageRect) -> (r: bool)
        ensures
            r == self.overlaps(other),
    {
        let left: i64 = if self.x >= other.x { self.x as i64 } else { other.x as i64 };
        let top: i64 = if self.y >= other.y { self.y as i64 } else { other.y as i64 };
        let r1: i64 = self.x as i64 + self.w as i64;
        let r2: i64 = other.x as i64 + other.w as i64;
        let b1: i64 = self.y as i64 + self.h as i64;
        let b2: i64 = other.y as i64 + other.h as i64;
        let right: i64 = if r1 <= r2 { r1 } else { r2 };
        let bottom: i64 = if b1 <= b2 { b1 } else { b2 };
        left < right && top < bottom
    }

    pub fn intersection(&self, other: ImageRect) -> (r: ImageRect)
        ensures
            r == self.intersection_of(other),
            self.fits() || other.fits() ==> r.fits(),
            forall|px: int, py: int|
                r.has_point(px, py) <==> self.has_point(px, py) && other.has_point(px, py),
    {
        if !self.shares_point(other) {
            return ImageRect::new(0, 0, 0, 0);
        }
        let left: i64 = if self.x >= other.x { self.x as i64 } else { other.x as i64 };
        let top: i64 = if self.y >= other.y { self.y as i64 } else { other.y as i64 };
        let r1: i64 = self.x as i64 + self.w as i64;
        let r2: i64 = other.x as i64 + other.w as i64;
        let b1: i64 = self.y as i64 + self.h as i64;
        let b2: i64 = other.y as i64 + other.h as i64;
        let right: i64 = if r1 <= r2 { r1 } else { r2 };
        let bottom: i64 = if b1 <= b2 { b1 } else { b2 };
        ImageRect { x: left as i32, y: top as i32, w: (right - left) as u32, h: (bottom - top) as u32 }
    }

    pub fn contains(&self, x: i32, y: i32) -> (r: bool)
        ensures
            r == self.has_point(x as int, y as int),
    {
        x as i64 >= self.x as i64 && (x as i64) < self.x as i64 + self.w as i64 && y as i64
            >= self.y as i64 && (y as i64) < self.y as i64 + self.h as i64
    }
}

/// The empty rectangle at the origin is a left identity of union for every
/// rectangle, and any empty rectangle is a right identity for every non-empty one.
pub proof fn lemma_union_identity(r: ImageRect, e: ImageRect)
    requires
        e.is_empty(),
    ensures
        ImageRect::empty().union_of(r) == r,
        !r.is_empty() ==> r.union_of(e) == r,
{
}

/// Union of non-empty rectangles does not depend on the order of its operands.
pub proof fn lemma_union_commutative(a: ImageRect, b: ImageRect)
    requires
        !a.is_empty(),
        !b.is_empty(),
    ensures
        a.union_of(b) == b.union_of(a),
{
}

/// Union of non-empty rectangles is associative; the union of two such
/// rectangles is itself non-empty and representable.
pub proof fn lemma_union_associative(a: ImageRect, b: ImageRect, c: ImageRect)
    requires
        !a.is_empty(),
        !b.is_empty(),
        !c.is_empty(),
        a.fits(),
        b.fits(),
        c.fits(),
    ensures
        !a.union_of(b).is_empty(),
        a.union_of(b).fits(),
        a.union_of(b).union_of(c) == a.union_of(b.union_of(c)),
{
}

/// A union holds every point of each operand.
pub proof fn lemma_union_covers(a: ImageRect, b: ImageRect, px: int, py: int)
    requires
        a.valid(),
        b.valid(),
        a.has_point(px, py) || b.has_point(px, py),
    ensures
        a.union_of(b).has_point(px, py),
{
}

/// The union of two non-empty rectangles lies within every rectangle that
/// holds both: it is the smallest one.
pub proof fn lemma_union_smallest(a: ImageRect, b: ImageRect, c: ImageRect)
    requires
        !a.is_empty(),
        !b.is_empty(),
        a.fits(),
        b.fits(),
        forall|px: int, py: int| a.has_point(px, py) ==> #[trigger] c.has_point(px, py),
        forall|px: int, py: int| b.has_point(px, py) ==> #[trigger] c.has_point(px, py),
    ensures
        forall|px: int, py: int| a.union_of(b).has_point(px, py) ==> #[trigger] c.has_point(px, py),
{
    assert(c.has_point(a.x as int, a.y as int));
    assert(c.has_point(a.right() - 1, a.bottom() - 1));
    assert(c.has_point(b.x as int, b.y as int));
    assert(c.has_point(b.right() - 1, b.bottom() - 1));
}

/// `Rect` union obeys the same identity and commutativity as `ImageRect`
/// union: an empty rectangle leaves a non-empty one as it is, on either side,
/// and the order of non-empty operands does not matter.
pub proof fn lemma_rect_union_laws(r: Rect, e: Rect, a: Rect, b: Rect)
    requires
        !r.as_image_rect().is_empty(),
        e.as_image_rect().is_empty(),
        !a.as_image_rect().is_empty(),
        !b.as_image_rect().is_empty(),
    ensures
        Rect::from_image_rect(r.as_image_rect().union_of(e.as_image_rect())) == r,
        Rect::from_image_rect(e.as_image_rect().union_of(r.as_image_rect())) == r,
        a.as_image_rect().union_of(b.as_image_rect()) == b.as_image_rect().union_of(
            a.as_image_rect(),
        ),
{
}

/// A point in integer coordinates.
#[derive(Copy, Clone, Debug, PartialEq, Eq, Structural)]
pub struct Point {
    pub x: i32,
    pub y: i32,
}

impl Point {
    pub fn new(x: i32, y: i32) -> (r: Point)
        ensures
            r == (Point { x, y }),
    {
        Point { x, y }
    }
}

/// A rectangle with named `width` and `height`; it behaves exactly as the
/// `ImageRect` with the same position and size.
#[derive(Copy, Clone, Debug, PartialEq, Eq, Structural)]
pub struct Rect {
    pub x: i32,
    pub y: i32,
    pub width: u32,
    pub height: u32,
}

impl Rect {
    pub open spec fn as_image_rect(self) -> ImageRect {
        ImageRect { x: self.x, y: self.y, w: self.width, h: self.height }
    }

    pub open spec fn from_image_rect(r: ImageRect) -> Rect {
        Rect { x: r.x, y: r.y, width: r.w, height: r.h }
    }

    fn to_image_rect(&self) -> (r: ImageRect)
        ensures
            r == self.as_image_rect(),
    {
        ImageRect { x: self.x, y: self.y, w: self.width, h: self.height }
    }

    fn from_image(r: ImageRect) -> (s: Rect)
        ensures
            s == Rect::from_image_rect(r),
    {
        Rect { x: r.x, y: r.y, width: r.w, height: r.h }
    }

    pub fn new(x: i32, y: i32, width: u32, height: u32) -> (r: Rect)
        ensures
            r == (Rect { x, y, width, height }),
    {
        Rect { x, y, width, height }
    }

    pub fn contains_point(&self, x: i32, y: i32) -> (r: bool)
        ensures
            r == self.as_image_rect().has_point(x as int, y as int),
    {
        self.to_image_rect().contains(x, y)
    }

    pub fn union(&self, other: Rect) -> (r: Rect)
        requires
            self.as_image_rect().valid(),
            other.as_image_rect().valid(),
        ensures
            r.as_image_rect() == self.as_image_rect().union_of(other.as_image_rect()),
            r.as_image_rect().valid(),
    {
        Rect::from_image(self.to_image_rect().union(other.to_image_rect()))
    }

    pub fn has_intersection(&self, other: Rect) -> (r: bool)
        ensures
            r == self.as_image_rect().touches(other.as_image_rect()),
    {
        self.to_image_rect().has_intersection(other.to_image_rect())
    }

    pub fn intersection(&self, other: Rect) -> (r: Rect)
        ensures
            r.as_image_rect() == self.as_image_rect().intersection_of(other.as_image_rect()),
            forall|px: int, py: int|
                r.as_image_rect().has_point(px, py) <==> self.as_image_rect().has_point(px, py)
                    && other.as_image_rect().has_point(px, py),
    {
        Rect::from_image(self.to_image_rect().intersection(other.to_image_rect()))
    }
}

} // verus!
