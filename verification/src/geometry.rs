//! Integer points, sizes and axis-aligned boxes.

use vstd::prelude::*;

verus! {

/// A point of the integer plane.
#[derive(Copy, Clone, Debug, PartialEq, Eq, Hash, Structural)]
pub struct Point {
    pub x: i32,
    pub y: i32,
}

/// A width and a height.
#[derive(Copy, Clone, Debug, PartialEq, Eq, Hash, Structural)]
pub struct Size {
    pub width: i32,
    pub height: i32,
}

/// The closed-open box `[min.x, max.x) x [min.y, max.y)`.
#[derive(Copy, Clone, Debug, PartialEq, Eq, Hash, Structural)]
pub struct Rectangle {
    pub min: Point,
    pub max: Point,
}

/// Shorthand for `Point { x, y }`.
pub fn point2(x: i32, y: i32) -> (p: Point)
    ensures
        p == (Point { x, y }),
{
    Point { x, y }
}

/// Shorthand for `Size { width, height }`.
pub fn size2(width: i32, height: i32) -> (s: Size)
    ensures
        s == (Size { width, height }),
{
    Size { width, height }
}

impl Point {
    pub fn new(x: i32, y: i32) -> (p: Point)
        ensures
            p == (Point { x, y }),
    {
        Point { x, y }
    }
}

impl Size {
    pub fn new(width: i32, height: i32) -> (s: Size)
        ensures
            s == (Size { width, height }),
    {
        Size { width, height }
    }

    /// Some dimension is zero or negative.
    pub open spec fn is_empty_spec(self) -> bool {
        self.width <= 0 || self.height <= 0
    }

    /// The number of unit cells; an empty size has none.
    pub open spec fn area_spec(self) -> int {
        if self.is_empty_spec() {
            0
        } else {
            self.width * self.height
        }
    }

    #[verifier::when_used_as_spec(is_empty_spec)]
    pub fn is_empty(self) -> (b: bool)
        ensures
            b == self.is_empty_spec(),
    {
        self.width <= 0 || self.height <= 0
    }

    pub fn area(self) -> (a: i64)
        ensures
            a == self.area_spec(),
    {
        if self.width <= 0 || self.height <= 0 {
            0
        } else {
            let w: i64 = self.width as i64;
            let h: i64 = self.height as i64;
            assert(0 < w * h <= 0x7fff_ffff * 0x7fff_ffff) by (nonlinear_arith)
                requires
                    0 < w <= 0x7fff_ffff,
                    0 < h <= 0x7fff_ffff,
            ;
            w * h
        }
    }
}

impl Rectangle {
    /// The box from the origin to `(size.width, size.height)`.
    pub open spec fn from_size_spec(size: Size) -> Rectangle {
        Rectangle { min: Point { x: 0, y: 0 }, max: Point { x: size.width, y: size.height } }
    }

    /// The box that holds no cell and sits at the origin.
    pub open spec fn zero_spec() -> Rectangle {
        Rectangle { min: Point { x: 0, y: 0 }, max: Point { x: 0, y: 0 } }
    }

    pub open spec fn width_spec(self) -> int {
        self.max.x - self.min.x
    }

    pub open spec fn height_spec(self) -> int {
        self.max.y - self.min.y
    }

    /// Both extents are representable, so that `size` can be computed.
    pub open spec fn measurable(self) -> bool {
        &&& i32::MIN <= self.width_spec() <= i32::MAX
        &&& i32::MIN <= self.height_spec() <= i32::MAX
    }

    pub open spec fn size_spec(self) -> Size {
        Size { width: self.width_spec() as i32, height: self.height_spec() as i32 }
    }

    /// The box holds no cell.
    pub open spec fn is_empty_spec(self) -> bool {
        self.max.x <= self.min.x || self.max.y <= self.min.y
    }

    /// The number of unit cells in the box.
    pub open spec fn area_spec(self) -> int {
        if self.is_empty_spec() {
            0
        } else {
            self.width_spec() * self.height_spec()
        }
    }

    /// The cell at `(x, y)` lies in the box.
    pub open spec fn contains_cell(self, x: int, y: int) -> bool {
        self.min.x <= x < self.max.x && self.min.y <= y < self.max.y
    }

    /// Every cell of `other` lies in `self`.
    pub open spec fn contains_box_spec(self, other: Rectangle) -> bool {
        other.is_empty_spec() || (self.min.x <= other.min.x && other.max.x <= self.max.x
            && self.min.y <= other.min.y && other.max.y <= self.max.y)
    }

    /// The two boxes share a region of positive extent on both axes.
    pub open spec fn intersects_spec(self, other: Rectangle) -> bool {
        self.min.x < other.max.x && self.max.x > other.min.x && self.min.y < other.max.y
            && self.max.y > other.min.y
    }

    pub fn from_size(size: Size) -> (r: Rectangle)
        ensures
            r == Self::from_size_spec(size),
    {
        Rectangle { min: Point { x: 0, y: 0 }, max: Point { x: size.width, y: size.height } }
    }

    pub fn zero() -> (r: Rectangle)
        ensures
            r == Self::zero_spec(),
    {
        Rectangle { min: Point { x: 0, y: 0 }, max: Point { x: 0, y: 0 } }
    }

    pub fn width(&self) -> (w: i32)
        requires
            i32::MIN <= self.width_spec() <= i32::MAX,
        ensures
            w == self.width_spec(),
    {
        self.max.x - self.min.x
    }

    pub fn height(&self) -> (h: i32)
        requires
            i32::MIN <= self.height_spec() <= i32::MAX,
        ensures
            h == self.height_spec(),
    {
        self.max.y - self.min.y
    }

    pub fn size(&self) -> (s: Size)
        requires
            self.measurable(),
        ensures
            s == self.size_spec(),
            s.width == self.width_spec(),
            s.height == self.height_spec(),
    {
        Size { width: self.max.x - self.min.x, height: self.max.y - self.min.y }
    }

    pub fn is_empty(&self) -> (b: bool)
        ensures
            b == self.is_empty_spec(),
    {
        self.max.x <= self.min.x || self.max.y <= self.min.y
    }

    pub fn area(&self) -> (a: i64)
        requires
            self.measurable(),
        ensures
            a == self.area_spec(),
    {
        self.size().area()
    }

    pub fn intersects(&self, other: &Rectangle) -> (b: bool)
        ensures
            b == self.intersects_spec(*other),
    {
        self.min.x < other.max.x && self.max.x > other.min.x && self.min.y < other.max.y
            && self.max.y > other.min.y
    }

    pub fn contains_box(&self, other: &Rectangle) -> (b: bool)
        ensures
            b == self.contains_box_spec(*other),
    {
        other.is_empty() || (self.min.x <= other.min.x && other.max.x <= self.max.x
            && self.min.y <= other.min.y && other.max.y <= self.max.y)
    }
}

/// Two boxes that each hold a cell intersect exactly when some cell lies in both.
pub proof fn lemma_intersects_shares_cell(a: Rectangle, b: Rectangle)
    requires
        !a.is_empty_spec(),
        !b.is_empty_spec(),
    ensures
        a.intersects_spec(b) <==> exists|x: int, y: int|
            #[trigger] a.contains_cell(x, y) && b.contains_cell(x, y),
{
    if a.intersects_spec(b) {
        let x = if a.min.x >= b.min.x { a.min.x as int } else { b.min.x as int };
        let y = if a.min.y >= b.min.y { a.min.y as int } else { b.min.y as int };
        assert(a.contains_cell(x, y) && b.contains_cell(x, y));
    }
}

} // verus!
