use vstd::prelude::*;

verus! {

/// A point of the plane, in whole world units.
#[derive(Clone, Copy, Debug, PartialEq, Eq, Structural)]
pub struct Point {
    pub x: i32,
    pub y: i32,
}

/// An axis-aligned rectangle: its top-left corner, width and height.
/// It covers the points with `x <= px < x + w` and `y <= py < y + h`, so a
/// rectangle whose width or height is not positive covers nothing.
#[derive(Clone, Copy, Debug, PartialEq, Eq, Structural)]
pub struct Rect {
    pub x: i32,
    pub y: i32,
    pub w: i32,
    pub h: i32,
}

impl Point {
    pub fn new(x: i32, y: i32) -> (r: Point)
        ensures
            r.x == x,
            r.y == y,
    {
        Point { x, y }
    }
}

impl Rect {
    pub open spec fn left(self) -> int {
        self.x as int
    }

    pub open spec fn right(self) -> int {
        self.x + self.w
    }

    pub open spec fn top(self) -> int {
        self.y as int
    }

    pub open spec fn bottom(self) -> int {
        self.y + self.h
    }

    /// Half-open containment of a point.
    pub open spec fn spec_contains(self, p: Point) -> bool {
        self.left() <= p.x < self.right() && self.top() <= p.y < self.bottom()
    }

    /// Both rectangles have positive area and their interiors meet; touching
    /// edges do not count.
    pub open spec fn spec_intersects(self, o: Rect) -> bool {
        &&& self.w > 0 && self.h > 0 && o.w > 0 && o.h > 0
        &&& self.left() < o.right() && o.left() < self.right()
        &&& self.top() < o.bottom() && o.top() < self.bottom()
    }

    pub open spec fn area(self) -> int {
        self.w * self.h
    }

    /// The right and bottom edges are representable, so that the quadrants
    /// can be computed.
    pub open spec fn edges_fit(self) -> bool {
        self.right() <= i32::MAX && self.bottom() <= i32::MAX
    }

    /// Large enough that each of its quadrants is strictly smaller.
    pub open spec fn spec_can_split(self) -> bool {
        self.w >= 2 && self.h >= 2
    }

    /// Quadrant `k` (top-left, top-right, bottom-left, bottom-right). The left
    /// and top halves take the rounded-down half of the width and height, the
    /// others the rest, so that the four cover the rectangle exactly.
    pub open spec fn quadrant(self, k: int) -> Rect {
        let hw = (self.w / 2) as i32;
        let hh = (self.h / 2) as i32;
        if k == 0 {
            Rect { x: self.x, y: self.y, w: hw, h: hh }
        } else if k == 1 {
            Rect { x: (self.x + hw) as i32, y: self.y, w: (self.w - hw) as i32, h: hh }
        } else if k == 2 {
            Rect { x: self.x, y: (self.y + hh) as i32, w: hw, h: (self.h - hh) as i32 }
        } else {
            Rect {
                x: (self.x + hw) as i32,
                y: (self.y + hh) as i32,
                w: (self.w - hw) as i32,
                h: (self.h - hh) as i32,
            }
        }
    }

    pub fn new(x: i32, y: i32, w: i32, h: i32) -> (r: Rect)
        ensures
            r.x == x,
            r.y == y,
            r.w == w,
            r.h == h,
    {
        Rect { x, y, w, h }
    }

    pub fn contains(&self, p: Point) -> (r: bool)
        ensures
            r == self.spec_contains(p),
    {
        let px = p.x as i64;
        let py = p.y as i64;
        self.x as i64 <= px && px < self.x as i64 + self.w as i64 && self.y as i64 <= py && py
            < self.y as i64 + self.h as i64
    }

    pub fn intersects(&self, o: &Rect) -> (r: bool)
        ensures
            r == self.spec_intersects(*o),
    {
        let (l1, r1, t1, b1) = (
            self.x as i64,
            self.x as i64 + self.w as i64,
            self.y as i64,
            self.y as i64 + self.h as i64,
        );
        let (l2, r2, t2, b2) = (
            o.x as i64,
            o.x as i64 + o.w as i64,
            o.y as i64,
            o.y as i64 + o.h as i64,
        );
        self.w > 0 && self.h > 0 && o.w > 0 && o.h > 0 && l1 < r2 && l2 < r1 && t1 < b2 && t2 < b1
    }

    pub fn can_split(&self) -> (r: bool)
        ensures
            r == self.spec_can_split(),
    {
        self.w >= 2 && self.h >= 2
    }

    /// The four quadrants, in the order top-left, top-right, bottom-left,
    /// bottom-right.
    pub fn quadrants(&self) -> (r: [Rect; 4])
        requires
            self.edges_fit(),
            self.spec_can_split(),
        ensures
            r@ == seq![self.quadrant(0), self.quadrant(1), self.quadrant(2), self.quadrant(3)],
    {
        let hw: i32 = self.w / 2;
        let hh: i32 = self.h / 2;
        let mx: i32 = self.x + hw;
        let my: i32 = self.y + hh;
        let r = [
            Rect { x: self.x, y: self.y, w: hw, h: hh },
            Rect { x: mx, y: self.y, w: self.w - hw, h: hh },
            Rect { x: self.x, y: my, w: hw, h: self.h - hh },
            Rect { x: mx, y: my, w: self.w - hw, h: self.h - hh },
        ];
        assert(r@ =~= seq![self.quadrant(0), self.quadrant(1), self.quadrant(2), self.quadrant(3)]);
        r
    }
}

/// The quadrants of a splittable rectangle whose edges fit are strictly
/// smaller in width plus height, have edges that fit, and lie inside it.
pub proof fn lemma_quadrant_smaller(r: Rect, k: int)
    requires
        r.edges_fit(),
        r.spec_can_split(),
        0 <= k < 4,
    ensures
        r.quadrant(k).edges_fit(),
        r.quadrant(k).w >= 1,
        r.quadrant(k).h >= 1,
        r.quadrant(k).w + r.quadrant(k).h < r.w + r.h,
{
}

/// The four quadrants tile a rectangle: a point lies in the rectangle exactly
/// when it lies in one of them, it lies in no two of them, and their areas add
/// up to the rectangle's area.
pub proof fn lemma_quadrants_tile(r: Rect, p: Point)
    requires
        r.edges_fit(),
        r.w >= 0,
        r.h >= 0,
    ensures
        r.spec_contains(p) <==> (r.quadrant(0).spec_contains(p) || r.quadrant(1).spec_contains(p)
            || r.quadrant(2).spec_contains(p) || r.quadrant(3).spec_contains(p)),
        forall|i: int, j: int|
            0 <= i < 4 && 0 <= j < 4 && i != j ==> !(#[trigger] r.quadrant(i).spec_contains(p)
                && #[trigger] r.quadrant(j).spec_contains(p)),
        r.quadrant(0).area() + r.quadrant(1).area() + r.quadrant(2).area() + r.quadrant(3).area()
            == r.area(),
{
    let hw = r.w / 2;
    let hh = r.h / 2;
    assert(0 <= hw <= r.w && 0 <= hh <= r.h);
    assert(hw * hh + (r.w - hw) * hh + hw * (r.h - hh) + (r.w - hw) * (r.h - hh) == r.w * r.h)
        by (nonlinear_arith);
}

/// Two rectangles that hold a common point intersect.
pub proof fn lemma_common_point_intersects(a: Rect, b: Rect, p: Point)
    requires
        a.spec_contains(p),
        b.spec_contains(p),
    ensures
        a.spec_intersects(b),
{
}

} // verus!
