//! Rectangle geometry: the `Rect` and `Point` types, the `grow` union
//! operation and the `needed_growth` cost metric that steers insertion.

use vstd::prelude::*;

verus! {

/// Largest coordinate magnitude the cost computations accept: with every
/// coordinate in `[-COORD_LIMIT, COORD_LIMIT]`, each rectangle area fits in
/// an `i64` and each growth cost fits in a `u64`.
pub const COORD_LIMIT: i32 = 0x4000_0000;

/// A point in the fixed-point coordinate space.
#[derive(Clone, Copy, Debug, PartialEq, Eq, Structural)]
pub struct Point {
    pub x: i32,
    pub y: i32,
}

/// An axis-aligned rectangle: lower corner `(x0, y0)`, upper corner `(x1, y1)`.
/// A degenerate (zero-area) rectangle is a valid single point.
#[derive(Clone, Copy, Debug, PartialEq, Eq, Structural)]
pub struct Rect {
    pub x0: i32,
    pub y0: i32,
    pub x1: i32,
    pub y1: i32,
}

impl Default for Point {
    fn default() -> (p: Point)
        ensures
            p == (Point { x: 0, y: 0 }),
    {
        Point { x: 0, y: 0 }
    }
}

impl Default for Rect {
    fn default() -> (r: Rect)
        ensures
            r == (Rect { x0: 0, y0: 0, x1: 0, y1: 0 }),
    {
        Rect { x0: 0, y0: 0, x1: 0, y1: 0 }
    }
}

/// Division by two rounding toward zero, as the machine computes a center.
pub open spec fn half_toward_zero(d: int) -> int {
    if d >= 0 {
        d / 2
    } else {
        -((-d) / 2)
    }
}

impl Rect {
    /// A well-formed rectangle has its lower corner at or below its upper corner.
    pub open spec fn wf(self) -> bool {
        self.x0 <= self.x1 && self.y0 <= self.y1
    }

    /// All four coordinates are within `COORD_LIMIT` of zero.
    pub open spec fn bounded(self) -> bool {
        &&& -(COORD_LIMIT as int) <= self.x0 <= COORD_LIMIT as int
        &&& -(COORD_LIMIT as int) <= self.y0 <= COORD_LIMIT as int
        &&& -(COORD_LIMIT as int) <= self.x1 <= COORD_LIMIT as int
        &&& -(COORD_LIMIT as int) <= self.y1 <= COORD_LIMIT as int
    }

    pub open spec fn spec_width(self) -> int {
        self.x1 - self.x0
    }

    pub open spec fn spec_height(self) -> int {
        self.y1 - self.y0
    }

    /// Signed area; negative for a malformed rectangle.
    pub open spec fn area(self) -> int {
        self.spec_width() * self.spec_height()
    }

    /// The smallest rectangle containing both `self` and `o`.
    pub open spec fn spec_grow(self, o: Rect) -> Rect {
        Rect {
            x0: if self.x0 <= o.x0 { self.x0 } else { o.x0 },
            y0: if self.y0 <= o.y0 { self.y0 } else { o.y0 },
            x1: if self.x1 >= o.x1 { self.x1 } else { o.x1 },
            y1: if self.y1 >= o.y1 { self.y1 } else { o.y1 },
        }
    }

    /// The non-negative increase in area incurred by enlarging `self` to
    /// contain `o`: the insertion cost metric.
    pub open spec fn spec_needed_growth(self, o: Rect) -> int {
        let d = self.spec_grow(o).area() - self.area();
        if d > 0 {
            d
        } else {
            0
        }
    }

    /// `self` contains `o` componentwise.
    pub open spec fn contains_rect(self, o: Rect) -> bool {
        self.x0 <= o.x0 && self.y0 <= o.y0 && o.x1 <= self.x1 && o.y1 <= self.y1
    }

    pub open spec fn spec_center_x(self) -> int {
        self.x0 + half_toward_zero(self.spec_width())
    }

    pub open spec fn spec_center_y(self) -> int {
        self.y0 + half_toward_zero(self.spec_height())
    }

    pub fn width(&self) -> (w: i64)
        ensures
            w == self.spec_width(),
    {
        self.x1 as i64 - self.x0 as i64
    }

    pub fn height(&self) -> (h: i64)
        ensures
            h == self.spec_height(),
    {
        self.y1 as i64 - self.y0 as i64
    }

    /// The center point, with each axis rounded toward zero.
    pub fn center(&self) -> (c: Point)
        ensures
            c.x == self.spec_center_x(),
            c.y == self.spec_center_y(),
    {
        let cx: i64 = self.x0 as i64 + half64(self.width());
        let cy: i64 = self.y0 as i64 + half64(self.height());
        Point { x: cx as i32, y: cy as i32 }
    }

    pub fn grow(&self, rect: &Rect) -> (g: Rect)
        ensures
            g == self.spec_grow(*rect),
    {
        Rect {
            x0: if self.x0 <= rect.x0 { self.x0 } else { rect.x0 },
            y0: if self.y0 <= rect.y0 { self.y0 } else { rect.y0 },
            x1: if self.x1 >= rect.x1 { self.x1 } else { rect.x1 },
            y1: if self.y1 >= rect.y1 { self.y1 } else { rect.y1 },
        }
    }

    /// How much area enlarging `self` to cover `rect` would cost.
    pub fn needed_growth(&self, rect: &Rect) -> (g: u64)
        requires
            self.bounded(),
            rect.bounded(),
        ensures
            g == self.spec_needed_growth(*rect),
    {
        let newrect = self.grow(rect);
        let nw: i64 = newrect.width();
        let nh: i64 = newrect.height();
        let w: i64 = self.width();
        let h: i64 = self.height();
        proof {
            lemma_mul_i64_bounded(nw as int, nh as int);
            lemma_mul_i64_bounded(w as int, h as int);
        }
        let na: i64 = nw * nh;
        let oa: i64 = w * h;
        let diff: i128 = na as i128 - oa as i128;
        if diff > 0 {
            diff as u64
        } else {
            0
        }
    }
}

/// Divide by two rounding toward zero, for any difference of two `i32` values.
fn half64(d: i64) -> (h: i64)
    requires
        -0x1_0000_0000 <= d <= 0x1_0000_0000,
    ensures
        h == half_toward_zero(d as int),
{
    if d >= 0 {
        ((d as u64) / 2) as i64
    } else {
        let m: i64 = -d;
        -(((m as u64) / 2) as i64)
    }
}

/// The product of two values no larger in magnitude than `2^31` stays within
/// `2^62` and hence within `i64`.
proof fn lemma_mul_i64_bounded(a: int, b: int)
    requires
        -0x8000_0000 <= a <= 0x8000_0000,
        -0x8000_0000 <= b <= 0x8000_0000,
    ensures
        -0x4000_0000_0000_0000 <= a * b <= 0x4000_0000_0000_0000,
{
    assert(-0x4000_0000_0000_0000 <= a * b <= 0x4000_0000_0000_0000) by (nonlinear_arith)
        requires
            -0x8000_0000 <= a <= 0x8000_0000,
            -0x8000_0000 <= b <= 0x8000_0000,
    ;
}

/// Growing a rectangle to cover itself costs nothing.
pub proof fn lemma_needed_growth_self(r: Rect)
    ensures
        r.spec_needed_growth(r) == 0,
{
    assert(r.spec_grow(r) == r);
}

/// `grow` is commutative.
pub proof fn lemma_grow_comm(a: Rect, b: Rect)
    ensures
        a.spec_grow(b) == b.spec_grow(a),
{
}

/// `grow` is associative.
pub proof fn lemma_grow_assoc(a: Rect, b: Rect, c: Rect)
    ensures
        a.spec_grow(b).spec_grow(c) == a.spec_grow(b.spec_grow(c)),
{
}

/// `grow` is idempotent.
pub proof fn lemma_grow_idem(a: Rect)
    ensures
        a.spec_grow(a) == a,
{
}

/// The union of two rectangles contains both.
pub proof fn lemma_grow_contains(a: Rect, b: Rect)
    ensures
        a.spec_grow(b).contains_rect(a),
        a.spec_grow(b).contains_rect(b),
{
}

/// `grow` is monotone with respect to containment in both arguments.
pub proof fn lemma_grow_monotone(a: Rect, b: Rect, a2: Rect, b2: Rect)
    requires
        a2.contains_rect(a),
        b2.contains_rect(b),
    ensures
        a2.spec_grow(b2).contains_rect(a.spec_grow(b)),
{
}

/// `grow` preserves well-formedness and boundedness.
pub proof fn lemma_grow_wf_bounded(a: Rect, b: Rect)
    ensures
        a.wf() && b.wf() ==> a.spec_grow(b).wf(),
        a.wf() ==> a.spec_grow(b).wf(),
        a.bounded() && b.bounded() ==> a.spec_grow(b).bounded(),
{
}

/// A larger well-formed rectangle has at least the area of a well-formed
/// rectangle it contains.
proof fn lemma_area_monotone(small: Rect, big: Rect)
    requires
        small.wf(),
        big.contains_rect(small),
    ensures
        small.area() <= big.area(),
{
    let ws = small.spec_width();
    let hs = small.spec_height();
    let wb = big.spec_width();
    let hb = big.spec_height();
    assert(ws * hs <= wb * hb) by (nonlinear_arith)
        requires
            0 <= ws <= wb,
            0 <= hs <= hb,
    ;
}

/// Enlarging the rectangle to be covered can only raise the growth cost:
/// if `c` contains `b`, covering `c` costs `a` at least as much as covering
/// `b` does.
pub proof fn lemma_needed_growth_monotone(a: Rect, b: Rect, c: Rect)
    requires
        a.wf(),
        c.contains_rect(b),
    ensures
        a.spec_needed_growth(b) <= a.spec_needed_growth(c),
{
    let gb = a.spec_grow(b);
    let gc = a.spec_grow(c);
    assert(gb.wf());
    assert(gc.contains_rect(gb));
    lemma_area_monotone(gb, gc);
}

} // verus!
