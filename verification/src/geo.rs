//! Exact planar geometry on integer coordinates: points, axis-aligned boxes,
//! circles, circumcircles and barycentric coordinates.

use crate::arith::{
    abs, div_floor, div_toward_zero, isqrt, lemma_mul_bound, magnitude, trunc_div, Ratio,
};
use core::ops::{Add, Div, Mul, Sub};
use vstd::prelude::*;
use vstd::std_specs::ops::{AddSpecImpl, DivSpecImpl, MulSpecImpl, SubSpecImpl};

verus! {

/// Largest magnitude of a coordinate on which the geometric predicates are
/// exact without overflow.
pub const COORD_LIMIT: i64 = 0x10_0000;

/// A point, or a displacement, of the integer plane.
#[derive(Debug, Copy, Clone, PartialEq, Eq, Structural)]
pub struct Vec2 {
    pub x: i64,
    pub y: i64,
}

/// Whether `v` fits a machine coordinate.
pub open spec fn fits_i64(v: int) -> bool {
    i64::MIN <= v <= i64::MAX
}

impl Vec2 {
    /// Squared Euclidean length.
    pub open spec fn spec_norm2(self) -> int {
        self.x * self.x + self.y * self.y
    }

    /// Squared Euclidean distance to `p`.
    pub open spec fn spec_dist2(self, p: Vec2) -> int {
        (self.x - p.x) * (self.x - p.x) + (self.y - p.y) * (self.y - p.y)
    }

    /// Whether both coordinates lie within `COORD_LIMIT` of zero.
    pub open spec fn in_range(self) -> bool {
        &&& -COORD_LIMIT <= self.x <= COORD_LIMIT
        &&& -COORD_LIMIT <= self.y <= COORD_LIMIT
    }

    /// The origin.
    pub fn zero() -> (v: Self)
        ensures
            v == (Vec2 { x: 0, y: 0 }),
    {
        Vec2::new(0, 0)
    }

    /// The point with the coordinates `x` and `y`.
    pub fn new(x: i64, y: i64) -> (v: Self)
        ensures
            v == (Vec2 { x, y }),
    {
        Vec2 { x, y }
    }

    /// Whether both coordinates lie within `COORD_LIMIT` of zero.
    pub fn is_in_range(&self) -> (b: bool)
        ensures
            b == self.in_range(),
    {
        -COORD_LIMIT <= self.x && self.x <= COORD_LIMIT && -COORD_LIMIT <= self.y && self.y
            <= COORD_LIMIT
    }

    /// Euclidean distance to `p`, rounded down.
    pub fn dist(&self, p: Vec2) -> (d: u64)
        requires
            fits_i64(self.x - p.x),
            fits_i64(self.y - p.y),
        ensures
            d * d <= self.spec_dist2(p) < (d + 1) * (d + 1),
    {
        isqrt(self.dist2(p))
    }

    /// Squared Euclidean distance to `p`.
    pub fn dist2(&self, p: Vec2) -> (d: u128)
        requires
            fits_i64(self.x - p.x),
            fits_i64(self.y - p.y),
        ensures
            d == self.spec_dist2(p),
    {
        (*self - p).norm2()
    }

    /// Euclidean length, rounded down.
    pub fn norm(&self) -> (n: u64)
        ensures
            n * n <= self.spec_norm2() < (n + 1) * (n + 1),
    {
        isqrt(self.norm2())
    }

    /// Squared Euclidean length.
    pub fn norm2(&self) -> (n: u128)
        ensures
            n == self.spec_norm2(),
    {
        let mx: u128 = magnitude(self.x) as u128;
        let my: u128 = magnitude(self.y) as u128;
        proof {
            lemma_mul_bound(mx as int, mx as int, 0x8000_0000_0000_0000, 0x8000_0000_0000_0000);
            lemma_mul_bound(my as int, my as int, 0x8000_0000_0000_0000, 0x8000_0000_0000_0000);
            assert(mx * mx == self.x * self.x) by (nonlinear_arith)
                requires
                    mx == abs(self.x as int),
            ;
            assert(my * my == self.y * self.y) by (nonlinear_arith)
                requires
                    my == abs(self.y as int),
            ;
        }
        mx * mx + my * my
    }
}

impl Add for Vec2 {
    type Output = Vec2;

    fn add(self, rhs: Vec2) -> (sum: Vec2) {
        Vec2 { x: self.x + rhs.x, y: self.y + rhs.y }
    }
}

impl AddSpecImpl for Vec2 {
    open spec fn obeys_add_spec() -> bool {
        true
    }

    open spec fn add_req(self, rhs: Vec2) -> bool {
        fits_i64(self.x + rhs.x) && fits_i64(self.y + rhs.y)
    }

    open spec fn add_spec(self, rhs: Vec2) -> Vec2 {
        Vec2 { x: (self.x + rhs.x) as i64, y: (self.y + rhs.y) as i64 }
    }
}

impl Add<i64> for Vec2 {
    type Output = Vec2;

    fn add(self, rhs: i64) -> (sum: Vec2) {
        Vec2 { x: self.x + rhs, y: self.y + rhs }
    }
}

impl AddSpecImpl<i64> for Vec2 {
    open spec fn obeys_add_spec() -> bool {
        true
    }

    open spec fn add_req(self, rhs: i64) -> bool {
        fits_i64(self.x + rhs) && fits_i64(self.y + rhs)
    }

    open spec fn add_spec(self, rhs: i64) -> Vec2 {
        Vec2 { x: (self.x + rhs) as i64, y: (self.y + rhs) as i64 }
    }
}

impl Sub for Vec2 {
    type Output = Vec2;

    fn sub(self, rhs: Vec2) -> (difference: Vec2) {
        Vec2 { x: self.x - rhs.x, y: self.y - rhs.y }
    }
}

impl SubSpecImpl for Vec2 {
    open spec fn obeys_sub_spec() -> bool {
        true
    }

    open spec fn sub_req(self, rhs: Vec2) -> bool {
        fits_i64(self.x - rhs.x) && fits_i64(self.y - rhs.y)
    }

    open spec fn sub_spec(self, rhs: Vec2) -> Vec2 {
        Vec2 { x: (self.x - rhs.x) as i64, y: (self.y - rhs.y) as i64 }
    }
}

impl Sub<i64> for Vec2 {
    type Output = Vec2;

    fn sub(self, rhs: i64) -> (difference: Vec2) {
        Vec2 { x: self.x - rhs, y: self.y - rhs }
    }
}

impl SubSpecImpl<i64> for Vec2 {
    open spec fn obeys_sub_spec() -> bool {
        true
    }

    open spec fn sub_req(self, rhs: i64) -> bool {
        fits_i64(self.x - rhs) && fits_i64(self.y - rhs)
    }

    open spec fn sub_spec(self, rhs: i64) -> Vec2 {
        Vec2 { x: (self.x - rhs) as i64, y: (self.y - rhs) as i64 }
    }
}

impl Mul for Vec2 {
    type Output = Vec2;

    fn mul(self, rhs: Vec2) -> (product: Vec2) {
        Vec2 { x: self.x * rhs.x, y: self.y * rhs.y }
    }
}

impl MulSpecImpl for Vec2 {
    open spec fn obeys_mul_spec() -> bool {
        true
    }

    open spec fn mul_req(self, rhs: Vec2) -> bool {
        fits_i64(self.x * rhs.x) && fits_i64(self.y * rhs.y)
    }

    open spec fn mul_spec(self, rhs: Vec2) -> Vec2 {
        Vec2 { x: (self.x * rhs.x) as i64, y: (self.y * rhs.y) as i64 }
    }
}

impl Mul<i64> for Vec2 {
    type Output = Vec2;

    fn mul(self, rhs: i64) -> (product: Vec2) {
        Vec2 { x: self.x * rhs, y: self.y * rhs }
    }
}

impl MulSpecImpl<i64> for Vec2 {
    open spec fn obeys_mul_spec() -> bool {
        true
    }

    open spec fn mul_req(self, rhs: i64) -> bool {
        fits_i64(self.x * rhs) && fits_i64(self.y * rhs)
    }

    open spec fn mul_spec(self, rhs: i64) -> Vec2 {
        Vec2 { x: (self.x * rhs) as i64, y: (self.y * rhs) as i64 }
    }
}

impl Div for Vec2 {
    type Output = Vec2;

    fn div(self, rhs: Vec2) -> (quotient: Vec2) {
        Vec2 { x: div_toward_zero(self.x, rhs.x), y: div_toward_zero(self.y, rhs.y) }
    }
}

impl DivSpecImpl for Vec2 {
    open spec fn obeys_div_spec() -> bool {
        true
    }

    open spec fn div_req(self, rhs: Vec2) -> bool {
        &&& rhs.x != 0
        &&& rhs.y != 0
        &&& !(self.x == i64::MIN && rhs.x == -1)
        &&& !(self.y == i64::MIN && rhs.y == -1)
    }

    open spec fn div_spec(self, rhs: Vec2) -> Vec2 {
        Vec2 {
            x: trunc_div(self.x as int, rhs.x as int) as i64,
            y: trunc_div(self.y as int, rhs.y as int) as i64,
        }
    }
}

impl Div<i64> for Vec2 {
    type Output = Vec2;

    fn div(self, rhs: i64) -> (quotient: Vec2) {
        Vec2 { x: div_toward_zero(self.x, rhs), y: div_toward_zero(self.y, rhs) }
    }
}

impl DivSpecImpl<i64> for Vec2 {
    open spec fn obeys_div_spec() -> bool {
        true
    }

    open spec fn div_req(self, rhs: i64) -> bool {
        &&& rhs != 0
        &&& !(self.x == i64::MIN && rhs == -1)
        &&& !(self.y == i64::MIN && rhs == -1)
    }

    open spec fn div_spec(self, rhs: i64) -> Vec2 {
        Vec2 {
            x: trunc_div(self.x as int, rhs as int) as i64,
            y: trunc_div(self.y as int, rhs as int) as i64,
        }
    }
}

/// Axis-aligned box given by its lower-left and upper-right corners, both
/// included.
#[derive(Debug, Copy, Clone, PartialEq, Eq, Structural)]
pub struct Bbox {
    min: Vec2,
    max: Vec2,
}

impl Bbox {
    /// Lower-left corner.
    pub closed spec fn lo(self) -> Vec2 {
        self.min
    }

    /// Upper-right corner.
    pub closed spec fn hi(self) -> Vec2 {
        self.max
    }

    /// The box with the given corners.
    pub closed spec fn with_corners(lo: Vec2, hi: Vec2) -> Bbox {
        Bbox { min: lo, max: hi }
    }

    /// The corners are in order on both axes.
    pub open spec fn wf(self) -> bool {
        self.lo().x <= self.hi().x && self.lo().y <= self.hi().y
    }

    /// Whether `p` lies in the box, border included.
    pub open spec fn spec_contains(self, p: Vec2) -> bool {
        self.lo().x <= p.x && self.lo().y <= p.y && self.hi().x >= p.x && self.hi().y >= p.y
    }

    /// Whether every point of the box has coordinates within `COORD_LIMIT`.
    pub open spec fn in_range(self) -> bool {
        self.lo().in_range() && self.hi().in_range()
    }

    /// Midpoint of the box, each coordinate rounded down.
    pub open spec fn spec_center(self) -> Vec2 {
        Vec2 {
            x: ((self.lo().x + self.hi().x) / 2) as i64,
            y: ((self.lo().y + self.hi().y) / 2) as i64,
        }
    }

    /// The four boxes that `p` cuts the box into: lower left, lower right,
    /// upper left, upper right.
    pub open spec fn spec_split(self, p: Vec2) -> Seq<Bbox> {
        seq![
            Bbox::with_corners(self.lo(), p),
            Bbox::with_corners(Vec2 { x: p.x, y: self.lo().y }, Vec2 { x: self.hi().x, y: p.y }),
            Bbox::with_corners(Vec2 { x: self.lo().x, y: p.y }, Vec2 { x: p.x, y: self.hi().y }),
            Bbox::with_corners(p, self.hi()),
        ]
    }

    /// The smallest box that holds the box and `p`.
    pub open spec fn spec_expand(self, p: Vec2) -> Bbox {
        Bbox::with_corners(
            Vec2 {
                x: if p.x < self.lo().x { p.x } else { self.lo().x },
                y: if p.y < self.lo().y { p.y } else { self.lo().y },
            },
            Vec2 {
                x: if p.x > self.hi().x { p.x } else { self.hi().x },
                y: if p.y > self.hi().y { p.y } else { self.hi().y },
            },
        )
    }

    /// The point of the box nearest to `p`.
    pub open spec fn spec_clamp(self, p: Vec2) -> Vec2 {
        Vec2 {
            x: if p.x < self.lo().x { self.lo().x } else if p.x > self.hi().x { self.hi().x } else { p.x },
            y: if p.y < self.lo().y { self.lo().y } else if p.y > self.hi().y { self.hi().y } else { p.y },
        }
    }

    /// Width times height.
    pub open spec fn area(self) -> int {
        (self.hi().x - self.lo().x) * (self.hi().y - self.lo().y)
    }

    /// Width plus height.
    pub open spec fn span(self) -> int {
        (self.hi().x - self.lo().x) + (self.hi().y - self.lo().y)
    }

    /// Whether a cut at the centre makes four boxes that are all smaller
    /// than the box: it is more than one unit wide or more than one unit
    /// high. Of a box that is not, one quarter is the box itself.
    pub open spec fn divisible(self) -> bool {
        self.hi().x - self.lo().x >= 2 || self.hi().y - self.lo().y >= 2
    }

    /// The quarters of a divisible box around its centre are smaller than
    /// the box.
    pub proof fn lemma_quarters_smaller(self, i: int)
        requires
            self.wf(),
            self.divisible(),
            0 <= i < 4,
        ensures
            self.spec_split(self.spec_center())[i].wf(),
            0 <= self.spec_split(self.spec_center())[i].span() < self.span(),
    {
        Self::lemma_with_corners(self.lo(), self.spec_center());
        Self::lemma_with_corners(
            Vec2 { x: self.spec_center().x, y: self.lo().y },
            Vec2 { x: self.hi().x, y: self.spec_center().y },
        );
        Self::lemma_with_corners(
            Vec2 { x: self.lo().x, y: self.spec_center().y },
            Vec2 { x: self.spec_center().x, y: self.hi().y },
        );
        Self::lemma_with_corners(self.spec_center(), self.hi());
    }

    /// A box is determined by its corners.
    pub proof fn lemma_corners(self)
        ensures
            self == Bbox::with_corners(self.lo(), self.hi()),
    {
    }

    /// The corners of the box made from `lo` and `hi` are `lo` and `hi`.
    pub broadcast proof fn lemma_with_corners(lo: Vec2, hi: Vec2)
        ensures
            (#[trigger] Bbox::with_corners(lo, hi)).lo() == lo,
            Bbox::with_corners(lo, hi).hi() == hi,
    {
    }

    /// The box that holds `p` alone.
    pub fn new(p: Vec2) -> (bbox: Self)
        ensures
            bbox == Bbox::with_corners(p, p),
            bbox.lo() == p,
            bbox.hi() == p,
            bbox.wf(),
    {
        Bbox { min: p, max: p }
    }

    /// Lower-left corner.
    pub fn min(&self) -> (p: Vec2)
        ensures
            p == self.lo(),
    {
        self.min
    }

    /// Upper-right corner.
    pub fn max(&self) -> (p: Vec2)
        ensures
            p == self.hi(),
    {
        self.max
    }

    /// Midpoint of the box, each coordinate rounded down. It lies in the box.
    pub fn center(&self) -> (c: Vec2)
        ensures
            c == self.spec_center(),
            self.wf() ==> self.spec_contains(c),
    {
        let sx: i128 = self.min.x as i128 + self.max.x as i128;
        let sy: i128 = self.min.y as i128 + self.max.y as i128;
        let cx: i128 = div_floor(sx, 2);
        let cy: i128 = div_floor(sy, 2);
        Vec2 { x: cx as i64, y: cy as i64 }
    }

    /// Cuts the box at `p` into its four quarters: lower left, lower right,
    /// upper left, upper right. Together they cover the box, and two of them
    /// meet only on the lines through `p`.
    pub fn split(&self, p: Vec2) -> (quarters: [Bbox; 4])
        requires
            self.spec_contains(p),
        ensures
            quarters@ == self.spec_split(p),
            forall|i: int| 0 <= i < 4 ==> (#[trigger] quarters@[i]).wf(),
            quarters@[0].lo() == self.lo() && quarters@[0].hi() == p,
            quarters@[1].lo() == (Vec2 { x: p.x, y: self.lo().y }) && quarters@[1].hi() == (Vec2 {
                x: self.hi().x,
                y: p.y,
            }),
            quarters@[2].lo() == (Vec2 { x: self.lo().x, y: p.y }) && quarters@[2].hi() == (Vec2 {
                x: p.x,
                y: self.hi().y,
            }),
            quarters@[3].lo() == p && quarters@[3].hi() == self.hi(),
    {
        let quarters = [
            Bbox { min: self.min, max: p },
            Bbox { min: Vec2::new(p.x, self.min.y), max: Vec2::new(self.max.x, p.y) },
            Bbox { min: Vec2::new(self.min.x, p.y), max: Vec2::new(p.x, self.max.y) },
            Bbox { min: p, max: self.max },
        ];
        assert(quarters@ =~= self.spec_split(p));
        quarters
    }

    /// Grows the box, as little as possible, so that it holds `p`.
    pub fn expand(&mut self, p: Vec2)
        ensures
            *final(self) == old(self).spec_expand(p),
            final(self).lo() == (Vec2 {
                x: if p.x < old(self).lo().x { p.x } else { old(self).lo().x },
                y: if p.y < old(self).lo().y { p.y } else { old(self).lo().y },
            }),
            final(self).hi() == (Vec2 {
                x: if p.x > old(self).hi().x { p.x } else { old(self).hi().x },
                y: if p.y > old(self).hi().y { p.y } else { old(self).hi().y },
            }),
            final(self).spec_contains(p),
            old(self).wf() ==> final(self).wf(),
            forall|q: Vec2| old(self).spec_contains(q) ==> final(self).spec_contains(q),
            old(self).spec_contains(p) ==> *final(self) == *old(self),
    {
        if p.x < self.min.x {
            self.min.x = p.x;
        }
        if p.y < self.min.y {
            self.min.y = p.y;
        }
        if p.x > self.max.x {
            self.max.x = p.x;
        }
        if p.y > self.max.y {
            self.max.y = p.y;
        }
    }

    /// Whether a cut at the centre makes four boxes that are all smaller
    /// than the box.
    pub fn is_divisible(&self) -> (b: bool)
        ensures
            b == self.divisible(),
    {
        self.max.x as i128 - self.min.x as i128 >= 2 || self.max.y as i128 - self.min.y as i128
            >= 2
    }

    /// Whether `p` lies in the box, border included.
    pub fn contains(&self, p: Vec2) -> (b: bool)
        ensures
            b == self.spec_contains(p),
    {
        self.min.x <= p.x && self.min.y <= p.y && self.max.x >= p.x && self.max.y >= p.y
    }

    /// The point of the box nearest to `p`: `p` itself where the box holds it.
    pub fn clamp(&self, p: Vec2) -> (q: Vec2)
        requires
            self.wf(),
        ensures
            q == self.spec_clamp(p),
            self.spec_contains(q),
            self.spec_contains(p) ==> q == p,
    {
        let x: i64 = if p.x < self.min.x {
            self.min.x
        } else if p.x > self.max.x {
            self.max.x
        } else {
            p.x
        };
        let y: i64 = if p.y < self.min.y {
            self.min.y
        } else if p.y > self.max.y {
            self.max.y
        } else {
            p.y
        };
        Vec2 { x, y }
    }

    /// A point lies in the box exactly if it lies in one of the quarters that
    /// a point of the box cuts it into.
    pub proof fn lemma_split_covers(self, p: Vec2, q: Vec2)
        requires
            self.spec_contains(p),
        ensures
            self.spec_contains(q) <==> exists|i: int|
                0 <= i < 4 && (#[trigger] self.spec_split(p)[i]).spec_contains(q),
    {
        let quarters = self.spec_split(p);
        if self.spec_contains(q) {
            if q.x <= p.x && q.y <= p.y {
                assert(quarters[0].spec_contains(q));
            } else if q.y <= p.y {
                assert(quarters[1].spec_contains(q));
            } else if q.x <= p.x {
                assert(quarters[2].spec_contains(q));
            } else {
                assert(quarters[3].spec_contains(q));
            }
        }
    }

    /// A point that two different quarters share lies on one of the two
    /// lines through the cutting point.
    pub proof fn lemma_split_overlap(self, p: Vec2, q: Vec2, i: int, j: int)
        requires
            self.spec_contains(p),
            0 <= i < j < 4,
            self.spec_split(p)[i].spec_contains(q),
            self.spec_split(p)[j].spec_contains(q),
        ensures
            q.x == p.x || q.y == p.y,
    {
    }

    /// The areas of the four quarters add up to the area of the box.
    pub proof fn lemma_split_areas(self, p: Vec2)
        requires
            self.spec_contains(p),
        ensures
            self.spec_split(p)[0].area() + self.spec_split(p)[1].area() + self.spec_split(p)[2].area()
                + self.spec_split(p)[3].area() == self.area(),
    {
        let w0 = p.x - self.lo().x;
        let w1 = self.hi().x - p.x;
        let h0 = p.y - self.lo().y;
        let h1 = self.hi().y - p.y;
        assert(w0 * h0 + w1 * h0 + w0 * h1 + w1 * h1 == (w0 + w1) * (h0 + h1)) by (nonlinear_arith);
    }
}

/// Twice the signed area of the triangle `a`, `b`, `c`: positive where the
/// three turn counter-clockwise, zero where they lie on one line.
pub open spec fn spec_orient(a: Vec2, b: Vec2, c: Vec2) -> int {
    (b.x - a.x) * (c.y - a.y) - (b.y - a.y) * (c.x - a.x)
}

/// Twice the signed area of the triangle `a`, `b`, `c`.
pub fn orient(a: Vec2, b: Vec2, c: Vec2) -> (area2: i128)
    requires
        a.in_range(),
        b.in_range(),
        c.in_range(),
    ensures
        area2 == spec_orient(a, b, c),
{
    let bx: i128 = b.x as i128 - a.x as i128;
    let by: i128 = b.y as i128 - a.y as i128;
    let cx: i128 = c.x as i128 - a.x as i128;
    let cy: i128 = c.y as i128 - a.y as i128;
    proof {
        lemma_mul_bound(bx as int, cy as int, 0x20_0000, 0x20_0000);
        lemma_mul_bound(by as int, cx as int, 0x20_0000, 0x20_0000);
    }
    bx * cy - by * cx
}

/// A circle with a rational centre and a rational squared radius, held
/// exactly: the centre is `center_num() / den()` on each axis and the squared
/// radius is `radius2_num() / (den() * den())`.
#[derive(Debug, Copy, Clone, PartialEq, Eq, Structural)]
pub struct Circle {
    den: i128,
    hx: i128,
    hy: i128,
    e: i128,
}

impl Circle {
    /// Common denominator of the centre's coordinates.
    pub closed spec fn den(self) -> int {
        self.den as int
    }

    /// Numerators of the centre's coordinates over `den()`.
    pub closed spec fn center_num(self) -> (int, int) {
        (self.hx as int, self.hy as int)
    }

    /// Numerator of the squared radius over the square of `den()`.
    pub closed spec fn radius2_num(self) -> int {
        self.hx * self.hx + self.hy * self.hy - self.den * self.e
    }

    /// The denominator is positive, the radius is not negative, and the
    /// numbers are small enough to test points within `COORD_LIMIT`.
    pub closed spec fn wf(self) -> bool {
        &&& 0 < self.den <= 0x1000_0000_0000
        &&& -0x4_0000_0000_0000_0000 <= self.hx <= 0x4_0000_0000_0000_0000
        &&& -0x4_0000_0000_0000_0000 <= self.hy <= 0x4_0000_0000_0000_0000
        &&& -0x100_0000_0000_0000_0000_0000 <= self.e <= 0x100_0000_0000_0000_0000_0000
        &&& self.radius2_num() >= 0
    }

    /// Squared distance from the centre to `p`, over the square of `den()`.
    pub open spec fn dist2_num(self, p: Vec2) -> int {
        (self.den() * p.x - self.center_num().0) * (self.den() * p.x - self.center_num().0) + (
        self.den() * p.y - self.center_num().1) * (self.den() * p.y - self.center_num().1)
    }

    /// Whether `p` lies in the closed disk: its distance from the centre is
    /// at most the radius.
    pub open spec fn spec_contains(self, p: Vec2) -> bool {
        self.dist2_num(p) <= self.radius2_num()
    }

    /// Whether `p` lies on the circle itself.
    pub open spec fn on_boundary(self, p: Vec2) -> bool {
        self.dist2_num(p) == self.radius2_num()
    }

    /// The lattice point at or next below the centre on each axis, each
    /// coordinate kept within `COORD_LIMIT`.
    pub open spec fn spec_center(self) -> Vec2 {
        Vec2 {
            x: clamp_coord(self.center_num().0 / self.den()) as i64,
            y: clamp_coord(self.center_num().1 / self.den()) as i64,
        }
    }

    /// What the fields say of `p`: not positive exactly where the disk holds `p`.
    spec fn level(self, p: Vec2) -> int {
        self.den * (p.x * p.x + p.y * p.y) - 2 * (self.hx * p.x + self.hy * p.y) + self.e
    }

    proof fn lemma_level(self, p: Vec2)
        requires
            self.den > 0,
        ensures
            self.spec_contains(p) <==> self.level(p) <= 0,
            self.on_boundary(p) <==> self.level(p) == 0,
    {
        let d = self.den as int;
        let hx = self.hx as int;
        let hy = self.hy as int;
        let e = self.e as int;
        let px = p.x as int;
        let py = p.y as int;
        let t = d * (px * px + py * py) - 2 * (hx * px + hy * py) + e;
        let ux = d * px;
        let uy = d * py;
        assert((ux - hx) * (ux - hx) == ux * ux - 2 * (ux * hx) + hx * hx) by (nonlinear_arith);
        assert((uy - hy) * (uy - hy) == uy * uy - 2 * (uy * hy) + hy * hy) by (nonlinear_arith);
        assert(ux * ux == d * (d * (px * px))) by (nonlinear_arith)
            requires
                ux == d * px,
        ;
        assert(uy * uy == d * (d * (py * py))) by (nonlinear_arith)
            requires
                uy == d * py,
        ;
        assert(ux * hx == d * (hx * px)) by (nonlinear_arith)
            requires
                ux == d * px,
        ;
        assert(uy * hy == d * (hy * py)) by (nonlinear_arith)
            requires
                uy == d * py,
        ;
        let s2 = px * px + py * py;
        let w = hx * px + hy * py;
        assert(d * t == d * (d * s2) - 2 * (d * w) + d * e) by (nonlinear_arith)
            requires
                t == d * s2 - 2 * w + e,
        ;
        assert(d * (d * s2) == d * (d * (px * px)) + d * (d * (py * py))) by (nonlinear_arith)
            requires
                s2 == px * px + py * py,
        ;
        assert(d * w == d * (hx * px) + d * (hy * py)) by (nonlinear_arith)
            requires
                w == hx * px + hy * py,
        ;
        assert(self.dist2_num(p) - self.radius2_num() == d * t);
        assert(d * t <= 0 <==> t <= 0) by (nonlinear_arith)
            requires
                d > 0,
        ;
        assert(d * t == 0 <==> t == 0) by (nonlinear_arith)
            requires
                d > 0,
        ;
    }

    /// A well-formed circle has a positive denominator and a radius that is
    /// not negative.
    pub proof fn lemma_wf(self)
        requires
            self.wf(),
        ensures
            self.den() > 0,
            self.radius2_num() >= 0,
    {
    }

    /// The constant of the circle: the squared length of the centre's
    /// numerators less the numerator of the squared radius, over `den()`.
    pub closed spec fn constant(self) -> int {
        self.e as int
    }

    /// The squared radius, over the square of `den()`, is the squared
    /// length of the centre's numerators less `den()` times the constant.
    pub proof fn lemma_constant(self)
        ensures
            self.radius2_num() == self.center_num().0 * self.center_num().0 + self.center_num().1
                * self.center_num().1 - self.den() * self.constant(),
    {
    }

    /// Common denominator of the centre's coordinates.
    pub fn denominator(&self) -> (d: i128)
        ensures
            d == self.den(),
    {
        self.den
    }

    /// Numerators of the centre's coordinates over `denominator()`.
    pub fn center_numerators(&self) -> (c: (i128, i128))
        ensures
            c.0 == self.center_num().0,
            c.1 == self.center_num().1,
    {
        (self.hx, self.hy)
    }

    /// The constant of the circle, from which the squared radius follows;
    /// the squared radius itself need not fit a machine number.
    pub fn constant_term(&self) -> (e: i128)
        ensures
            e == self.constant(),
    {
        self.e
    }

    /// The circle around `center` with the given radius.
    pub fn new(center: Vec2, radius: i64) -> (circle: Self)
        requires
            center.in_range(),
            0 <= radius <= 2 * COORD_LIMIT,
        ensures
            circle.wf(),
            circle.den() == 1,
            circle.center_num() == (center.x as int, center.y as int),
            circle.radius2_num() == radius * radius,
    {
        let cx: i128 = center.x as i128;
        let cy: i128 = center.y as i128;
        let r: i128 = radius as i128;
        proof {
            lemma_mul_bound(cx as int, cx as int, 0x10_0000, 0x10_0000);
            lemma_mul_bound(cy as int, cy as int, 0x10_0000, 0x10_0000);
            lemma_mul_bound(r as int, r as int, 0x20_0000, 0x20_0000);
        }
        let e: i128 = cx * cx + cy * cy - r * r;
        assert(cx * cx + cy * cy - 1 * e == r * r);
        assert(r * r >= 0) by (nonlinear_arith);
        Circle { den: 1, hx: cx, hy: cy, e }
    }

    /// Whether `p` lies in the closed disk.
    pub fn contains(&self, p: Vec2) -> (b: bool)
        requires
            self.wf(),
            p.in_range(),
        ensures
            b == self.spec_contains(p),
    {
        let px: i128 = p.x as i128;
        let py: i128 = p.y as i128;
        proof {
            self.lemma_level(p);
            lemma_mul_bound(px as int, px as int, 0x10_0000, 0x10_0000);
            lemma_mul_bound(py as int, py as int, 0x10_0000, 0x10_0000);
            lemma_mul_bound(self.den as int, px * px + py * py, 0x1000_0000_0000, 0x200_0000_0000);
            lemma_mul_bound(self.hx as int, px as int, 0x4_0000_0000_0000_0000, 0x10_0000);
            lemma_mul_bound(self.hy as int, py as int, 0x4_0000_0000_0000_0000, 0x10_0000);
        }
        let level: i128 = self.den * (px * px + py * py) - 2 * (self.hx * px + self.hy * py)
            + self.e;
        level <= 0
    }

    /// The lattice point at or next below the centre on each axis, each
    /// coordinate kept within `COORD_LIMIT`.
    pub fn center(&self) -> (c: Vec2)
        requires
            self.wf(),
        ensures
            c == self.spec_center(),
            c.in_range(),
    {
        let qx: i128 = div_floor(self.hx, self.den);
        let qy: i128 = div_floor(self.hy, self.den);
        Vec2 { x: clamp_to_coord(qx), y: clamp_to_coord(qy) }
    }
}

/// The circle through `a`, `b` and `c`, which must not lie on one line.
pub closed spec fn circumcircle_of(a: Vec2, b: Vec2, c: Vec2) -> Circle {
    let k = spec_orient(a, b, c);
    let u = circum_offset(a, b, c);
    let sign: int = if k > 0 { 1 } else { -1 };
    Circle {
        den: (sign * (2 * k)) as i128,
        hx: (sign * (2 * k * a.x + u.0)) as i128,
        hy: (sign * (2 * k * a.y + u.1)) as i128,
        e: (sign * (2 * k * (a.x * a.x + a.y * a.y) + 2 * (a.x * u.0 + a.y * u.1))) as i128,
    }
}

/// The displacement from `a` to the centre of the circle through `a`, `b`
/// and `c`, times twice `spec_orient(a, b, c)`.
pub open spec fn circum_offset(a: Vec2, b: Vec2, c: Vec2) -> (int, int) {
    let bx = b.x - a.x;
    let by = b.y - a.y;
    let cx = c.x - a.x;
    let cy = c.y - a.y;
    let bb = bx * bx + by * by;
    let cc = cx * cx + cy * cy;
    (cy * bb - by * cc, bx * cc - cx * bb)
}

proof fn lemma_offset_bounds(a: Vec2, b: Vec2, c: Vec2)
    requires
        a.in_range(),
        b.in_range(),
        c.in_range(),
    ensures
        -0x800_0000_0000 <= spec_orient(a, b, c) <= 0x800_0000_0000,
        -0x2_0000_0000_0000_0000 <= circum_offset(a, b, c).0 <= 0x2_0000_0000_0000_0000,
        -0x2_0000_0000_0000_0000 <= circum_offset(a, b, c).1 <= 0x2_0000_0000_0000_0000,
{
    let bx = b.x - a.x;
    let by = b.y - a.y;
    let cx = c.x - a.x;
    let cy = c.y - a.y;
    let bb = bx * bx + by * by;
    let cc = cx * cx + cy * cy;
    lemma_mul_bound(bx, cy, 0x20_0000, 0x20_0000);
    lemma_mul_bound(by, cx, 0x20_0000, 0x20_0000);
    lemma_mul_bound(bx, bx, 0x20_0000, 0x20_0000);
    lemma_mul_bound(by, by, 0x20_0000, 0x20_0000);
    lemma_mul_bound(cx, cx, 0x20_0000, 0x20_0000);
    lemma_mul_bound(cy, cy, 0x20_0000, 0x20_0000);
    lemma_mul_bound(cy, bb, 0x20_0000, 0x800_0000_0000);
    lemma_mul_bound(by, cc, 0x20_0000, 0x800_0000_0000);
    lemma_mul_bound(bx, cc, 0x20_0000, 0x800_0000_0000);
    lemma_mul_bound(cx, bb, 0x20_0000, 0x800_0000_0000);
}

/// With `m` twice the orientation and `u` the offset of the centre, the
/// squared radius of the circle through the three points is that of `u`.
proof fn lemma_radius(m: int, ax: int, ay: int, ux: int, uy: int)
    ensures
        (m * ax + ux) * (m * ax + ux) + (m * ay + uy) * (m * ay + uy) - m * (m * (ax * ax + ay * ay)
            + 2 * (ax * ux + ay * uy)) == ux * ux + uy * uy,
{
    let tx = m * ax;
    let ty = m * ay;
    assert((tx + ux) * (tx + ux) == tx * tx + 2 * (tx * ux) + ux * ux) by (nonlinear_arith);
    assert((ty + uy) * (ty + uy) == ty * ty + 2 * (ty * uy) + uy * uy) by (nonlinear_arith);
    assert(tx * tx == m * (m * (ax * ax))) by (nonlinear_arith)
        requires
            tx == m * ax,
    ;
    assert(ty * ty == m * (m * (ay * ay))) by (nonlinear_arith)
        requires
            ty == m * ay,
    ;
    assert(tx * ux == m * (ax * ux)) by (nonlinear_arith)
        requires
            tx == m * ax,
    ;
    assert(ty * uy == m * (ay * uy)) by (nonlinear_arith)
        requires
            ty == m * ay,
    ;
    let s2 = ax * ax + ay * ay;
    let w = ax * ux + ay * uy;
    assert(m * (m * s2 + 2 * w) == m * (m * s2) + 2 * (m * w)) by (nonlinear_arith);
    assert(m * (m * s2) == m * (m * (ax * ax)) + m * (m * (ay * ay))) by (nonlinear_arith)
        requires
            s2 == ax * ax + ay * ay,
    ;
    assert(m * w == m * (ax * ux) + m * (ay * uy)) by (nonlinear_arith)
        requires
            w == ax * ux + ay * uy,
    ;
}

/// What the circle through three points, with `m` twice their orientation
/// and `u` the offset of its centre from `a`, says of `p`, in terms of the
/// displacement `q` from `a` to `p`.
proof fn lemma_level_shift(m: int, ax: int, ay: int, ux: int, uy: int, px: int, py: int)
    ensures
        m * (px * px + py * py) - 2 * ((m * ax + ux) * px + (m * ay + uy) * py) + (m * (ax * ax + ay
            * ay) + 2 * (ax * ux + ay * uy)) == m * ((px - ax) * (px - ax) + (py - ay) * (py - ay))
            - 2 * (ux * (px - ax) + uy * (py - ay)),
{
    let qx = px - ax;
    let qy = py - ay;
    assert(qx * qx == px * px - 2 * (ax * px) + ax * ax) by (nonlinear_arith)
        requires
            qx == px - ax,
    ;
    assert(qy * qy == py * py - 2 * (ay * py) + ay * ay) by (nonlinear_arith)
        requires
            qy == py - ay,
    ;
    assert(ux * qx == ux * px - ax * ux) by (nonlinear_arith)
        requires
            qx == px - ax,
    ;
    assert(uy * qy == uy * py - ay * uy) by (nonlinear_arith)
        requires
            qy == py - ay,
    ;
    assert((m * ax + ux) * px == m * (ax * px) + ux * px) by (nonlinear_arith);
    assert((m * ay + uy) * py == m * (ay * py) + uy * py) by (nonlinear_arith);
    let s2 = px * px + py * py;
    let a2 = ax * ax + ay * ay;
    let ap = ax * px + ay * py;
    assert(m * (qx * qx + qy * qy) == m * s2 - 2 * (m * ap) + m * a2) by (nonlinear_arith)
        requires
            qx * qx + qy * qy == s2 - 2 * ap + a2,
    ;
    assert(m * ap == m * (ax * px) + m * (ay * py)) by (nonlinear_arith)
        requires
            ap == ax * px + ay * py,
    ;
}

/// The circle through three points that do not lie on one line passes
/// through each of them: each lies in the closed disk, at a distance from
/// the centre that equals the radius.
pub proof fn lemma_circumcircle_through_vertices(a: Vec2, b: Vec2, c: Vec2)
    requires
        a.in_range(),
        b.in_range(),
        c.in_range(),
        spec_orient(a, b, c) != 0,
    ensures
        circumcircle_of(a, b, c).on_boundary(a),
        circumcircle_of(a, b, c).on_boundary(b),
        circumcircle_of(a, b, c).on_boundary(c),
        circumcircle_of(a, b, c).spec_contains(a),
        circumcircle_of(a, b, c).spec_contains(b),
        circumcircle_of(a, b, c).spec_contains(c),
{
    let circle = circumcircle_of(a, b, c);
    lemma_circumcircle_fields(a, b, c);
    let k = spec_orient(a, b, c);
    let u = circum_offset(a, b, c);
    let sign: int = if k > 0 { 1 } else { -1 };
    let m = 2 * k;
    let bx = b.x - a.x;
    let by = b.y - a.y;
    let cx = c.x - a.x;
    let cy = c.y - a.y;
    let bb = bx * bx + by * by;
    let cc = cx * cx + cy * cy;
    circle.lemma_level(a);
    circle.lemma_level(b);
    circle.lemma_level(c);
    lemma_level_shift(m, a.x as int, a.y as int, u.0, u.1, a.x as int, a.y as int);
    lemma_level_shift(m, a.x as int, a.y as int, u.0, u.1, b.x as int, b.y as int);
    lemma_level_shift(m, a.x as int, a.y as int, u.0, u.1, c.x as int, c.y as int);
    lemma_signed_level(circle, sign, m, a.x as int, a.y as int, u.0, u.1, a);
    lemma_signed_level(circle, sign, m, a.x as int, a.y as int, u.0, u.1, b);
    lemma_signed_level(circle, sign, m, a.x as int, a.y as int, u.0, u.1, c);
    // at b: m * bb == 2 * (u . b')
    assert(u.0 * bx + u.1 * by == k * bb) by (nonlinear_arith)
        requires
            u.0 == cy * bb - by * cc,
            u.1 == bx * cc - cx * bb,
            k == bx * cy - by * cx,
    ;
    assert(u.0 * cx + u.1 * cy == k * cc) by (nonlinear_arith)
        requires
            u.0 == cy * bb - by * cc,
            u.1 == bx * cc - cx * bb,
            k == bx * cy - by * cx,
    ;
    assert(m * bb == 2 * (k * bb)) by (nonlinear_arith)
        requires
            m == 2 * k,
    ;
    assert(m * cc == 2 * (k * cc)) by (nonlinear_arith)
        requires
            m == 2 * k,
    ;
    assert(m * (0 * 0 + 0 * 0) - 2 * (u.0 * 0 + u.1 * 0) == 0) by (nonlinear_arith);
}

/// The fields of the circle through three points of the coordinate range
/// that do not lie on one line, without the casts.
proof fn lemma_circumcircle_fields(a: Vec2, b: Vec2, c: Vec2)
    requires
        a.in_range(),
        b.in_range(),
        c.in_range(),
        spec_orient(a, b, c) != 0,
    ensures
        ({
            let k = spec_orient(a, b, c);
            let u = circum_offset(a, b, c);
            let sign: int = if k > 0 { 1 } else { -1 };
            let circle = circumcircle_of(a, b, c);
            &&& circle.den == sign * (2 * k)
            &&& circle.hx == sign * (2 * k * a.x + u.0)
            &&& circle.hy == sign * (2 * k * a.y + u.1)
            &&& circle.e == sign * (2 * k * (a.x * a.x + a.y * a.y) + 2 * (a.x * u.0 + a.y * u.1))
            &&& circle.wf()
            &&& circle.radius2_num() == u.0 * u.0 + u.1 * u.1
        }),
{
    let k = spec_orient(a, b, c);
    let u = circum_offset(a, b, c);
    let sign: int = if k > 0 { 1 } else { -1 };
    let m = 2 * k;
    let ax = a.x as int;
    let ay = a.y as int;
    lemma_offset_bounds(a, b, c);
    lemma_mul_bound(m, ax, 0x1000_0000_0000, 0x10_0000);
    lemma_mul_bound(m, ay, 0x1000_0000_0000, 0x10_0000);
    lemma_mul_bound(ax, ax, 0x10_0000, 0x10_0000);
    lemma_mul_bound(ay, ay, 0x10_0000, 0x10_0000);
    lemma_mul_bound(m, ax * ax + ay * ay, 0x1000_0000_0000, 0x200_0000_0000);
    lemma_mul_bound(ax, u.0, 0x10_0000, 0x2_0000_0000_0000_0000);
    lemma_mul_bound(ay, u.1, 0x10_0000, 0x2_0000_0000_0000_0000);
    let hx = m * ax + u.0;
    let hy = m * ay + u.1;
    let e = m * (ax * ax + ay * ay) + 2 * (ax * u.0 + ay * u.1);
    assert(2 * k * a.x == m * ax) by (nonlinear_arith)
        requires
            m == 2 * k,
            ax == a.x,
    ;
    assert(2 * k * a.y == m * ay) by (nonlinear_arith)
        requires
            m == 2 * k,
            ay == a.y,
    ;
    assert(2 * k * (a.x * a.x + a.y * a.y) == m * (ax * ax + ay * ay)) by (nonlinear_arith)
        requires
            m == 2 * k,
            ax == a.x,
            ay == a.y,
    ;
    lemma_radius(m, ax, ay, u.0, u.1);
    assert((sign * hx) * (sign * hx) == hx * hx) by (nonlinear_arith)
        requires
            sign == 1 || sign == -1,
    ;
    assert((sign * hy) * (sign * hy) == hy * hy) by (nonlinear_arith)
        requires
            sign == 1 || sign == -1,
    ;
    assert((sign * m) * (sign * e) == m * e) by (nonlinear_arith)
        requires
            sign == 1 || sign == -1,
    ;
    assert(u.0 * u.0 + u.1 * u.1 >= 0) by (nonlinear_arith);
}

/// The centre of the circle through three points that do not lie on one
/// line is the first of them moved by the offset over twice the
/// orientation, and the squared radius is the squared length of that move.
pub proof fn lemma_circumcircle_center(a: Vec2, b: Vec2, c: Vec2)
    requires
        a.in_range(),
        b.in_range(),
        c.in_range(),
        spec_orient(a, b, c) != 0,
    ensures
        ({
            let k = spec_orient(a, b, c);
            let u = circum_offset(a, b, c);
            let sign: int = if k > 0 { 1 } else { -1 };
            let circle = circumcircle_of(a, b, c);
            &&& circle.wf()
            &&& circle.den() == 2 * abs(k)
            &&& circle.center_num() == (circle.den() * a.x + sign * u.0, circle.den() * a.y + sign * u.1)
            &&& circle.radius2_num() == u.0 * u.0 + u.1 * u.1
        }),
{
    lemma_circumcircle_fields(a, b, c);
    let k = spec_orient(a, b, c);
    let u = circum_offset(a, b, c);
    let sign: int = if k > 0 { 1 } else { -1 };
    assert(sign * (2 * k) == 2 * abs(k)) by (nonlinear_arith)
        requires
            sign == (if k > 0 { 1int } else { -1int }),
            k != 0,
    ;
    assert(sign * (2 * k * a.x + u.0) == (sign * (2 * k)) * a.x + sign * u.0) by (nonlinear_arith)
        requires
            sign == 1 || sign == -1,
    ;
    assert(sign * (2 * k * a.y + u.1) == (sign * (2 * k)) * a.y + sign * u.1) by (nonlinear_arith)
        requires
            sign == 1 || sign == -1,
    ;
}

/// Where `d (B - A) == 2 (hx bx + hy by)` and `d (C - A) == 2 (hx cx + hy cy)`
/// hold of a centre `(hx, hy) / d`, with `b`, `c` the displacements of two
/// points from a third, `a`, and `A`, `B`, `C` the squared lengths of the
/// three, the centre is that of the circle through the three points.
proof fn lemma_center_solved(
    d: int,
    hx: int,
    hy: int,
    ax: int,
    ay: int,
    bx: int,
    by: int,
    cx: int,
    cy: int,
)
    requires
        d * (bx * bx + by * by + 2 * (ax * bx + ay * by)) == 2 * (hx * bx + hy * by),
        d * (cx * cx + cy * cy + 2 * (ax * cx + ay * cy)) == 2 * (hx * cx + hy * cy),
    ensures
        ({
            let k = bx * cy - by * cx;
            let bb = bx * bx + by * by;
            let cc = cx * cx + cy * cy;
            &&& hx * (2 * k) == d * (2 * k * ax + (cy * bb - by * cc))
            &&& hy * (2 * k) == d * (2 * k * ay + (bx * cc - cx * bb))
        }),
{
    let k = bx * cy - by * cx;
    let bb = bx * bx + by * by;
    let cc = cx * cx + cy * cy;
    let lb = bb + 2 * (ax * bx + ay * by);
    let lc = cc + 2 * (ax * cx + ay * cy);
    let rb = hx * bx + hy * by;
    let rc = hx * cx + hy * cy;
    // First coordinate: the first equation times cy less the second times by.
    assert((d * lb) * cy - (d * lc) * by == d * (lb * cy - lc * by)) by (nonlinear_arith);
    assert((2 * rb) * cy - (2 * rc) * by == 2 * (rb * cy - rc * by)) by (nonlinear_arith);
    assert(rb * cy - rc * by == hx * k) by (nonlinear_arith)
        requires
            rb == hx * bx + hy * by,
            rc == hx * cx + hy * cy,
            k == bx * cy - by * cx,
    ;
    assert(lb * cy == bb * cy + 2 * ((ax * bx) * cy + (ay * by) * cy)) by (nonlinear_arith)
        requires
            lb == bb + 2 * (ax * bx + ay * by),
    ;
    assert(lc * by == cc * by + 2 * ((ax * cx) * by + (ay * cy) * by)) by (nonlinear_arith)
        requires
            lc == cc + 2 * (ax * cx + ay * cy),
    ;
    assert((ay * by) * cy == (ay * cy) * by) by (nonlinear_arith);
    assert((ax * bx) * cy - (ax * cx) * by == ax * k) by (nonlinear_arith)
        requires
            k == bx * cy - by * cx,
    ;
    assert(bb * cy == cy * bb && cc * by == by * cc) by (nonlinear_arith);
    assert(lb * cy - lc * by == (cy * bb - by * cc) + 2 * (ax * k));
    assert(hx * (2 * k) == 2 * (hx * k) && 2 * k * ax == 2 * (ax * k)) by (nonlinear_arith);
    // Second coordinate: the second equation times bx less the first times cx.
    assert((d * lc) * bx - (d * lb) * cx == d * (lc * bx - lb * cx)) by (nonlinear_arith);
    assert((2 * rc) * bx - (2 * rb) * cx == 2 * (rc * bx - rb * cx)) by (nonlinear_arith);
    assert(rc * bx - rb * cx == hy * k) by (nonlinear_arith)
        requires
            rb == hx * bx + hy * by,
            rc == hx * cx + hy * cy,
            k == bx * cy - by * cx,
    ;
    assert(lc * bx == cc * bx + 2 * ((ax * cx) * bx + (ay * cy) * bx)) by (nonlinear_arith)
        requires
            lc == cc + 2 * (ax * cx + ay * cy),
    ;
    assert(lb * cx == bb * cx + 2 * ((ax * bx) * cx + (ay * by) * cx)) by (nonlinear_arith)
        requires
            lb == bb + 2 * (ax * bx + ay * by),
    ;
    assert((ax * cx) * bx == (ax * bx) * cx) by (nonlinear_arith);
    assert((ay * cy) * bx - (ay * by) * cx == ay * k) by (nonlinear_arith)
        requires
            k == bx * cy - by * cx,
    ;
    assert(cc * bx == bx * cc && bb * cx == cx * bb) by (nonlinear_arith);
    assert(lc * bx - lb * cx == (bx * cc - cx * bb) + 2 * (ay * k));
    assert(hy * (2 * k) == 2 * (hy * k) && 2 * k * ay == 2 * (ay * k)) by (nonlinear_arith);
}

/// The squared length of `a + b`, for the displacement `b` from `a`.
proof fn lemma_square_shift(ax: int, ay: int, bx: int, by: int)
    ensures
        (ax + bx) * (ax + bx) + (ay + by) * (ay + by) == (ax * ax + ay * ay) + (bx * bx + by * by)
            + 2 * (ax * bx + ay * by),
{
    assert((ax + bx) * (ax + bx) == ax * ax + 2 * (ax * bx) + bx * bx) by (nonlinear_arith);
    assert((ay + by) * (ay + by) == ay * ay + 2 * (ay * by) + by * by) by (nonlinear_arith);
}

/// The circle through three points that do not lie on one line is the only
/// one: a circle on which the three points lie has the centre and the
/// radius of `circumcircle_of`, each written over the product of the two
/// denominators.
pub proof fn lemma_circumcircle_unique(k: Circle, a: Vec2, b: Vec2, c: Vec2)
    requires
        a.in_range(),
        b.in_range(),
        c.in_range(),
        spec_orient(a, b, c) != 0,
        k.wf(),
        k.on_boundary(a),
        k.on_boundary(b),
        k.on_boundary(c),
    ensures
        ({
            let found = circumcircle_of(a, b, c);
            &&& k.center_num().0 * found.den() == found.center_num().0 * k.den()
            &&& k.center_num().1 * found.den() == found.center_num().1 * k.den()
            &&& k.radius2_num() * (found.den() * found.den()) == found.radius2_num() * (k.den()
                * k.den())
        }),
{
    let found = circumcircle_of(a, b, c);
    lemma_circumcircle_fields(a, b, c);
    lemma_circumcircle_through_vertices(a, b, c);
    let d = k.den as int;
    let hx = k.hx as int;
    let hy = k.hy as int;
    let e = k.e as int;
    let ax = a.x as int;
    let ay = a.y as int;
    let bx = b.x - a.x;
    let by = b.y - a.y;
    let cx = c.x - a.x;
    let cy = c.y - a.y;
    let turn = spec_orient(a, b, c);
    let u = circum_offset(a, b, c);
    let sign: int = if turn > 0 { 1 } else { -1 };
    k.lemma_level(a);
    k.lemma_level(b);
    k.lemma_level(c);
    // The level of `k` vanishes at the three points.
    let la = ax * ax + ay * ay;
    let lb = b.x * b.x + b.y * b.y;
    let lc = c.x * c.x + c.y * c.y;
    lemma_square_shift(ax, ay, bx, by);
    lemma_square_shift(ax, ay, cx, cy);
    assert(lb == la + (bx * bx + by * by) + 2 * (ax * bx + ay * by));
    assert(lc == la + (cx * cx + cy * cy) + 2 * (ax * cx + ay * cy));
    assert(d * lb - d * la == d * (lb - la) && d * lc - d * la == d * (lc - la)) by (nonlinear_arith);
    assert(hx * b.x - hx * ax == hx * bx && hy * b.y - hy * ay == hy * by && hx * c.x - hx * ax == hx
        * cx && hy * c.y - hy * ay == hy * cy) by (nonlinear_arith)
        requires
            bx == b.x - ax,
            by == b.y - ay,
            cx == c.x - ax,
            cy == c.y - ay,
    ;
    lemma_center_solved(d, hx, hy, ax, ay, bx, by, cx, cy);
    let m = 2 * turn;
    let gx = m * ax + u.0;
    let gy = m * ay + u.1;
    assert(2 * turn * ax == m * ax && 2 * turn * ay == m * ay) by (nonlinear_arith)
        requires
            m == 2 * turn,
    ;
    assert(hx * m == d * gx && hy * m == d * gy);
    // With the sign of the orientation on both sides.
    assert(hx * (sign * m) == (sign * gx) * d && hy * (sign * m) == (sign * gy) * d)
        by (nonlinear_arith)
        requires
            hx * m == d * gx,
            hy * m == d * gy,
            sign == 1 || sign == -1,
    ;
    // The radius: both circles pass through `a`.
    let fd = found.den as int;
    let fx = found.hx as int;
    let fy = found.hy as int;
    let px = d * ax - hx;
    let py = d * ay - hy;
    let qx = fd * ax - fx;
    let qy = fd * ay - fy;
    assert(k.radius2_num() == px * px + py * py);
    assert(found.radius2_num() == qx * qx + qy * qy);
    assert(px * fd == d * qx && py * fd == d * qy) by (nonlinear_arith)
        requires
            px == d * ax - hx,
            py == d * ay - hy,
            qx == fd * ax - fx,
            qy == fd * ay - fy,
            hx * fd == fx * d,
            hy * fd == fy * d,
    ;
    assert((px * px) * (fd * fd) == (px * fd) * (px * fd) && (py * py) * (fd * fd) == (py * fd) * (
    py * fd) && (qx * qx) * (d * d) == (d * qx) * (d * qx) && (qy * qy) * (d * d) == (d * qy) * (d
        * qy)) by (nonlinear_arith);
    assert((px * px + py * py) * (fd * fd) == (px * px) * (fd * fd) + (py * py) * (fd * fd) && (qx
        * qx + qy * qy) * (d * d) == (qx * qx) * (d * d) + (qy * qy) * (d * d)) by (nonlinear_arith);
}

/// The level of the circle through three points is, up to the sign of their
/// orientation, the level written with `m` and `u`.
proof fn lemma_signed_level(
    circle: Circle,
    sign: int,
    m: int,
    ax: int,
    ay: int,
    ux: int,
    uy: int,
    p: Vec2,
)
    requires
        sign == 1 || sign == -1,
        circle.den == sign * m,
        circle.hx == sign * (m * ax + ux),
        circle.hy == sign * (m * ay + uy),
        circle.e == sign * (m * (ax * ax + ay * ay) + 2 * (ax * ux + ay * uy)),
    ensures
        circle.level(p) == sign * (m * (p.x * p.x + p.y * p.y) - 2 * ((m * ax + ux) * p.x + (m * ay
            + uy) * p.y) + (m * (ax * ax + ay * ay) + 2 * (ax * ux + ay * uy))),
{
    let hx = m * ax + ux;
    let hy = m * ay + uy;
    let e = m * (ax * ax + ay * ay) + 2 * (ax * ux + ay * uy);
    let s2 = p.x * p.x + p.y * p.y;
    assert((sign * m) * s2 == sign * (m * s2)) by (nonlinear_arith);
    assert((sign * hx) * p.x == sign * (hx * p.x)) by (nonlinear_arith);
    assert((sign * hy) * p.y == sign * (hy * p.y)) by (nonlinear_arith);
    assert(sign * (m * s2 - 2 * (hx * p.x + hy * p.y) + e) == sign * (m * s2) - 2 * (sign * (hx
        * p.x) + sign * (hy * p.y)) + sign * e) by (nonlinear_arith);
}

impl Circle {
    /// The circle through `a`, `b` and `c`, or `None` where the three lie on
    /// one line, two equal points included: no circle passes through them.
    pub fn circumcircle(a: Vec2, b: Vec2, c: Vec2) -> (circle: Option<Self>)
        requires
            a.in_range(),
            b.in_range(),
            c.in_range(),
        ensures
            circle is None <==> spec_orient(a, b, c) == 0,
            circle matches Some(found) ==> found == circumcircle_of(a, b, c) && found.wf(),
    {
        let k: i128 = orient(a, b, c);
        if k == 0 {
            return None;
        }
        let ax: i128 = a.x as i128;
        let ay: i128 = a.y as i128;
        let bx: i128 = b.x as i128 - ax;
        let by: i128 = b.y as i128 - ay;
        let cx: i128 = c.x as i128 - ax;
        let cy: i128 = c.y as i128 - ay;
        proof {
            lemma_offset_bounds(a, b, c);
            lemma_circumcircle_fields(a, b, c);
            lemma_mul_bound(bx as int, bx as int, 0x20_0000, 0x20_0000);
            lemma_mul_bound(by as int, by as int, 0x20_0000, 0x20_0000);
            lemma_mul_bound(cx as int, cx as int, 0x20_0000, 0x20_0000);
            lemma_mul_bound(cy as int, cy as int, 0x20_0000, 0x20_0000);
        }
        let bb: i128 = bx * bx + by * by;
        let cc: i128 = cx * cx + cy * cy;
        proof {
            lemma_mul_bound(cy as int, bb as int, 0x20_0000, 0x800_0000_0000);
            lemma_mul_bound(by as int, cc as int, 0x20_0000, 0x800_0000_0000);
            lemma_mul_bound(bx as int, cc as int, 0x20_0000, 0x800_0000_0000);
            lemma_mul_bound(cx as int, bb as int, 0x20_0000, 0x800_0000_0000);
        }
        let ux: i128 = cy * bb - by * cc;
        let uy: i128 = bx * cc - cx * bb;
        let m: i128 = 2 * k;
        proof {
            lemma_mul_bound(m as int, ax as int, 0x1000_0000_0000, 0x10_0000);
            lemma_mul_bound(m as int, ay as int, 0x1000_0000_0000, 0x10_0000);
            lemma_mul_bound(ax as int, ax as int, 0x10_0000, 0x10_0000);
            lemma_mul_bound(ay as int, ay as int, 0x10_0000, 0x10_0000);
            lemma_mul_bound(m as int, ax * ax + ay * ay, 0x1000_0000_0000, 0x200_0000_0000);
            lemma_mul_bound(ax as int, ux as int, 0x10_0000, 0x2_0000_0000_0000_0000);
            lemma_mul_bound(ay as int, uy as int, 0x10_0000, 0x2_0000_0000_0000_0000);
            assert(2 * k * a.x == m * ax) by (nonlinear_arith)
                requires
                    m == 2 * k,
                    ax == a.x,
            ;
            assert(2 * k * a.y == m * ay) by (nonlinear_arith)
                requires
                    m == 2 * k,
                    ay == a.y,
            ;
            assert(2 * k * (a.x * a.x + a.y * a.y) == m * (ax * ax + ay * ay)) by (nonlinear_arith)
                requires
                    m == 2 * k,
                    ax == a.x,
                    ay == a.y,
            ;
        }
        let hx: i128 = m * ax + ux;
        let hy: i128 = m * ay + uy;
        let e: i128 = m * (ax * ax + ay * ay) + 2 * (ax * ux + ay * uy);
        proof {
            let u = circum_offset(a, b, c);
            let expected = circumcircle_of(a, b, c);
            assert(u.0 == ux && u.1 == uy);
            assert(k > 0 ==> expected.den == m && expected.hx == hx && expected.hy == hy
                && expected.e == e);
            if k < 0 {
                let sign: int = -1;
                let th = 2 * k * a.x + u.0;
                let tv = 2 * k * a.y + u.1;
                let te = 2 * k * (a.x * a.x + a.y * a.y) + 2 * (a.x * u.0 + a.y * u.1);
                assert(sign * (2 * k) == -m && sign * th == -th && sign * tv == -tv && sign * te
                    == -te) by (nonlinear_arith)
                    requires
                        sign == -1,
                        m == 2 * k,
                ;
                assert(th == hx && tv == hy && te == e);
            }
            assert(k < 0 ==> expected.den == -m && expected.hx == -hx && expected.hy == -hy
                && expected.e == -e);
        }
        if k > 0 {
            Some(Circle { den: m, hx, hy, e })
        } else {
            Some(Circle { den: -m, hx: -hx, hy: -hy, e: -e })
        }
    }
}

/// `v`, or the end of the coordinate range that is nearest to it.
pub open spec fn clamp_coord(v: int) -> int {
    if v < -COORD_LIMIT {
        -COORD_LIMIT as int
    } else if v > COORD_LIMIT {
        COORD_LIMIT as int
    } else {
        v
    }
}

fn clamp_to_coord(v: i128) -> (c: i64)
    ensures
        c == clamp_coord(v as int),
{
    if v < -(COORD_LIMIT as i128) {
        -COORD_LIMIT
    } else if v > COORD_LIMIT as i128 {
        COORD_LIMIT
    } else {
        v as i64
    }
}

/// Whether `p` lies in the closed triangle with the corners `v`, which do
/// not lie on one line.
pub open spec fn spec_inside(v: Seq<Vec2>, p: Vec2) -> bool {
    let k = spec_orient(v[0], v[1], v[2]);
    let s0 = spec_orient(p, v[1], v[2]);
    let s1 = spec_orient(v[0], p, v[2]);
    let s2 = spec_orient(v[0], v[1], p);
    ||| k > 0 && s0 >= 0 && s1 >= 0 && s2 >= 0
    ||| k < 0 && s0 <= 0 && s1 <= 0 && s2 <= 0
}

/// The three sub-triangles that a point makes with the sides of a triangle
/// add up to the triangle, and weigh its corners into the point.
pub proof fn lemma_orient_parts(a: Vec2, b: Vec2, c: Vec2, p: Vec2)
    ensures
        spec_orient(p, b, c) + spec_orient(a, p, c) + spec_orient(a, b, p) == spec_orient(a, b, c),
        spec_orient(p, b, c) * a.x + spec_orient(a, p, c) * b.x + spec_orient(a, b, p) * c.x
            == spec_orient(a, b, c) * p.x,
        spec_orient(p, b, c) * a.y + spec_orient(a, p, c) * b.y + spec_orient(a, b, p) * c.y
            == spec_orient(a, b, c) * p.y,
{
    // Displacements from `p`.
    let ax = a.x - p.x;
    let ay = a.y - p.y;
    let bx = b.x - p.x;
    let by = b.y - p.y;
    let cx = c.x - p.x;
    let cy = c.y - p.y;
    let px = p.x as int;
    let py = p.y as int;
    let s0 = spec_orient(p, b, c);
    let s1 = spec_orient(a, p, c);
    let s2 = spec_orient(a, b, p);
    let k = spec_orient(a, b, c);
    assert(s0 == bx * cy - by * cx);
    assert(s1 == cx * ay - cy * ax) by (nonlinear_arith)
        requires
            s1 == (0 - ax) * (cy - ay) - (0 - ay) * (cx - ax),
    ;
    assert(s2 == ax * by - ay * bx) by (nonlinear_arith)
        requires
            s2 == (bx - ax) * (0 - ay) - (by - ay) * (0 - ax),
    ;
    assert((bx - ax) * (cy - ay) == bx * cy - bx * ay - ax * cy + ax * ay) by (nonlinear_arith);
    assert((by - ay) * (cx - ax) == by * cx - by * ax - ay * cx + ay * ax) by (nonlinear_arith);
    assert(bx * ay == ay * bx && ax * cy == cy * ax && ax * ay == ay * ax && by * ax == ax * by
        && ay * cx == cx * ay) by (nonlinear_arith);
    assert(k == (bx - ax) * (cy - ay) - (by - ay) * (cx - ax));
    assert(s0 + s1 + s2 == k);
    lemma_triple(ax, ay, bx, by, cx, cy);
    lemma_triple(ay, ax, by, bx, cy, cx);
    assert(s0 * a.x == s0 * ax + s0 * px && s1 * b.x == s1 * bx + s1 * px && s2 * c.x == s2 * cx
        + s2 * px) by (nonlinear_arith)
        requires
            a.x == ax + px,
            b.x == bx + px,
            c.x == cx + px,
    ;
    assert(s0 * a.y == s0 * ay + s0 * py && s1 * b.y == s1 * by + s1 * py && s2 * c.y == s2 * cy
        + s2 * py) by (nonlinear_arith)
        requires
            a.y == ay + py,
            b.y == by + py,
            c.y == cy + py,
    ;
    assert(k * px == s0 * px + s1 * px + s2 * px && k * py == s0 * py + s1 * py + s2 * py)
        by (nonlinear_arith)
        requires
            k == s0 + s1 + s2,
    ;
    assert(0 - (by * cx - bx * cy) == s0 && 0 - (cy * ax - cx * ay) == s1 && 0 - (ay * bx - ax
        * by) == s2);
    assert((0 - (by * cx - bx * cy)) * ay == 0 - (by * cx - bx * cy) * ay && (0 - (cy * ax - cx
        * ay)) * by == 0 - (cy * ax - cx * ay) * by && (0 - (ay * bx - ax * by)) * cy == 0 - (ay
        * bx - ax * by) * cy) by (nonlinear_arith);
}

/// For three vectors `a`, `b`, `c` of the plane, the first coordinates of
/// `(b x c) a + (c x a) b + (a x b) c` add up to zero.
proof fn lemma_triple(ax: int, ay: int, bx: int, by: int, cx: int, cy: int)
    ensures
        (bx * cy - by * cx) * ax + (cx * ay - cy * ax) * bx + (ax * by - ay * bx) * cx == 0,
{
    let t1 = (bx * cy) * ax;
    let t2 = (by * cx) * ax;
    let t3 = (cx * ay) * bx;
    let t4 = (cy * ax) * bx;
    let t5 = (ax * by) * cx;
    let t6 = (ay * bx) * cx;
    assert((bx * cy - by * cx) * ax == t1 - t2) by (nonlinear_arith)
        requires
            t1 == (bx * cy) * ax,
            t2 == (by * cx) * ax,
    ;
    assert((cx * ay - cy * ax) * bx == t3 - t4) by (nonlinear_arith)
        requires
            t3 == (cx * ay) * bx,
            t4 == (cy * ax) * bx,
    ;
    assert((ax * by - ay * bx) * cx == t5 - t6) by (nonlinear_arith)
        requires
            t5 == (ax * by) * cx,
            t6 == (ay * bx) * cx,
    ;
    assert(t1 == t4) by (nonlinear_arith)
        requires
            t1 == (bx * cy) * ax,
            t4 == (cy * ax) * bx,
    ;
    assert(t2 == t5) by (nonlinear_arith)
        requires
            t2 == (by * cx) * ax,
            t5 == (ax * by) * cx,
    ;
    assert(t3 == t6) by (nonlinear_arith)
        requires
            t3 == (cx * ay) * bx,
            t6 == (ay * bx) * cx,
    ;
}

/// Weights that write a point of a triangle as a mix of its corners: three
/// numbers that are not negative, over their sum.
#[derive(Debug, Copy, Clone)]
pub struct BarycentricCoords {
    weights: [i128; 3],
    total: i128,
}

impl BarycentricCoords {
    /// Weight of corner `i`, over `total()`.
    pub closed spec fn weight(self, i: int) -> int {
        self.weights@[i] as int
    }

    /// Sum of the three weights.
    pub closed spec fn total(self) -> int {
        self.total as int
    }

    /// No weight is negative, and they add up to the positive total.
    pub open spec fn wf(self) -> bool {
        &&& self.weight(0) >= 0
        &&& self.weight(1) >= 0
        &&& self.weight(2) >= 0
        &&& self.weight(0) + self.weight(1) + self.weight(2) == self.total()
        &&& 0 < self.total() <= 0x800_0000_0000
    }

    /// The weights mix the corners `v` into the point `p`.
    pub open spec fn locates(self, v: Seq<Vec2>, p: Vec2) -> bool {
        &&& self.weight(0) * v[0].x + self.weight(1) * v[1].x + self.weight(2) * v[2].x
            == self.total() * p.x
        &&& self.weight(0) * v[0].y + self.weight(1) * v[1].y + self.weight(2) * v[2].y
            == self.total() * p.y
    }

    /// The same mix of three values, one for each corner, as a fraction over
    /// `total()`.
    pub open spec fn spec_interpolate(self, values: Seq<i32>) -> int {
        self.weight(0) * values[0] + self.weight(1) * values[1] + self.weight(2) * values[2]
    }

    /// The barycentric coordinates of `p` in the triangle `vertices`, or
    /// `None` where `p` lies outside the triangle or the triangle has no area.
    pub fn triangle(vertices: [Vec2; 3], p: Vec2) -> (coords: Option<Self>)
        requires
            vertices@[0].in_range(),
            vertices@[1].in_range(),
            vertices@[2].in_range(),
            p.in_range(),
        ensures
            coords is Some <==> spec_inside(vertices@, p),
            coords matches Some(found) ==> {
                &&& found.wf()
                &&& found.locates(vertices@, p)
                &&& found.total() == abs(spec_orient(vertices@[0], vertices@[1], vertices@[2]))
                &&& found.weight(0) == abs(spec_orient(p, vertices@[1], vertices@[2]))
                &&& found.weight(1) == abs(spec_orient(vertices@[0], p, vertices@[2]))
                &&& found.weight(2) == abs(spec_orient(vertices@[0], vertices@[1], p))
            },
    {
        let a = vertices[0];
        let b = vertices[1];
        let c = vertices[2];
        let k: i128 = orient(a, b, c);
        let s0: i128 = orient(p, b, c);
        let s1: i128 = orient(a, p, c);
        let s2: i128 = orient(a, b, p);
        proof {
            lemma_orient_parts(a, b, c, p);
            lemma_orient_range(a, b, c);
        }
        if k > 0 && s0 >= 0 && s1 >= 0 && s2 >= 0 {
            Some(BarycentricCoords { weights: [s0, s1, s2], total: k })
        } else if k < 0 && s0 <= 0 && s1 <= 0 && s2 <= 0 {
            proof {
                assert((-s0) * a.x + (-s1) * b.x + (-s2) * c.x == (-k) * p.x) by (nonlinear_arith)
                    requires
                        s0 * a.x + s1 * b.x + s2 * c.x == k * p.x,
                ;
                assert((-s0) * a.y + (-s1) * b.y + (-s2) * c.y == (-k) * p.y) by (nonlinear_arith)
                    requires
                        s0 * a.y + s1 * b.y + s2 * c.y == k * p.y,
                ;
            }
            Some(BarycentricCoords { weights: [-s0, -s1, -s2], total: -k })
        } else {
            None
        }
    }

    /// Mixes three values, one for each corner, by the weights.
    pub fn interpolate(&self, values: [i32; 3]) -> (mix: Ratio)
        requires
            self.wf(),
        ensures
            mix.numer() == self.spec_interpolate(values@),
            mix.denom() == self.total(),
            mix.wf(),
            -0x2000_0000_0000_0000_0000 <= mix.numer() <= 0x2000_0000_0000_0000_0000,
    {
        let w0: i128 = self.weights[0];
        let w1: i128 = self.weights[1];
        let w2: i128 = self.weights[2];
        proof {
            lemma_mul_bound(w0 as int, values@[0] as int, 0x800_0000_0000, 0x8000_0000);
            lemma_mul_bound(w1 as int, values@[1] as int, 0x800_0000_0000, 0x8000_0000);
            lemma_mul_bound(w2 as int, values@[2] as int, 0x800_0000_0000, 0x8000_0000);
        }
        let num: i128 = w0 * (values[0] as i128) + w1 * (values[1] as i128) + w2 * (values[2] as i128);
        Ratio::new(num, self.total)
    }

    /// Sum of the three weights: twice the area of the triangle.
    pub fn denominator(&self) -> (t: i128)
        ensures
            t == self.total(),
    {
        self.total
    }
}

/// Twice the area of a triangle of the coordinate range is at most
/// `0x800_0000_0000`.
pub proof fn lemma_orient_range(a: Vec2, b: Vec2, c: Vec2)
    requires
        a.in_range(),
        b.in_range(),
        c.in_range(),
    ensures
        -0x800_0000_0000 <= spec_orient(a, b, c) <= 0x800_0000_0000,
{
    lemma_mul_bound(b.x - a.x, c.y - a.y, 0x20_0000, 0x20_0000);
    lemma_mul_bound(b.y - a.y, c.x - a.x, 0x20_0000, 0x20_0000);
}

/// A mix of three numbers with weights of one sign lies between bounds of
/// the three numbers.
proof fn lemma_mix_between(s0: int, s1: int, s2: int, x0: int, x1: int, x2: int, x: int, lo: int, hi: int)
    requires
        lo <= x0 <= hi,
        lo <= x1 <= hi,
        lo <= x2 <= hi,
        s0 * x0 + s1 * x1 + s2 * x2 == (s0 + s1 + s2) * x,
        (s0 + s1 + s2 > 0 && s0 >= 0 && s1 >= 0 && s2 >= 0) || (s0 + s1 + s2 < 0 && s0 <= 0 && s1
            <= 0 && s2 <= 0),
    ensures
        lo <= x <= hi,
{
    let k = s0 + s1 + s2;
    assert(k * lo == s0 * lo + s1 * lo + s2 * lo && k * hi == s0 * hi + s1 * hi + s2 * hi)
        by (nonlinear_arith)
        requires
            k == s0 + s1 + s2,
    ;
    if k > 0 {
        assert(s0 * lo <= s0 * x0 <= s0 * hi) by (nonlinear_arith)
            requires
                s0 >= 0,
                lo <= x0 <= hi,
        ;
        assert(s1 * lo <= s1 * x1 <= s1 * hi) by (nonlinear_arith)
            requires
                s1 >= 0,
                lo <= x1 <= hi,
        ;
        assert(s2 * lo <= s2 * x2 <= s2 * hi) by (nonlinear_arith)
            requires
                s2 >= 0,
                lo <= x2 <= hi,
        ;
        assert(lo <= x <= hi) by (nonlinear_arith)
            requires
                k > 0,
                k * lo <= k * x <= k * hi,
        ;
    } else {
        assert(s0 * lo >= s0 * x0 >= s0 * hi) by (nonlinear_arith)
            requires
                s0 <= 0,
                lo <= x0 <= hi,
        ;
        assert(s1 * lo >= s1 * x1 >= s1 * hi) by (nonlinear_arith)
            requires
                s1 <= 0,
                lo <= x1 <= hi,
        ;
        assert(s2 * lo >= s2 * x2 >= s2 * hi) by (nonlinear_arith)
            requires
                s2 <= 0,
                lo <= x2 <= hi,
        ;
        assert(lo <= x <= hi) by (nonlinear_arith)
            requires
                k < 0,
                k * lo >= k * x >= k * hi,
        ;
    }
}

/// A point of a triangle lies in every box that holds the three corners.
pub proof fn lemma_inside_box(v: Seq<Vec2>, p: Vec2, bbox: Bbox)
    requires
        spec_inside(v, p),
        bbox.spec_contains(v[0]),
        bbox.spec_contains(v[1]),
        bbox.spec_contains(v[2]),
    ensures
        bbox.spec_contains(p),
{
    lemma_orient_parts(v[0], v[1], v[2], p);
    let s0 = spec_orient(p, v[1], v[2]);
    let s1 = spec_orient(v[0], p, v[2]);
    let s2 = spec_orient(v[0], v[1], p);
    lemma_mix_between(
        s0,
        s1,
        s2,
        v[0].x as int,
        v[1].x as int,
        v[2].x as int,
        p.x as int,
        bbox.lo().x as int,
        bbox.hi().x as int,
    );
    lemma_mix_between(
        s0,
        s1,
        s2,
        v[0].y as int,
        v[1].y as int,
        v[2].y as int,
        p.y as int,
        bbox.lo().y as int,
        bbox.hi().y as int,
    );
}

} // verus!
